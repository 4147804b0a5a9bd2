//! The columns at which the options of a help text start: for the lines that
//! open a short option and for those that open a long one, the indentation
//! that most of them have.

use vstd::prelude::*;
use std::collections::HashMap;
use crate::chars::{utf8_width_of, CharClass};
use crate::text::{lemma_utf8_len_part, run_from, run_len, trim_start, utf8_len};

verus! {

/// The indentation of a line: the number of bytes that its leading white
/// space takes in UTF-8.
pub open spec fn indent(line: Seq<char>) -> nat {
    utf8_len(line.take(run_len(line, CharClass::Space) as int))
}

/// Whether the line opens a long option: behind its leading white space
/// stand two dashes.
pub open spec fn is_long_line(line: Seq<char>) -> bool {
    let t = trim_start(line);
    t.len() > 1 && t[0] == '-' && t[1] == '-'
}

/// Whether the line opens a short option: behind its leading white space
/// stands a dash, and no second one behind it.
pub open spec fn is_short_line(line: Seq<char>) -> bool {
    let t = trim_start(line);
    t.len() > 0 && t[0] == '-' && !(t.len() > 1 && t[1] == '-')
}

/// Whether the line belongs to the group: the long options where `long`
/// holds, the short ones where it does not.
pub open spec fn in_group(line: Seq<char>, long: bool) -> bool {
    if long {
        is_long_line(line)
    } else {
        is_short_line(line)
    }
}

/// The lines of the group among `ls`, each as its number and its
/// indentation, in the order of the lines.
pub open spec fn group_locations(ls: Seq<Seq<char>>, long: bool) -> Seq<(nat, nat)>
    decreases ls.len(),
{
    if ls.len() == 0 {
        seq![]
    } else if in_group(ls.last(), long) {
        group_locations(ls.drop_last(), long).push(((ls.len() - 1) as nat, indent(ls.last())))
    } else {
        group_locations(ls.drop_last(), long)
    }
}

/// The second parts of the pairs.
pub open spec fn seconds(locations: Seq<(nat, nat)>) -> Seq<nat> {
    Seq::new(locations.len(), |i: int| locations[i].1)
}

/// How often `x` occurs in `s`.
pub open spec fn count_of(s: Seq<nat>, x: nat) -> nat
    decreases s.len(),
{
    if s.len() == 0 {
        0
    } else if s.last() == x {
        count_of(s.drop_last(), x) + 1
    } else {
        count_of(s.drop_last(), x)
    }
}

/// The most frequent of the first `n` elements of `s`, counted over the
/// whole of `s`; of several that are equally frequent, the one that comes
/// first.
pub open spec fn mode_upto(s: Seq<nat>, n: int) -> nat
    decreases n,
{
    if n <= 1 {
        s[0]
    } else if count_of(s, s[n - 1]) > count_of(s, mode_upto(s, n - 1)) {
        s[n - 1]
    } else {
        mode_upto(s, n - 1)
    }
}

/// The most frequent element of `s`; of several that are equally frequent,
/// the one that comes first. An empty sequence has none.
pub open spec fn mode_of(s: Seq<nat>) -> Option<nat> {
    if s.len() == 0 {
        None
    } else {
        Some(mode_upto(s, s.len() as int))
    }
}

/// The offsets that stand for the two groups: none where a group has no
/// lines, one where both groups have the same, that of the short options
/// before that of the long ones otherwise.
pub open spec fn chosen_offsets(short: Option<nat>, long: Option<nat>) -> Seq<nat> {
    match (short, long) {
        (None, None) => seq![],
        (None, Some(y)) => seq![y],
        (Some(x), None) => seq![x],
        (Some(x), Some(y)) => if x == y {
            seq![x]
        } else {
            seq![x, y]
        },
    }
}

/// The offsets of the lines `ls`.
pub open spec fn offsets_of_lines(ls: Seq<Seq<char>>) -> Seq<nat> {
    chosen_offsets(
        mode_of(seconds(group_locations(ls, false))),
        mode_of(seconds(group_locations(ls, true))),
    )
}

/// An element occurs as often as it is counted: at least once where it is
/// in the sequence, never where it is not.
pub proof fn lemma_count_of_member(s: Seq<nat>, x: nat)
    ensures
        s.contains(x) <==> count_of(s, x) > 0,
        count_of(s, x) <= s.len(),
    decreases s.len(),
{
    if s.len() > 0 {
        let t = s.drop_last();
        lemma_count_of_member(t, x);
        if t.contains(x) {
            let k = choose|k: int| 0 <= k < t.len() && t[k] == x;
            assert(s[k] == x);
        }
        if s.last() == x {
            assert(s[s.len() - 1] == x);
        }
        if s.contains(x) && s.last() != x {
            let k = choose|k: int| 0 <= k < s.len() && s[k] == x;
            assert(t[k] == x);
        }
    }
}

/// The most frequent of the first `n` elements is one of them, none of them
/// occurs more often, and none that occurs as often comes before it.
pub proof fn lemma_mode_upto(s: Seq<nat>, n: int) -> (at: int)
    requires
        0 < n <= s.len(),
    ensures
        0 <= at < n,
        s[at] == mode_upto(s, n),
        forall|j: int| 0 <= j < n ==> count_of(s, #[trigger] s[j]) <= count_of(s, mode_upto(s, n)),
        forall|j: int| 0 <= j < at ==> count_of(s, #[trigger] s[j]) < count_of(s, mode_upto(s, n)),
    decreases n,
{
    if n <= 1 {
        0
    } else {
        let before = lemma_mode_upto(s, n - 1);
        if count_of(s, s[n - 1]) > count_of(s, mode_upto(s, n - 1)) {
            n - 1
        } else {
            before
        }
    }
}

/// The most frequent element of a sequence that is not empty is in the
/// sequence, and nothing occurs more often.
pub proof fn lemma_mode_is_most_frequent(s: Seq<nat>)
    requires
        s.len() > 0,
    ensures
        s.contains(mode_of(s)->0),
        forall|y: nat| #[trigger] count_of(s, y) <= count_of(s, mode_of(s)->0),
{
    lemma_mode_upto(s, s.len() as int);
    assert forall|y: nat| #[trigger] count_of(s, y) <= count_of(s, mode_of(s)->0) by {
        lemma_count_of_member(s, y);
        if s.contains(y) {
            let k = choose|k: int| 0 <= k < s.len() && s[k] == y;
            assert(count_of(s, s[k]) <= count_of(s, mode_upto(s, s.len() as int)));
        }
    }
}

/// The pairs as numbers of the mathematical kind.
pub open spec fn as_nats(v: Seq<(usize, usize)>) -> Seq<(nat, nat)> {
    Seq::new(v.len(), |i: int| (v[i].0 as nat, v[i].1 as nat))
}

/// The numbers as numbers of the mathematical kind.
pub open spec fn numbers(v: Seq<usize>) -> Seq<nat> {
    Seq::new(v.len(), |i: int| v[i] as nat)
}

/// The indentation of `line`, and whether it belongs to the group.
pub fn locate(line: &[char], long: bool) -> (r: Option<usize>)
    requires
        utf8_len(line@) <= usize::MAX,
    ensures
        match r {
            Some(offset) => in_group(line@, long) && offset == indent(line@),
            None => !in_group(line@, long),
        },
{
    let n = run_from(line, 0, CharClass::Space);
    proof {
        assert(line@.skip(0) =~= line@);
    }
    let dashed = n < line.len() && line[n] == '-';
    let doubled = dashed && n + 1 < line.len() && line[n + 1] == '-';
    proof {
        let t = trim_start(line@);
        if t.len() > 0 {
            assert(t[0] == line@[n as int]);
        }
        if t.len() > 1 {
            assert(t[1] == line@[n + 1]);
        }
    }
    if (long && !doubled) || (!long && (!dashed || doubled)) {
        return None;
    }
    let mut offset: usize = 0;
    let mut k: usize = 0;
    proof {
        assert(line@.take(0) =~= Seq::<char>::empty());
    }
    while k < n
        invariant
            k <= n <= line@.len(),
            utf8_len(line@) <= usize::MAX,
            offset == utf8_len(line@.take(k as int)),
        decreases n - k,
    {
        proof {
            assert(line@.take(k + 1).drop_last() =~= line@.take(k as int));
            assert(line@.take(k + 1).last() == line@[k as int]);
            assert(line@.take(k + 1) =~= line@.subrange(0, k + 1));
            lemma_utf8_len_part(line@, 0, k + 1);
        }
        offset += utf8_width_of(line[k]);
        k += 1;
    }
    Some(offset)
}

/// The most frequent of the offsets of `locations`, an offset being the second
/// part of a pair; of several that are equally frequent, the one that comes
/// first. Nothing where there are no locations.
pub fn most_frequent_offset(locations: &Vec<(usize, usize)>) -> (r: Option<usize>)
    ensures
        match r {
            Some(x) => mode_of(seconds(as_nats(locations@))) == Some(x as nat),
            None => mode_of(seconds(as_nats(locations@))) is None,
        },
{
    broadcast use vstd::std_specs::hash::group_hash_axioms;

    if locations.len() == 0 {
        return None;
    }
    let ghost s = seconds(as_nats(locations@));
    let mut counts: HashMap<usize, usize> = HashMap::new();
    let mut i: usize = 0;
    proof {
        assert(s.take(0) =~= Seq::<nat>::empty());
    }
    while i < locations.len()
        invariant
            i <= locations@.len(),
            s == seconds(as_nats(locations@)),
            forall|x: usize|
                counts@.contains_key(x) ==> #[trigger] counts@[x] == count_of(
                    s.take(i as int),
                    x as nat,
                ),
            forall|x: usize|
                !counts@.contains_key(x) ==> #[trigger] count_of(s.take(i as int), x as nat) == 0,
        decreases locations@.len() - i,
    {
        let offset = locations[i].1;
        proof {
            assert(s.take(i + 1).drop_last() =~= s.take(i as int));
            assert(s.take(i + 1).last() == offset as nat);
            lemma_count_of_member(s.take(i as int), offset as nat);
        }
        let seen: usize = match counts.get(&offset) {
            Some(c) => *c,
            None => 0,
        };
        counts.insert(offset, seen + 1);
        proof {
            assert forall|x: usize| counts@.contains_key(x) implies #[trigger] counts@[x]
                == count_of(s.take(i + 1), x as nat) by {
                if x != offset {
                    assert(count_of(s.take(i + 1), x as nat) == count_of(
                        s.take(i as int),
                        x as nat,
                    ));
                }
            }
            assert forall|x: usize| !counts@.contains_key(x) implies #[trigger] count_of(
                s.take(i + 1),
                x as nat,
            ) == 0 by {
                assert(x != offset);
                assert(count_of(s.take(i + 1), x as nat) == count_of(s.take(i as int), x as nat));
            }
        }
        i += 1;
    }
    proof {
        assert(s.take(locations@.len() as int) =~= s);
    }
    let mut best: usize = locations[0].1;
    let mut best_count: usize = 0;
    proof {
        lemma_count_of_member(s, best as nat);
        assert(s[0] == best as nat);
    }
    match counts.get(&best) {
        Some(c) => {
            best_count = *c;
        },
        None => {},
    }
    let mut j: usize = 1;
    while j < locations.len()
        invariant
            1 <= j <= locations@.len(),
            s == seconds(as_nats(locations@)),
            best as nat == mode_upto(s, j as int),
            best_count == count_of(s, best as nat),
            forall|x: usize| counts@.contains_key(x) ==> #[trigger] counts@[x] == count_of(s, x as nat),
            forall|x: usize| !counts@.contains_key(x) ==> #[trigger] count_of(s, x as nat) == 0,
        decreases locations@.len() - j,
    {
        let offset = locations[j].1;
        proof {
            assert(s[j as int] == offset as nat);
        }
        let count: usize = match counts.get(&offset) {
            Some(c) => *c,
            None => 0,
        };
        if count > best_count {
            best = offset;
            best_count = count;
        }
        j += 1;
    }
    Some(best)
}

} // verus!
