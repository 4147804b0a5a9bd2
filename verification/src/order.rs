//! Orders: texts by their characters, and sequences kept strictly increasing.

use vstd::prelude::*;
use crate::text::rows;

verus! {

/// Whether `a` comes before `b` in the dictionary order of their characters,
/// a character's place being its code point. It is the order of the UTF-8
/// encodings, byte by byte.
pub open spec fn lex_lt(a: Seq<char>, b: Seq<char>) -> bool
    decreases a.len(),
{
    if b.len() == 0 {
        false
    } else if a.len() == 0 {
        true
    } else if a[0] != b[0] {
        (a[0] as u32) < (b[0] as u32)
    } else {
        lex_lt(a.drop_first(), b.drop_first())
    }
}

/// No text comes before itself.
pub proof fn lemma_lex_irreflexive(a: Seq<char>)
    ensures
        !lex_lt(a, a),
    decreases a.len(),
{
    if a.len() > 0 {
        lemma_lex_irreflexive(a.drop_first());
    }
}

/// Of two different texts one comes before the other.
pub proof fn lemma_lex_total(a: Seq<char>, b: Seq<char>)
    ensures
        lex_lt(a, b) || lex_lt(b, a) || a == b,
    decreases a.len(),
{
    if a.len() > 0 && b.len() > 0 && a[0] == b[0] {
        lemma_lex_total(a.drop_first(), b.drop_first());
        if a.drop_first() == b.drop_first() {
            assert(a =~= seq![a[0]] + a.drop_first());
            assert(b =~= seq![b[0]] + b.drop_first());
        }
    } else if a.len() == 0 && b.len() == 0 {
        assert(a =~= b);
    } else if a.len() > 0 && b.len() > 0 {
        vstd::utf8::char_u32_cast(a[0], a[0] as u32);
        vstd::utf8::char_u32_cast(b[0], b[0] as u32);
    }
}

/// The order is transitive.
pub proof fn lemma_lex_transitive(a: Seq<char>, b: Seq<char>, c: Seq<char>)
    requires
        lex_lt(a, b),
        lex_lt(b, c),
    ensures
        lex_lt(a, c),
    decreases a.len(),
{
    if a.len() > 0 && a[0] == b[0] && b[0] == c[0] {
        lemma_lex_transitive(a.drop_first(), b.drop_first(), c.drop_first());
    }
}

/// What the first difference between `a` and `b` decides: with the first `k`
/// characters equal, `a` comes first where it ends there and `b` goes on, or
/// where both go on and `a` has the smaller character.
pub proof fn lemma_lex_by_prefix(a: Seq<char>, b: Seq<char>, k: int)
    requires
        0 <= k <= a.len(),
        k <= b.len(),
        forall|j: int| 0 <= j < k ==> a[j] == b[j],
    ensures
        k == a.len() ==> lex_lt(a, b) == (k < b.len()),
        k == a.len() && k == b.len() ==> a == b,
        k < a.len() && k == b.len() ==> !lex_lt(a, b),
        k < a.len() && k < b.len() && a[k] != b[k] ==> lex_lt(a, b) == ((a[k] as u32) < (
        b[k] as u32)),
    decreases k,
{
    if k == 0 {
        if a.len() == 0 && b.len() == 0 {
            assert(a =~= b);
        }
    } else {
        let a1 = a.drop_first();
        let b1 = b.drop_first();
        assert forall|j: int| 0 <= j < k - 1 implies a1[j] == b1[j] by {
            assert(a1[j] == a[j + 1]);
            assert(b1[j] == b[j + 1]);
        }
        lemma_lex_by_prefix(a1, b1, k - 1);
        if k == a.len() && k == b.len() {
            assert(a =~= seq![a[0]] + a1);
            assert(b =~= seq![b[0]] + b1);
        }
        if k < a.len() && k < b.len() {
            assert(a1[k - 1] == a[k]);
            assert(b1[k - 1] == b[k]);
        }
    }
}

/// The dictionary order of texts, as a relation.
pub open spec fn text_order() -> spec_fn(Seq<char>, Seq<char>) -> bool {
    |a: Seq<char>, b: Seq<char>| lex_lt(a, b)
}

/// Texts are strictly and totally ordered.
pub proof fn lemma_text_order_strict()
    ensures
        strict_total(text_order()),
{
    let lt = text_order();
    assert forall|a: Seq<char>| !#[trigger] lt(a, a) by {
        lemma_lex_irreflexive(a);
    }
    assert forall|a: Seq<char>, b: Seq<char>| #[trigger] lt(a, b) || lt(b, a) || a == b by {
        lemma_lex_total(a, b);
    }
    assert forall|a: Seq<char>, b: Seq<char>, c: Seq<char>| #[trigger] lt(a, b) && #[trigger] lt(
        b,
        c,
    ) implies lt(a, c) by {
        lemma_lex_transitive(a, b, c);
    }
}

/// How two texts stand to each other.
#[derive(Clone, Copy, Debug, PartialEq, Eq, Structural)]
pub enum Place {
    Before,
    Same,
    After,
}

/// How `a` stands to `b` in the dictionary order.
pub open spec fn lex_place(a: Seq<char>, b: Seq<char>) -> Place {
    if a == b {
        Place::Same
    } else if lex_lt(a, b) {
        Place::Before
    } else {
        Place::After
    }
}

/// How `a` stands to `b` in the dictionary order.
pub fn place_of(a: &[char], b: &[char]) -> (r: Place)
    ensures
        r == lex_place(a@, b@),
{
    let mut k: usize = 0;
    while k < a.len() && k < b.len() && a[k] == b[k]
        invariant
            k <= a@.len(),
            k <= b@.len(),
            forall|j: int| 0 <= j < k ==> a@[j] == b@[j],
        decreases a@.len() - k,
    {
        k += 1;
    }
    proof {
        lemma_lex_by_prefix(a@, b@, k as int);
        lemma_lex_irreflexive(a@);
    }
    if k == a.len() {
        if k == b.len() {
            Place::Same
        } else {
            Place::Before
        }
    } else if k == b.len() {
        Place::After
    } else if (a[k] as u32) < (b[k] as u32) {
        Place::Before
    } else {
        Place::After
    }
}

/// Whether `lt` is a strict total order.
pub open spec fn strict_total<T>(lt: spec_fn(T, T) -> bool) -> bool {
    &&& forall|a: T| !#[trigger] lt(a, a)
    &&& forall|a: T, b: T| #[trigger] lt(a, b) || lt(b, a) || a == b
    &&& forall|a: T, b: T, c: T| #[trigger] lt(a, b) && #[trigger] lt(b, c) ==> lt(a, c)
}

/// Whether each element of `s` comes before all that follow it.
pub open spec fn increasing<T>(s: Seq<T>, lt: spec_fn(T, T) -> bool) -> bool {
    forall|i: int, j: int| 0 <= i < j < s.len() ==> lt(#[trigger] s[i], #[trigger] s[j])
}

/// The increasing sequence `s` with `x` put in its place, or `s` itself where
/// it holds `x` already.
pub open spec fn insert_sorted<T>(s: Seq<T>, x: T, lt: spec_fn(T, T) -> bool) -> Seq<T>
    decreases s.len(),
{
    if s.len() == 0 {
        seq![x]
    } else if lt(s.last(), x) {
        s.push(x)
    } else if s.last() == x {
        s
    } else {
        insert_sorted(s.drop_last(), x, lt).push(s.last())
    }
}

/// The elements of `s`, each once, in increasing order.
pub open spec fn sorted_set<T>(s: Seq<T>, lt: spec_fn(T, T) -> bool) -> Seq<T>
    decreases s.len(),
{
    if s.len() == 0 {
        seq![]
    } else {
        insert_sorted(sorted_set(s.drop_last(), lt), s.last(), lt)
    }
}

/// Inserting keeps the sequence increasing, adds `x` and nothing else, and
/// puts `x` behind the `p` elements that come before it.
pub proof fn lemma_insert_sorted<T>(s: Seq<T>, x: T, lt: spec_fn(T, T) -> bool, p: int)
    requires
        strict_total(lt),
        increasing(s, lt),
        0 <= p <= s.len(),
        forall|i: int| 0 <= i < p ==> lt(#[trigger] s[i], x),
        p < s.len() ==> !lt(s[p], x),
    ensures
        increasing(insert_sorted(s, x, lt), lt),
        forall|y: T|
            #![trigger insert_sorted(s, x, lt).contains(y)]
            #![trigger s.contains(y)]
            insert_sorted(s, x, lt).contains(y) <==> (s.contains(y) || y == x),
        insert_sorted(s, x, lt).contains(x),
        p < s.len() && s[p] == x ==> insert_sorted(s, x, lt) == s,
        !(p < s.len() && s[p] == x) ==> insert_sorted(s, x, lt) == s.insert(p, x),
    decreases s.len(),
{
    let r = insert_sorted(s, x, lt);
    if s.len() == 0 {
        assert(r =~= s.insert(p, x));
        assert forall|y: T| r.contains(y) <==> (s.contains(y) || y == x) by {
            if y == x {
                assert(r[0] == y);
            }
        }
    } else if lt(s.last(), x) {
        // every element comes before x, so p is the length
        if p < s.len() {
            assert(lt(s[p], s.last()) || p == s.len() - 1);
        }
        assert(p == s.len());
        assert(r =~= s.insert(p, x));
        assert forall|i: int, j: int| 0 <= i < j < r.len() implies lt(
            #[trigger] r[i],
            #[trigger] r[j],
        ) by {
            if j == s.len() {
                assert(r[i] == s[i]);
            }
        }
        assert forall|y: T| r.contains(y) <==> (s.contains(y) || y == x) by {
            if s.contains(y) {
                let i = choose|i: int| 0 <= i < s.len() && s[i] == y;
                assert(r[i] == y);
            }
            if y == x {
                assert(r[s.len() as int] == y);
            }
        }
    } else if s.last() == x {
        assert(p == s.len() - 1) by {
            if p < s.len() - 1 {
                assert(lt(s[p], s.last()));
            }
        }
    } else {
        // x comes before the last element
        let t = s.drop_last();
        assert(lt(x, s.last()));
        assert(p <= t.len()) by {
            if p == s.len() {
                assert(lt(s[s.len() - 1], x));
            }
        }
        assert(increasing(t, lt)) by {
            assert forall|i: int, j: int| 0 <= i < j < t.len() implies lt(
                #[trigger] t[i],
                #[trigger] t[j],
            ) by {
                assert(t[i] == s[i] && t[j] == s[j]);
            }
        }
        assert forall|i: int| 0 <= i < p implies lt(#[trigger] t[i], x) by {
            assert(t[i] == s[i]);
        }
        if p < t.len() {
            assert(t[p] == s[p]);
        }
        lemma_insert_sorted(t, x, lt, p);
        let u = insert_sorted(t, x, lt);
        assert(r == u.push(s.last()));
        assert forall|i: int, j: int| 0 <= i < j < r.len() implies lt(
            #[trigger] r[i],
            #[trigger] r[j],
        ) by {
            if j == u.len() {
                assert(u.contains(u[i]));
                if t.contains(u[i]) {
                    let k = choose|k: int| 0 <= k < t.len() && t[k] == u[i];
                    assert(lt(s[k], s[s.len() - 1]));
                }
            } else {
                assert(r[i] == u[i] && r[j] == u[j]);
            }
        }
        assert forall|y: T| r.contains(y) <==> (s.contains(y) || y == x) by {
            if r.contains(y) {
                let i = choose|i: int| 0 <= i < r.len() && r[i] == y;
                if i < u.len() {
                    assert(u[i] == y);
                    assert(u.contains(y));
                    if t.contains(y) {
                        let k = choose|k: int| 0 <= k < t.len() && t[k] == y;
                        assert(s[k] == y);
                    }
                } else {
                    assert(s[s.len() - 1] == y);
                }
            }
            if s.contains(y) {
                let k = choose|k: int| 0 <= k < s.len() && s[k] == y;
                if k < t.len() {
                    assert(t[k] == y);
                    assert(t.contains(y));
                    assert(u.contains(y));
                    let i = choose|i: int| 0 <= i < u.len() && u[i] == y;
                    assert(r[i] == y);
                } else {
                    assert(r[r.len() - 1] == y);
                }
            }
            if y == x {
                assert(u.contains(x));
                let i = choose|i: int| 0 <= i < u.len() && u[i] == x;
                assert(r[i] == y);
            }
        }
        if p < s.len() && s[p] == x {
            assert(p < t.len());
            assert(u == t);
            assert(r =~= s);
        } else {
            assert(u == t.insert(p, x));
            assert(r =~= s.insert(p, x));
        }
    }
}

/// A sorted set is increasing and holds exactly the elements of the sequence
/// that it was made from. There is one such sequence only.
pub proof fn lemma_sorted_set<T>(s: Seq<T>, lt: spec_fn(T, T) -> bool)
    requires
        strict_total(lt),
    ensures
        increasing(sorted_set(s, lt), lt),
        forall|y: T|
            #![trigger sorted_set(s, lt).contains(y)]
            #![trigger s.contains(y)]
            sorted_set(s, lt).contains(y) <==> s.contains(y),
    decreases s.len(),
{
    if s.len() > 0 {
        let t = s.drop_last();
        let u = sorted_set(t, lt);
        lemma_sorted_set(t, lt);
        let p = lemma_place_exists(u, s.last(), lt);
        lemma_insert_sorted(u, s.last(), lt, p);
        let r = sorted_set(s, lt);
        assert forall|y: T| r.contains(y) <==> s.contains(y) by {
            if s.contains(y) {
                let k = choose|k: int| 0 <= k < s.len() && s[k] == y;
                if k < t.len() {
                    assert(t[k] == y);
                    assert(t.contains(y));
                }
            }
            if t.contains(y) {
                let k = choose|k: int| 0 <= k < t.len() && t[k] == y;
                assert(s[k] == y);
            }
            if y == s.last() {
                assert(s[s.len() - 1] == y);
            }
        }
    } else {
        assert forall|y: T| !sorted_set(s, lt).contains(y) by {}
    }
}

/// In an increasing sequence the elements that come before `x` are a prefix.
pub proof fn lemma_place_exists<T>(s: Seq<T>, x: T, lt: spec_fn(T, T) -> bool) -> (p: int)
    requires
        strict_total(lt),
        increasing(s, lt),
    ensures
        0 <= p <= s.len(),
        forall|i: int| 0 <= i < p ==> lt(#[trigger] s[i], x),
        p < s.len() ==> !lt(s[p], x),
    decreases s.len(),
{
    if s.len() == 0 {
        0
    } else if lt(s.last(), x) {
        assert forall|i: int| 0 <= i < s.len() implies lt(#[trigger] s[i], x) by {
            if i < s.len() - 1 {
                assert(lt(s[i], s[s.len() - 1]));
            }
        }
        s.len() as int
    } else {
        let t = s.drop_last();
        assert(increasing(t, lt)) by {
            assert forall|i: int, j: int| 0 <= i < j < t.len() implies lt(
                #[trigger] t[i],
                #[trigger] t[j],
            ) by {
                assert(t[i] == s[i] && t[j] == s[j]);
            }
        }
        let p = lemma_place_exists(t, x, lt);
        assert forall|i: int| 0 <= i < p implies lt(#[trigger] s[i], x) by {
            assert(t[i] == s[i]);
        }
        if p < t.len() {
            assert(t[p] == s[p]);
        }
        p
    }
}

/// Puts the text in its place in the increasing list, unless it is there.
pub fn insert_text(list: &mut Vec<Vec<char>>, text: Vec<char>)
    requires
        increasing(rows(old(list)@), text_order()),
    ensures
        increasing(rows(final(list)@), text_order()),
        rows(final(list)@) == insert_sorted(rows(old(list)@), text@, text_order()),
{
    let ghost x = text@;
    let ghost before = rows(list@);
    let mut p: usize = 0;
    let mut found = false;
    while p < list.len()
        invariant_except_break
            !found,
        invariant
            p <= list@.len(),
            list@ == old(list)@,
            before == rows(list@),
            x == text@,
            forall|i: int| 0 <= i < p ==> lex_lt(#[trigger] before[i], x),
        ensures
            p < list@.len() ==> !lex_lt(before[p as int], x),
            found <==> p < list@.len() && before[p as int] == x,
        decreases list@.len() - p,
    {
        let place = place_of(list[p].as_slice(), text.as_slice());
        proof {
            assert(before[p as int] == list@[p as int]@);
            lemma_lex_irreflexive(x);
        }
        match place {
            Place::Before => {
                p += 1;
            },
            Place::Same => {
                found = true;
                break ;
            },
            Place::After => {
                break ;
            },
        }
    }
    proof {
        lemma_text_order_strict();
        lemma_insert_sorted(before, x, text_order(), p as int);
    }
    if !found {
        list.insert(p, text);
        proof {
            assert(rows(list@) =~= before.insert(p as int, x));
        }
    }
}

/// The texts, each once, in the dictionary order.
pub fn sorted_texts(texts: Vec<Vec<char>>) -> (r: Vec<Vec<char>>)
    ensures
        rows(r@) == sorted_set(rows(texts@), text_order()),
        increasing(rows(r@), text_order()),
{
    let mut out: Vec<Vec<char>> = Vec::new();
    let ghost given = texts@;
    let ghost all = rows(texts@);
    proof {
        assert(all.take(0) =~= Seq::<Seq<char>>::empty());
        assert(rows(out@) =~= Seq::<Seq<char>>::empty());
    }
    for text in it: texts
        invariant
            it.seq() == given,
            all == rows(given),
            rows(out@) == sorted_set(all.take(it.index() as int), text_order()),
            increasing(rows(out@), text_order()),
    {
        proof {
            let i = it.index() as int;
            let next = all.take(i + 1);
            assert(next.drop_last() =~= all.take(i));
            assert(next.last() == text@);
        }
        insert_text(&mut out, text);
    }
    proof {
        assert(all.take(given.len() as int) =~= all);
    }
    out
}

} // verus!
