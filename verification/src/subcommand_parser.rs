//! Candidates for subcommands: a name with its description on the next line,
//! or a name with its description behind it on the same line.

use vstd::prelude::*;
use crate::chars::CharClass;
use crate::foreign::alphanumeric;
use crate::order::{
    increasing, insert_sorted, lemma_insert_sorted, lemma_lex_irreflexive, sorted_set, Place,
};
use crate::parser::blank;
use crate::text::{
    chars_of, copy_range, first_line, join, join_range, lines, lines_of, rows, run_from, string_of,
    trim, trim_bounds, words, words_of,
};
use crate::types::{
    lemma_subcommand_order_strict, subcommand_lt, subcommand_models, subcommand_order,
    subcommand_place, Subcommand, SubcommandModel,
};

verus! {

/// Finds candidates for subcommands.
pub struct SubcommandParser;

/// Whether `c` may stand in the name of a subcommand: a letter or a number,
/// a dash or an underscore.
pub open spec fn is_name_char(c: char) -> bool {
    alphanumeric(c) || c == '-' || c == '_'
}

/// Whether `name` can be the name of a subcommand: it is not empty, does not
/// start with a dash, and is made of name characters only.
pub open spec fn is_valid_name(name: Seq<char>) -> bool {
    &&& name.len() > 0
    &&& name[0] != '-'
    &&& forall|i: int| 0 <= i < name.len() ==> is_name_char(#[trigger] name[i])
}

/// Whether `name` can be the name of a subcommand where `letters` says of
/// each of its characters whether it is a letter or a number; a character
/// of which `letters` says nothing counts as none.
pub open spec fn is_valid_name_by(name: Seq<char>, letters: Seq<bool>) -> bool {
    &&& name.len() > 0
    &&& name[0] != '-'
    &&& forall|i: int|
        0 <= i < name.len() ==> is_letter_at(letters, i) || #[trigger] name[i] == '-' || name[i]
            == '_'
}

/// Whether `letters` says of the character at place `i` that it is a letter
/// or a number.
pub open spec fn is_letter_at(letters: Seq<bool>, i: int) -> bool {
    0 <= i < letters.len() && letters[i]
}

/// The candidate that two neighbouring lines give. The first line, trimmed,
/// must not be empty nor start with a dash, and its first word must be a
/// valid name; the second line, trimmed, must not be empty nor start with a
/// dash. The name is that first word, the description the second line,
/// trimmed, up to its first line feed.
pub open spec fn from_line_pair(first: Seq<char>, second: Seq<char>) -> Option<SubcommandModel> {
    let head = trim(first);
    let desc = trim(second);
    if head.len() == 0 || head[0] == '-' {
        None
    } else if words(head).len() == 0 || !is_valid_name(words(head)[0]) {
        None
    } else if desc.len() == 0 || desc[0] == '-' {
        None
    } else {
        Some(SubcommandModel { cmd: words(head)[0], desc: first_line(desc) })
    }
}

/// The candidate that one line gives. The line, trimmed, must not be empty
/// nor start with a dash, must have three words or more, and its first word
/// must be a valid name. The name is that first word, the description the
/// other words with one space between them.
pub open spec fn from_single_line(line: Seq<char>) -> Option<SubcommandModel> {
    let ws = words(trim(line));
    if trim(line).len() == 0 || trim(line)[0] == '-' {
        None
    } else if ws.len() < 3 || !is_valid_name(ws[0]) {
        None
    } else if join(ws.subrange(1, ws.len() as int), blank()).len() == 0 {
        None
    } else {
        Some(SubcommandModel { cmd: ws[0], desc: join(ws.subrange(1, ws.len() as int), blank()) })
    }
}

/// The candidates that the first `n` pairs of neighbouring lines give.
pub open spec fn pair_candidates(ls: Seq<Seq<char>>, n: int) -> Seq<SubcommandModel>
    decreases n,
{
    if n <= 0 {
        seq![]
    } else {
        match from_line_pair(ls[n - 1], ls[n]) {
            Some(c) => pair_candidates(ls, n - 1).push(c),
            None => pair_candidates(ls, n - 1),
        }
    }
}

/// The candidates that the first `n` lines give, each line by itself.
pub open spec fn single_candidates(ls: Seq<Seq<char>>, n: int) -> Seq<SubcommandModel>
    decreases n,
{
    if n <= 0 {
        seq![]
    } else {
        match from_single_line(ls[n - 1]) {
            Some(c) => single_candidates(ls, n - 1).push(c),
            None => single_candidates(ls, n - 1),
        }
    }
}

/// All candidates of the lines: those of the pairs, then those of the single
/// lines.
pub open spec fn candidates(ls: Seq<Seq<char>>) -> Seq<SubcommandModel> {
    pair_candidates(ls, ls.len() - 1) + single_candidates(ls, ls.len() as int)
}

/// The subcommands of the text `s`: its candidates, each once, ordered by
/// name and then by description.
pub open spec fn subcommands_of(s: Seq<char>) -> Seq<SubcommandModel> {
    sorted_set(candidates(lines(s)), subcommand_order())
}

/// Candidates under construction: the characters of name and description.
pub open spec fn candidate_models(v: Seq<(Vec<char>, Vec<char>)>) -> Seq<SubcommandModel> {
    v.map_values(|c: (Vec<char>, Vec<char>)| SubcommandModel { cmd: c.0@, desc: c.1@ })
}

/// Whether `name` can be the name of a subcommand.
fn valid_name_chars(name: &[char]) -> (r: bool)
    ensures
        r == is_valid_name(name@),
{
    let mut letters: Vec<bool> = Vec::new();
    let mut i: usize = 0;
    while i < name.len()
        invariant
            i <= name@.len(),
            letters@.len() == i,
            forall|j: int| 0 <= j < i ==> letters@[j] == alphanumeric(#[trigger] name@[j]),
        decreases name@.len() - i,
    {
        letters.push(name[i].is_alphanumeric());
        i += 1;
    }
    SubcommandParser::valid_name_by(name, letters.as_slice())
}

/// The candidate that two neighbouring lines give.
fn pair_chars(first: &[char], second: &[char]) -> (r: Option<(Vec<char>, Vec<char>)>)
    ensures
        match r {
            Some(c) => from_line_pair(first@, second@) == Some(
                SubcommandModel { cmd: c.0@, desc: c.1@ },
            ),
            None => from_line_pair(first@, second@) is None,
        },
{
    let (a, b) = trim_bounds(first);
    if a == b || first[a] == '-' {
        proof {
            if a < b {
                assert(trim(first@)[0] == first@[a as int]);
            }
        }
        return None;
    }
    proof {
        assert(trim(first@)[0] == first@[a as int]);
    }
    let head = copy_range(first, a, b);
    let mut ws = words_of(head.as_slice());
    if ws.len() == 0 || !valid_name_chars(ws[0].as_slice()) {
        return None;
    }
    let (da, db) = trim_bounds(second);
    if da == db || second[da] == '-' {
        proof {
            if da < db {
                assert(trim(second@)[0] == second@[da as int]);
            }
        }
        return None;
    }
    proof {
        assert(trim(second@)[0] == second@[da as int]);
    }
    let desc = copy_range(second, da, db);
    let n = run_from(desc.as_slice(), 0, CharClass::Until('\n'));
    proof {
        assert(desc@.skip(0) =~= desc@);
    }
    let text = copy_range(desc.as_slice(), 0, n);
    let name = copy_range(ws[0].as_slice(), 0, ws[0].len());
    proof {
        assert(name@ =~= ws@[0]@);
        assert(text@ =~= first_line(desc@));
    }
    Some((name, text))
}

/// The candidate that one line gives.
fn single_chars(line: &[char]) -> (r: Option<(Vec<char>, Vec<char>)>)
    ensures
        match r {
            Some(c) => from_single_line(line@) == Some(SubcommandModel { cmd: c.0@, desc: c.1@ }),
            None => from_single_line(line@) is None,
        },
{
    let (a, b) = trim_bounds(line);
    if a == b || line[a] == '-' {
        proof {
            if a < b {
                assert(trim(line@)[0] == line@[a as int]);
            }
        }
        return None;
    }
    proof {
        assert(trim(line@)[0] == line@[a as int]);
    }
    let head = copy_range(line, a, b);
    let ws = words_of(head.as_slice());
    if ws.len() < 3 || !valid_name_chars(ws[0].as_slice()) {
        return None;
    }
    let sp: Vec<char> = vec![' '];
    proof {
        assert(sp@ =~= blank());
    }
    let desc = join_range(&ws, 1, ws.len(), sp.as_slice());
    if desc.len() == 0 {
        return None;
    }
    let name = copy_range(ws[0].as_slice(), 0, ws[0].len());
    proof {
        assert(name@ =~= ws@[0]@);
    }
    Some((name, desc))
}

/// Puts the candidate in its place in the increasing list, unless it is
/// there.
fn insert_candidate(list: &mut Vec<(Vec<char>, Vec<char>)>, cmd: Vec<char>, desc: Vec<char>)
    requires
        increasing(candidate_models(old(list)@), subcommand_order()),
    ensures
        increasing(candidate_models(final(list)@), subcommand_order()),
        candidate_models(final(list)@) == insert_sorted(
            candidate_models(old(list)@),
            SubcommandModel { cmd: cmd@, desc: desc@ },
            subcommand_order(),
        ),
{
    let ghost x = SubcommandModel { cmd: cmd@, desc: desc@ };
    let ghost before = candidate_models(list@);
    let mut p: usize = 0;
    let mut found = false;
    while p < list.len()
        invariant_except_break
            !found,
        invariant
            p <= list@.len(),
            list@ == old(list)@,
            before == candidate_models(list@),
            x == (SubcommandModel { cmd: cmd@, desc: desc@ }),
            forall|i: int| 0 <= i < p ==> subcommand_lt(#[trigger] before[i], x),
        ensures
            p < list@.len() ==> !subcommand_lt(before[p as int], x),
            found <==> p < list@.len() && before[p as int] == x,
        decreases list@.len() - p,
    {
        let place = subcommand_place(
            list[p].0.as_slice(),
            list[p].1.as_slice(),
            cmd.as_slice(),
            desc.as_slice(),
        );
        proof {
            assert(before[p as int] == SubcommandModel {
                cmd: list@[p as int].0@,
                desc: list@[p as int].1@,
            });
        }
        match place {
            Place::Before => {
                p += 1;
            },
            Place::Same => {
                found = true;
                proof {
                    lemma_lex_irreflexive(x.cmd);
                    lemma_lex_irreflexive(x.desc);
                }
                break ;
            },
            Place::After => {
                break ;
            },
        }
    }
    proof {
        lemma_subcommand_order_strict();
        lemma_insert_sorted(before, x, subcommand_order(), p as int);
    }
    if !found {
        list.insert(p, (cmd, desc));
        proof {
            assert(candidate_models(list@) =~= before.insert(p as int, x));
        }
    }
}

impl SubcommandParser {
    /// Whether `name` can be the name of a subcommand, `letters` saying of
    /// each of its characters whether it is a letter or a number: see
    /// `is_valid_name_by`.
    pub fn valid_name_by(name: &[char], letters: &[bool]) -> (r: bool)
        ensures
            r == is_valid_name_by(name@, letters@),
    {
        if name.len() == 0 || name[0] == '-' {
            return false;
        }
        let mut i: usize = 0;
        while i < name.len()
            invariant
                i <= name@.len(),
                forall|j: int|
                    0 <= j < i ==> is_letter_at(letters@, j) || #[trigger] name@[j] == '-'
                        || name@[j] == '_',
            decreases name@.len() - i,
        {
            let letter = i < letters.len() && letters[i];
            if !(letter || name[i] == '-' || name[i] == '_') {
                return false;
            }
            i += 1;
        }
        true
    }

    /// Whether `name` can be the name of a subcommand: see `is_valid_name`.
    pub fn is_valid_subcommand_name(name: &str) -> (r: bool)
        ensures
            r == is_valid_name(name@),
    {
        let chars = chars_of(name);
        valid_name_chars(chars.as_slice())
    }

    /// The candidate that two neighbouring lines give: see `from_line_pair`.
    pub fn parse_line_pair(first: &str, second: &str) -> (r: Option<Subcommand>)
        ensures
            match r {
                Some(c) => from_line_pair(first@, second@) == Some(c@),
                None => from_line_pair(first@, second@) is None,
            },
    {
        let a = chars_of(first);
        let b = chars_of(second);
        match pair_chars(a.as_slice(), b.as_slice()) {
            Some(c) => Some(
                Subcommand { cmd: string_of(c.0.as_slice()), desc: string_of(c.1.as_slice()) },
            ),
            None => None,
        }
    }

    /// The candidate that one line gives: see `from_single_line`.
    pub fn parse_single_line(line: &str) -> (r: Option<Subcommand>)
        ensures
            match r {
                Some(c) => from_single_line(line@) == Some(c@),
                None => from_single_line(line@) is None,
            },
    {
        let a = chars_of(line);
        match single_chars(a.as_slice()) {
            Some(c) => Some(
                Subcommand { cmd: string_of(c.0.as_slice()), desc: string_of(c.1.as_slice()) },
            ),
            None => None,
        }
    }

    /// The subcommands of `content`: the candidates of each two neighbouring
    /// lines and of each single line, each once, ordered by name and then by
    /// description. A text without candidates has none.
    pub fn parse(content: &str) -> (r: Vec<Subcommand>)
        ensures
            subcommand_models(r@) == subcommands_of(content@),
            increasing(subcommand_models(r@), subcommand_order()),
            candidates(lines(content@)).len() == 0 ==> r@.len() == 0,
    {
        let chars = chars_of(content);
        let ls = lines_of(chars.as_slice());
        let mut list: Vec<(Vec<char>, Vec<char>)> = Vec::new();
        let ghost all = rows(ls@);
        let mut i: usize = 0;
        proof {
            assert(candidate_models(list@) =~= Seq::<SubcommandModel>::empty());
            lemma_subcommand_order_strict();
        }
        let windows: usize = if ls.len() == 0 {
            0
        } else {
            ls.len() - 1
        };
        while i < windows
            invariant
                i <= windows,
                windows == if ls@.len() == 0 {
                    0
                } else {
                    ls@.len() - 1
                },
                all == rows(ls@),
                increasing(candidate_models(list@), subcommand_order()),
                candidate_models(list@) == sorted_set(
                    pair_candidates(all, i as int),
                    subcommand_order(),
                ),
            decreases windows - i,
        {
            let ghost done = pair_candidates(all, i as int);
            match pair_chars(ls[i].as_slice(), ls[i + 1].as_slice()) {
                Some(c) => {
                    proof {
                        let x = SubcommandModel { cmd: c.0@, desc: c.1@ };
                        assert(done.push(x).drop_last() =~= done);
                    }
                    insert_candidate(&mut list, c.0, c.1);
                },
                None => {},
            }
            i += 1;
        }
        let ghost pairs = pair_candidates(all, ls@.len() - 1);
        proof {
            if ls@.len() == 0 {
                assert(pair_candidates(all, -1) =~= pair_candidates(all, 0));
            }
            assert(pairs + single_candidates(all, 0) =~= pairs);
        }
        let mut j: usize = 0;
        while j < ls.len()
            invariant
                j <= ls@.len(),
                all == rows(ls@),
                pairs == pair_candidates(all, ls@.len() - 1),
                increasing(candidate_models(list@), subcommand_order()),
                candidate_models(list@) == sorted_set(
                    pairs + single_candidates(all, j as int),
                    subcommand_order(),
                ),
            decreases ls@.len() - j,
        {
            let ghost done = single_candidates(all, j as int);
            match single_chars(ls[j].as_slice()) {
                Some(c) => {
                    proof {
                        let x = SubcommandModel { cmd: c.0@, desc: c.1@ };
                        assert(pairs + done.push(x) =~= (pairs + done).push(x));
                        assert((pairs + done).push(x).drop_last() =~= pairs + done);
                    }
                    insert_candidate(&mut list, c.0, c.1);
                },
                None => {},
            }
            j += 1;
        }
        let mut out: Vec<Subcommand> = Vec::new();
        let ghost models = candidate_models(list@);
        let mut k: usize = 0;
        while k < list.len()
            invariant
                k <= list@.len(),
                models == candidate_models(list@),
                subcommand_models(out@) == models.take(k as int),
            decreases list@.len() - k,
        {
            let c = Subcommand {
                cmd: string_of(list[k].0.as_slice()),
                desc: string_of(list[k].1.as_slice()),
            };
            let ghost prev = out@;
            out.push(c);
            proof {
                assert(subcommand_models(out@) =~= subcommand_models(prev).push(c@));
                assert(models.take(k + 1) =~= models.take(k as int).push(models[k as int]));
            }
            k += 1;
        }
        proof {
            assert(models.take(list@.len() as int) =~= models);
        }
        out
    }
}

} // verus!
