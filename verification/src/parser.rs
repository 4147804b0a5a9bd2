//! From a block of lines to options: which lines open an option, where its
//! description stands, and what its names and its argument are.

use vstd::prelude::*;
use crate::chars::CharClass;
use crate::foreign::{lowercase, regex_compiles, regex_escaped, regex_matches};
use crate::order::{
    increasing, insert_sorted, lemma_insert_sorted, lemma_lex_irreflexive, lemma_sorted_set,
    sorted_set, Place,
};
use crate::text::{
    chars_of, copy_range, groups, groups_of, has_char, join, join_range, lemma_lines_of_nonempty,
    lemma_words_of_unspaced_start, lines, lines_of, rows, run_from, starts_with_char, string_of,
    texts, trim, trim_bounds, trim_start, words, words_of,
};
use crate::types::{
    classify_chars, lemma_name_order_strict, name_from_text, name_lt, name_models, name_order,
    name_place, opt_models, Opt, OptModel, OptName, OptNameModel, OptNameType,
};
use crate::unique::{distinct, lemma_distinct_same_elements};

verus! {

/// Turns blocks of lines into options.
pub struct Parser;

/// One space: what stands between the words of a rejoined text.
pub open spec fn blank() -> Seq<char> {
    seq![' ']
}

/// Whether the token at place `idx` of a line still belongs to the text of
/// the option: it starts with a dash, or is the first token, or looks like
/// an argument written with the option (it holds `=`, or does not start with a
/// dash).
pub open spec fn extends_option(token: Seq<char>, idx: int) -> bool {
    starts_with_char(token, '-') || idx == 0 || token.contains('=') || !starts_with_char(
        token,
        '-',
    )
}

/// The number of tokens at the start of a line that make up the text of the
/// option: all up to the first that does not extend it.
pub open spec fn option_end(tokens: Seq<Seq<char>>) -> nat
    decreases tokens.len(),
{
    if tokens.len() == 0 {
        0
    } else {
        let before = option_end(tokens.drop_last());
        if before == tokens.len() - 1 && extends_option(tokens.last(), tokens.len() - 1) {
            before + 1
        } else {
            before
        }
    }
}

/// The description that the line after line `i` gives: its trimmed text where
/// there is such a line and it does not itself open an option, else nothing.
pub open spec fn next_description(ls: Seq<Seq<char>>, i: int) -> Seq<char> {
    if i + 1 < ls.len() && !starts_with_char(trim_start(ls[i + 1]), '-') {
        trim(ls[i + 1])
    } else {
        seq![]
    }
}

/// The pairs of option text and description that the lines from `i` on give.
/// A line opens an option where its first character that is not white space
/// is a dash; other lines are passed over. The rule reads: where tokens are
/// left behind the text of the option, they are the description and the
/// line gives one pair; where none are left, the whole line without its
/// leading white space is the text of the option, and the next line gives
/// the description and is used up, unless it is empty or opens an option
/// itself. As every token extends the text of the option
/// (`lemma_option_end_is_all`), no tokens are ever left: a line that opens
/// an option always gives the pair of the whole line, without its leading
/// white space, and the description on the next line
/// (`lemma_pairs_from_option_line`).
pub open spec fn pairs_from(ls: Seq<Seq<char>>, i: int) -> Seq<(Seq<char>, Seq<char>)>
    decreases ls.len() - i,
{
    if i < 0 || i >= ls.len() {
        seq![]
    } else {
        let line = trim_start(ls[i]);
        if !starts_with_char(line, '-') {
            pairs_from(ls, i + 1)
        } else {
            let tokens = words(line);
            let end = option_end(tokens) as int;
            if 0 < end < tokens.len() {
                seq![
                    (
                        join(tokens.subrange(0, end), blank()),
                        join(tokens.subrange(end, tokens.len() as int), blank()),
                    ),
                ] + pairs_from(ls, i + 1)
            } else if end > 0 {
                let desc = next_description(ls, i);
                if desc.len() > 0 {
                    seq![(line, desc)] + pairs_from(ls, i + 2)
                } else {
                    seq![(line, desc)] + pairs_from(ls, i + 1)
                }
            } else {
                pairs_from(ls, i + 1)
            }
        }
    }
}

/// The pairs of option text and description of the block `s`.
pub open spec fn preprocessed(s: Seq<char>) -> Seq<(Seq<char>, Seq<char>)> {
    pairs_from(lines(s), 0)
}

/// Every token extends the text of the option, so that text takes the whole
/// line: a description is never split off on the option's own line.
pub proof fn lemma_option_end_is_all(tokens: Seq<Seq<char>>)
    ensures
        option_end(tokens) == tokens.len(),
    decreases tokens.len(),
{
    if tokens.len() > 0 {
        lemma_option_end_is_all(tokens.drop_last());
    }
}

/// A line that opens an option gives the pair of itself, without its leading
/// white space, and of the description on the next line.
pub proof fn lemma_pairs_from_option_line(ls: Seq<Seq<char>>, i: int)
    requires
        0 <= i < ls.len(),
        starts_with_char(trim_start(ls[i]), '-'),
    ensures
        pairs_from(ls, i).len() > 0,
        pairs_from(ls, i)[0] == (trim_start(ls[i]), next_description(ls, i)),
        pairs_from(ls, i) == seq![(trim_start(ls[i]), next_description(ls, i))] + pairs_from(
            ls,
            if next_description(ls, i).len() > 0 {
                i + 2
            } else {
                i + 1
            },
        ),
{
    let line = trim_start(ls[i]);
    lemma_option_end_is_all(words(line));
    lemma_words_of_unspaced_start(line);
}

/// The views of pairs of rows.
pub open spec fn pair_rows(v: Seq<(Vec<char>, Vec<char>)>) -> Seq<(Seq<char>, Seq<char>)> {
    v.map_values(|p: (Vec<char>, Vec<char>)| (p.0@, p.1@))
}

/// The views of pairs of strings.
pub open spec fn pair_texts(v: Seq<(String, String)>) -> Seq<(Seq<char>, Seq<char>)> {
    v.map_values(|p: (String, String)| (p.0@, p.1@))
}

/// Converts each pair of rows to a pair of strings.
pub fn pair_strings(pairs: &Vec<(Vec<char>, Vec<char>)>) -> (r: Vec<(String, String)>)
    ensures
        pair_texts(r@) == pair_rows(pairs@),
{
    let mut out: Vec<(String, String)> = Vec::new();
    let ghost all = pair_rows(pairs@);
    let mut i: usize = 0;
    while i < pairs.len()
        invariant
            i <= pairs@.len(),
            all == pair_rows(pairs@),
            pair_texts(out@) == all.take(i as int),
        decreases pairs@.len() - i,
    {
        let a = string_of(pairs[i].0.as_slice());
        let b = string_of(pairs[i].1.as_slice());
        let ghost prev = out@;
        let ghost pair = (a@, b@);
        out.push((a, b));
        proof {
            assert(pair_texts(out@) =~= pair_texts(prev).push(pair));
            assert(all.take(i + 1) =~= all.take(i as int).push(all[i as int]));
        }
        i += 1;
    }
    proof {
        assert(all.take(pairs@.len() as int) =~= all);
    }
    out
}

/// The number of tokens that make up the text of the option.
pub fn option_end_of(tokens: &Vec<Vec<char>>) -> (end: usize)
    ensures
        end == option_end(rows(tokens@)),
{
    let mut end: usize = 0;
    let mut idx: usize = 0;
    proof {
        assert(rows(tokens@).take(0) =~= Seq::<Seq<char>>::empty());
        assert(rows(tokens@).take(tokens@.len() as int) =~= rows(tokens@));
    }
    while idx < tokens.len()
        invariant_except_break
            idx <= tokens@.len(),
            end == idx,
            end == option_end(rows(tokens@).take(idx as int)),
        invariant
            rows(tokens@).take(tokens@.len() as int) == rows(tokens@),
        ensures
            end == option_end(rows(tokens@)),
        decreases tokens@.len() - idx,
    {
        let part = tokens[idx].as_slice();
        let dashed = part.len() > 0 && part[0] == '-';
        proof {
            let next = rows(tokens@).take(idx + 1);
            assert(next.drop_last() =~= rows(tokens@).take(idx as int));
            assert(next.last() == part@);
        }
        if dashed || idx == 0 {
            end = idx + 1;
        } else if has_char(part, '=') || !dashed {
            end = idx + 1;
        } else {
            break ;
        }
        idx += 1;
    }
    end
}


/// The option names among the words `ws`, in their order.
pub open spec fn names_in_words(ws: Seq<Seq<char>>) -> Seq<OptNameModel>
    decreases ws.len(),
{
    if ws.len() == 0 {
        seq![]
    } else {
        match name_from_text(ws.last()) {
            Some(n) => names_in_words(ws.drop_last()).push(n),
            None => names_in_words(ws.drop_last()),
        }
    }
}

/// The option names among the words of the groups `gs`, in their order.
pub open spec fn names_in_groups(gs: Seq<Seq<char>>) -> Seq<OptNameModel>
    decreases gs.len(),
{
    if gs.len() == 0 {
        seq![]
    } else {
        names_in_groups(gs.drop_last()) + names_in_words(words(gs.last()))
    }
}

/// The names of the option whose text is `s`: every word of every group
/// that starts with a dash, each once, in the order of names.
pub open spec fn names_of(s: Seq<char>) -> Seq<OptNameModel> {
    sorted_set(names_in_groups(groups(s)), name_order())
}

/// The argument that the group `g` shows: its words after the first, with
/// one space between them, unless there are none or they are one dot.
pub open spec fn group_argument(g: Seq<char>) -> Option<Seq<char>> {
    let ws = words(g);
    if ws.len() < 2 {
        None
    } else {
        let arg = join(ws.subrange(1, ws.len() as int), blank());
        if arg.len() == 0 || arg =~= seq!['.'] {
            None
        } else {
            Some(arg)
        }
    }
}

/// The argument of the first of the groups `gs` that shows one; empty where
/// none does.
pub open spec fn first_argument(gs: Seq<Seq<char>>) -> Seq<char>
    decreases gs.len(),
{
    if gs.len() == 0 {
        seq![]
    } else {
        match group_argument(gs[0]) {
            Some(arg) => arg,
            None => first_argument(gs.drop_first()),
        }
    }
}

/// The argument of the option whose text is `s`.
pub open spec fn argument_of(s: Seq<char>) -> Seq<char> {
    first_argument(groups(s))
}

/// The options that the pair of option text and description gives: one,
/// where the text holds a name, else none.
pub open spec fn options_of(opt: Seq<char>, desc: Seq<char>) -> Seq<OptModel> {
    let names = names_of(opt);
    if names.len() == 0 {
        seq![]
    } else {
        seq![OptModel { names, argument: argument_of(opt), description: desc }]
    }
}

/// The options that the pairs give, in their order.
pub open spec fn options_of_pairs(pairs: Seq<(Seq<char>, Seq<char>)>) -> Seq<OptModel>
    decreases pairs.len(),
{
    if pairs.len() == 0 {
        seq![]
    } else {
        options_of_pairs(pairs.drop_last()) + options_of(pairs.last().0, pairs.last().1)
    }
}

/// The options of the block `s`: those of its pairs, without any that is
/// equal to an earlier one in names, argument and description.
pub open spec fn parsed(s: Seq<char>) -> Seq<OptModel> {
    distinct(options_of_pairs(preprocessed(s)))
}

/// Whether `o` is as parsing leaves an option: it has a name, and its names
/// are in increasing order, none twice.
pub open spec fn well_formed(o: OptModel) -> bool {
    o.names.len() > 0 && increasing(o.names, name_order())
}

/// Every option that a pair gives is well formed and keeps the description.
pub proof fn lemma_options_of_well_formed(opt: Seq<char>, desc: Seq<char>)
    ensures
        options_of(opt, desc).len() <= 1,
        forall|i: int|
            0 <= i < options_of(opt, desc).len() ==> well_formed(#[trigger] options_of(opt, desc)[i])
                && options_of(opt, desc)[i].description == desc,
{
    lemma_name_order_strict();
    lemma_sorted_set(names_in_groups(groups(opt)), name_order());
}

/// The regular expression for a header line of the keyword: the keyword as
/// it stands, with white space allowed before and after it, and a colon and
/// more white space allowed at the end, and nothing else on the line.
pub open spec fn header_pattern(keyword: Seq<char>) -> Seq<char> {
    "^\\s*"@ + regex_escaped(keyword) + "\\s*:?\\s*$"@
}

/// Whether the regular expression for the keyword can be made and matches the
/// line.
pub open spec fn is_header_of(keyword: Seq<char>, line: Seq<char>) -> bool {
    regex_compiles(header_pattern(keyword)) && regex_matches(header_pattern(keyword), line)
}

/// The header of a usage block: the first line of the block, in small
/// letters, where it is the header line of one of the keywords. Nothing
/// where there is no keyword, where the block is empty, or where the line
/// is the header line of none.
pub open spec fn usage_header(keywords: Seq<Seq<char>>, block: Seq<char>) -> Option<Seq<char>> {
    if keywords.len() == 0 || block.len() == 0 {
        None
    } else if exists|k: int|
        0 <= k < keywords.len() && is_header_of(#[trigger] keywords[k], lowercase(lines(block)[0])) {
        Some(lowercase(lines(block)[0]))
    } else {
        None
    }
}

/// The views of the keywords.
pub open spec fn keyword_texts(keywords: Seq<&str>) -> Seq<Seq<char>> {
    Seq::new(keywords.len(), |i: int| keywords[i]@)
}

/// Every option that the pairs give is well formed.
pub proof fn lemma_options_of_pairs_well_formed(pairs: Seq<(Seq<char>, Seq<char>)>)
    ensures
        forall|i: int|
            0 <= i < options_of_pairs(pairs).len() ==> well_formed(
                #[trigger] options_of_pairs(pairs)[i],
            ),
    decreases pairs.len(),
{
    if pairs.len() > 0 {
        let before = options_of_pairs(pairs.drop_last());
        let more = options_of(pairs.last().0, pairs.last().1);
        let all = options_of_pairs(pairs);
        lemma_options_of_pairs_well_formed(pairs.drop_last());
        lemma_options_of_well_formed(pairs.last().0, pairs.last().1);
        assert forall|i: int| 0 <= i < all.len() implies well_formed(#[trigger] all[i]) by {
            if i < before.len() {
                assert(all[i] == before[i]);
            } else {
                assert(all[i] == more[i - before.len()]);
            }
        }
    }
}

/// Every option of a block has a name, and its names are in increasing
/// order, none twice.
pub proof fn lemma_parsed_well_formed(s: Seq<char>)
    ensures
        forall|i: int| 0 <= i < parsed(s).len() ==> well_formed(#[trigger] parsed(s)[i]),
{
    let all = options_of_pairs(preprocessed(s));
    lemma_options_of_pairs_well_formed(preprocessed(s));
    lemma_distinct_same_elements(all);
    assert forall|i: int| 0 <= i < parsed(s).len() implies well_formed(#[trigger] parsed(s)[i]) by {
        assert(distinct(all).contains(parsed(s)[i]));
    }
}

/// Names under construction: the characters of each spelling and its class.
pub open spec fn raw_models(v: Seq<(Vec<char>, OptNameType)>) -> Seq<OptNameModel> {
    v.map_values(|n: (Vec<char>, OptNameType)| OptNameModel { raw: n.0@, opt_type: n.1 })
}

/// The option names among the words of the groups of `s`.
fn name_candidates(s: &[char]) -> (r: Vec<(Vec<char>, OptNameType)>)
    ensures
        raw_models(r@) == names_in_groups(groups(s@)),
{
    let gs = groups_of(s);
    let mut out: Vec<(Vec<char>, OptNameType)> = Vec::new();
    let mut g: usize = 0;
    proof {
        assert(rows(gs@).take(0) =~= Seq::<Seq<char>>::empty());
        assert(raw_models(out@) =~= Seq::<OptNameModel>::empty());
    }
    while g < gs.len()
        invariant
            g <= gs@.len(),
            raw_models(out@) == names_in_groups(rows(gs@).take(g as int)),
        decreases gs@.len() - g,
    {
        let ws = words_of(gs[g].as_slice());
        let ghost base = raw_models(out@);
        let mut w: usize = 0;
        proof {
            assert(rows(ws@).take(0) =~= Seq::<Seq<char>>::empty());
            assert(base + Seq::<OptNameModel>::empty() =~= base);
        }
        while w < ws.len()
            invariant
                w <= ws@.len(),
                raw_models(out@) == base + names_in_words(rows(ws@).take(w as int)),
            decreases ws@.len() - w,
        {
            let word = copy_range(ws[w].as_slice(), 0, ws[w].len());
            proof {
                assert(word@ =~= ws@[w as int]@);
                let next = rows(ws@).take(w + 1);
                assert(next.drop_last() =~= rows(ws@).take(w as int));
                assert(next.last() == word@);
            }
            match classify_chars(word.as_slice()) {
                Some(opt_type) => {
                    let ghost prev = out@;
                    let ghost m = OptNameModel { raw: word@, opt_type };
                    out.push((word, opt_type));
                    proof {
                        assert(raw_models(out@) =~= raw_models(prev).push(m));
                        assert(base + names_in_words(rows(ws@).take(w as int)).push(m) =~= (base
                            + names_in_words(rows(ws@).take(w as int))).push(m));
                    }
                },
                None => {},
            }
            w += 1;
        }
        proof {
            assert(rows(ws@).take(ws@.len() as int) =~= rows(ws@));
            let next = rows(gs@).take(g + 1);
            assert(next.drop_last() =~= rows(gs@).take(g as int));
            assert(next.last() == gs@[g as int]@);
        }
        g += 1;
    }
    proof {
        assert(rows(gs@).take(gs@.len() as int) =~= rows(gs@));
    }
    out
}

/// Puts the name in its place in the increasing list, unless it is there.
fn insert_name(list: &mut Vec<(Vec<char>, OptNameType)>, raw: Vec<char>, opt_type: OptNameType)
    requires
        increasing(raw_models(old(list)@), name_order()),
    ensures
        increasing(raw_models(final(list)@), name_order()),
        raw_models(final(list)@) == insert_sorted(
            raw_models(old(list)@),
            OptNameModel { raw: raw@, opt_type },
            name_order(),
        ),
{
    let ghost x = OptNameModel { raw: raw@, opt_type };
    let ghost before = raw_models(list@);
    let mut p: usize = 0;
    let mut found = false;
    while p < list.len()
        invariant_except_break
            !found,
        invariant
            p <= list@.len(),
            list@ == old(list)@,
            before == raw_models(list@),
            x == (OptNameModel { raw: raw@, opt_type }),
            forall|i: int| 0 <= i < p ==> name_lt(#[trigger] before[i], x),
        ensures
            p < list@.len() ==> !name_lt(before[p as int], x),
            found <==> p < list@.len() && before[p as int] == x,
        decreases list@.len() - p,
    {
        let place = name_place(list[p].0.as_slice(), list[p].1, raw.as_slice(), opt_type);
        proof {
            assert(before[p as int] == OptNameModel {
                raw: list@[p as int].0@,
                opt_type: list@[p as int].1,
            });
        }
        match place {
            Place::Before => {
                p += 1;
            },
            Place::Same => {
                found = true;
                proof {
                    lemma_lex_irreflexive(x.raw);
                }
                break ;
            },
            Place::After => {
                break ;
            },
        }
    }
    proof {
        lemma_name_order_strict();
        lemma_insert_sorted(before, x, name_order(), p as int);
    }
    if !found {
        list.insert(p, (raw, opt_type));
        proof {
            assert(raw_models(list@) =~= before.insert(p as int, x));
        }
    }
}

/// The names, each once, in increasing order.
fn sorted_names(cands: Vec<(Vec<char>, OptNameType)>) -> (r: Vec<(Vec<char>, OptNameType)>)
    ensures
        raw_models(r@) == sorted_set(raw_models(cands@), name_order()),
        increasing(raw_models(r@), name_order()),
{
    let mut out: Vec<(Vec<char>, OptNameType)> = Vec::new();
    let ghost all = raw_models(cands@);
    let mut i: usize = 0;
    proof {
        assert(all.take(0) =~= Seq::<OptNameModel>::empty());
        assert(raw_models(out@) =~= Seq::<OptNameModel>::empty());
    }
    while i < cands.len()
        invariant
            i <= cands@.len(),
            all == raw_models(cands@),
            raw_models(out@) == sorted_set(all.take(i as int), name_order()),
            increasing(raw_models(out@), name_order()),
        decreases cands@.len() - i,
    {
        let raw = copy_range(cands[i].0.as_slice(), 0, cands[i].0.len());
        proof {
            assert(raw@ =~= cands@[i as int].0@);
            let next = all.take(i + 1);
            assert(next.drop_last() =~= all.take(i as int));
            assert(next.last() == OptNameModel { raw: raw@, opt_type: cands@[i as int].1 });
        }
        insert_name(&mut out, raw, cands[i].1);
        i += 1;
    }
    proof {
        assert(all.take(cands@.len() as int) =~= all);
    }
    out
}


/// The argument that the group `g` shows, if it shows one.
fn group_argument_of(g: &[char]) -> (r: Option<Vec<char>>)
    ensures
        match r {
            Some(arg) => group_argument(g@) == Some(arg@),
            None => group_argument(g@) is None,
        },
{
    let ws = words_of(g);
    if ws.len() < 2 {
        return None;
    }
    let sp: Vec<char> = vec![' '];
    proof {
        assert(sp@ =~= blank());
    }
    let arg = join_range(&ws, 1, ws.len(), sp.as_slice());
    if arg.len() == 0 || (arg.len() == 1 && arg[0] == '.') {
        None
    } else {
        Some(arg)
    }
}

/// The argument of the option whose text is `s`.
fn argument_chars(s: &[char]) -> (r: Vec<char>)
    ensures
        r@ == argument_of(s@),
{
    let gs = groups_of(s);
    let mut g: usize = 0;
    proof {
        assert(rows(gs@).skip(0) =~= rows(gs@));
    }
    while g < gs.len()
        invariant
            g <= gs@.len(),
            argument_of(s@) == first_argument(rows(gs@).skip(g as int)),
        decreases gs@.len() - g,
    {
        let ghost rest = rows(gs@).skip(g as int);
        proof {
            assert(rest[0] == gs@[g as int]@);
            assert(rest.drop_first() =~= rows(gs@).skip(g + 1));
        }
        match group_argument_of(gs[g].as_slice()) {
            Some(arg) => {
                return arg;
            },
            None => {},
        }
        g += 1;
    }
    Vec::new()
}

/// The names of the option whose text is `s`.
fn names_chars(s: &[char]) -> (r: Vec<OptName>)
    ensures
        name_models(r@) == names_of(s@),
{
    let sorted = sorted_names(name_candidates(s));
    let mut out: Vec<OptName> = Vec::new();
    let ghost all = raw_models(sorted@);
    let mut i: usize = 0;
    while i < sorted.len()
        invariant
            i <= sorted@.len(),
            all == raw_models(sorted@),
            name_models(out@) == all.take(i as int),
        decreases sorted@.len() - i,
    {
        let raw = string_of(sorted[i].0.as_slice());
        let name = OptName { raw, opt_type: sorted[i].1 };
        let ghost prev = out@;
        out.push(name);
        proof {
            assert(name_models(out@) =~= name_models(prev).push(name@));
            assert(all.take(i + 1) =~= all.take(i as int).push(all[i as int]));
        }
        i += 1;
    }
    proof {
        assert(all.take(sorted@.len() as int) =~= all);
    }
    out
}

/// The option that the pair gives, if it gives one.
fn option_chars(opt: &[char], desc: &[char]) -> (r: Option<Opt>)
    ensures
        match r {
            Some(o) => options_of(opt@, desc@) == seq![o@],
            None => options_of(opt@, desc@) == Seq::<OptModel>::empty(),
        },
{
    let names = names_chars(opt);
    let arg = argument_chars(opt);
    if names.len() == 0 {
        return None;
    }
    let o = Opt { names, argument: string_of(arg.as_slice()), description: string_of(desc) };
    Some(o)
}

/// Whether the two options are equal in names, argument and description.
pub fn same_opt(a: &Opt, b: &Opt) -> (r: bool)
    ensures
        r == (a@ == b@),
{
    if a.names.len() != b.names.len() {
        proof {
            assert(a@.names.len() != b@.names.len());
        }
        return false;
    }
    let mut i: usize = 0;
    while i < a.names.len()
        invariant
            i <= a.names@.len(),
            a.names@.len() == b.names@.len(),
            forall|j: int| 0 <= j < i ==> a.names@[j]@ == b.names@[j]@,
        decreases a.names@.len() - i,
    {
        if !(a.names[i].raw == b.names[i].raw && a.names[i].opt_type == b.names[i].opt_type) {
            proof {
                assert(a@.names[i as int] == a.names@[i as int]@);
                assert(b@.names[i as int] == b.names@[i as int]@);
            }
            return false;
        }
        i += 1;
    }
    proof {
        assert(a@.names =~= b@.names);
    }
    a.argument == b.argument && a.description == b.description
}

/// Whether `list` holds an option equal to `x`.
pub fn holds_opt(list: &Vec<Opt>, x: &Opt) -> (r: bool)
    ensures
        r == opt_models(list@).contains(x@),
{
    let mut i: usize = 0;
    while i < list.len()
        invariant
            i <= list@.len(),
            forall|j: int| 0 <= j < i ==> opt_models(list@)[j] != x@,
        decreases list@.len() - i,
    {
        if same_opt(&list[i], x) {
            proof {
                assert(opt_models(list@)[i as int] == x@);
            }
            return true;
        }
        i += 1;
    }
    false
}

impl Parser {
    /// The pairs of option text and description of the block `s`.
    pub fn preprocess_chars(s: &[char]) -> (r: Vec<(Vec<char>, Vec<char>)>)
        ensures
            pair_rows(r@) == preprocessed(s@),
    {
        let ls = lines_of(s);
        let sp: Vec<char> = vec![' '];
        let mut out: Vec<(Vec<char>, Vec<char>)> = Vec::new();
        let mut i: usize = 0;
        proof {
            assert(sp@ =~= blank());
            assert(pair_rows(out@) + pairs_from(rows(ls@), 0) =~= pairs_from(rows(ls@), 0));
        }
        while i < ls.len()
            invariant
                i <= ls@.len(),
                sp@ == blank(),
                rows(ls@) == lines(s@),
                preprocessed(s@) == pair_rows(out@) + pairs_from(rows(ls@), i as int),
            decreases ls@.len() - i,
        {
            let line = ls[i].as_slice();
            let a = run_from(line, 0, CharClass::Space);
            let ghost before = pair_rows(out@);
            proof {
                assert(line@.skip(0) =~= line@);
            }
            if a < line.len() && line[a] == '-' {
                let opt = copy_range(line, a, line.len());
                proof {
                    assert(opt@ =~= trim_start(line@));
                }
                let tokens = words_of(opt.as_slice());
                let end = option_end_of(&tokens);
                if end > 0 && end < tokens.len() {
                    let head = join_range(&tokens, 0, end, sp.as_slice());
                    let tail = join_range(&tokens, end, tokens.len(), sp.as_slice());
                    let ghost pair = (head@, tail@);
                    out.push((head, tail));
                    proof {
                        assert(pair_rows(out@) =~= before.push(pair));
                        assert(before.push(pair) + pairs_from(rows(ls@), i + 1) =~= before + (
                        seq![pair] + pairs_from(rows(ls@), i + 1)));
                    }
                    i += 1;
                } else if end > 0 {
                    let mut desc: Vec<char> = Vec::new();
                    if i + 1 < ls.len() {
                        let next = ls[i + 1].as_slice();
                        let (na, nb) = trim_bounds(next);
                        if !(na < next.len() && next[na] == '-') {
                            desc = copy_range(next, na, nb);
                        }
                    }
                    proof {
                        assert(desc@ =~= next_description(rows(ls@), i as int));
                    }
                    let ghost pair = (opt@, desc@);
                    let step: usize = if desc.len() > 0 {
                        2
                    } else {
                        1
                    };
                    out.push((opt, desc));
                    proof {
                        assert(pair_rows(out@) =~= before.push(pair));
                        assert(before.push(pair) + pairs_from(rows(ls@), i + step) =~= before + (
                        seq![pair] + pairs_from(rows(ls@), i + step)));
                    }
                    i += step;
                } else {
                    i += 1;
                }
            } else {
                proof {
                    assert(!starts_with_char(trim_start(line@), '-'));
                }
                i += 1;
            }
        }
        proof {
            assert(pair_rows(out@) + Seq::<(Seq<char>, Seq<char>)>::empty() =~= pair_rows(out@));
        }
        out
    }

    /// The pairs of option text and description of the block `s`: for each
    /// line that opens an option, the line without its leading white space,
    /// and as its description the trimmed next line, which is then used up,
    /// unless that line is empty or opens an option itself. A description
    /// is never split off on the option's own line: see `pairs_from` and
    /// `lemma_pairs_from_option_line`.
    pub fn preprocess(s: &str) -> (r: Vec<(String, String)>)
        ensures
            pair_texts(r@) == preprocessed(s@),
    {
        let chars = chars_of(s);
        let pairs = Self::preprocess_chars(chars.as_slice());
        pair_strings(&pairs)
    }

    /// The options of the block `s`, given as its characters.
    pub fn parse_chars(s: &[char]) -> (r: Vec<Opt>)
        ensures
            opt_models(r@) == parsed(s@),
            forall|i: int| 0 <= i < r@.len() ==> well_formed(#[trigger] r@[i]@),
    {

        let pairs = Self::preprocess_chars(s);
        let mut out: Vec<Opt> = Vec::new();
        let ghost all = pair_rows(pairs@);
        let mut i: usize = 0;
        proof {
            assert(all.take(0) =~= Seq::<(Seq<char>, Seq<char>)>::empty());
            assert(opt_models(out@) =~= Seq::<OptModel>::empty());
        }
        while i < pairs.len()
            invariant
                i <= pairs@.len(),
                all == pair_rows(pairs@),
                opt_models(out@) == distinct(options_of_pairs(all.take(i as int))),
            decreases pairs@.len() - i,
        {
            let ghost done = options_of_pairs(all.take(i as int));
            proof {
                let next = all.take(i + 1);
                assert(next.drop_last() =~= all.take(i as int));
                assert(next.last() == (pairs@[i as int].0@, pairs@[i as int].1@));
                lemma_distinct_same_elements(done);
            }
            match option_chars(pairs[i].0.as_slice(), pairs[i].1.as_slice()) {
                Some(o) => {
                    proof {
                        assert(done + seq![o@] =~= done.push(o@));
                        assert(done.push(o@).drop_last() =~= done);
                    }
                    if !holds_opt(&out, &o) {
                        let ghost prev = out@;
                        out.push(o);
                        proof {
                            assert(opt_models(out@) =~= opt_models(prev).push(o@));
                        }
                    }
                },
                None => {
                    proof {
                        assert(done + Seq::<OptModel>::empty() =~= done);
                    }
                },
            }
            i += 1;
        }
        proof {
            assert(all.take(pairs@.len() as int) =~= all);
            lemma_parsed_well_formed(s@);
            assert forall|i: int| 0 <= i < out@.len() implies well_formed(#[trigger] out@[i]@) by {
                assert(opt_models(out@)[i] == out@[i]@);
                assert(parsed(s@)[i] == out@[i]@);
            }
        }
        out
    }

    /// The options of the block `s`: one for each pair of `preprocess` whose
    /// option text holds a name, in the order of the pairs, the first only of
    /// those that are equal in every field.
    pub fn parse_line(s: &str) -> (r: Vec<Opt>)
        ensures
            opt_models(r@) == parsed(s@),
            forall|i: int| 0 <= i < r@.len() ==> well_formed(#[trigger] r@[i]@),
    {
        let chars = chars_of(s);
        Self::parse_chars(chars.as_slice())
    }

    /// The options that an option text and its description give: none where
    /// the text holds no name; else one, with the names of `names_of`, the
    /// argument of `argument_of` and the description as given.
    pub fn parse_with_opt_part(opt_str: &str, desc_str: &str) -> (r: Vec<Opt>)
        ensures
            opt_models(r@) == options_of(opt_str@, desc_str@),
            r@.len() <= 1,
            forall|i: int| 0 <= i < r@.len() ==> well_formed(#[trigger] r@[i]@),
    {
        let opt = chars_of(opt_str);
        let desc = chars_of(desc_str);
        let mut out: Vec<Opt> = Vec::new();
        proof {
            lemma_options_of_well_formed(opt_str@, desc_str@);
        }
        match option_chars(opt.as_slice(), desc.as_slice()) {
            Some(o) => {
                out.push(o);
                proof {
                    assert(opt_models(out@) =~= seq![o@]);
                    assert(options_of(opt_str@, desc_str@)[0] == o@);
                }
            },
            None => {
                proof {
                    assert(opt_models(out@) =~= Seq::<OptModel>::empty());
                }
            },
        }
        out
    }

    /// The names of the option whose text is `s`: each word that starts with
    /// a dash, each once, ordered by spelling and then by class.
    pub fn parse_opt_names(s: &str) -> (r: Vec<OptName>)
        ensures
            name_models(r@) == names_of(s@),
            increasing(name_models(r@), name_order()),
    {
        let chars = chars_of(s);
        proof {
            lemma_name_order_strict();
            lemma_sorted_set(names_in_groups(groups(s@)), name_order());
        }
        names_chars(chars.as_slice())
    }

    /// The argument of the option whose text is `s`: that of the first of its
    /// groups that shows one, and the empty string where none does.
    pub fn parse_opt_arg(s: &str) -> (r: String)
        ensures
            r@ == argument_of(s@),
    {
        let chars = chars_of(s);
        let arg = argument_chars(chars.as_slice());
        string_of(arg.as_slice())
    }

    /// The header, where at least one of the answers is yes: the answers
    /// being, for each keyword, whether the header is its header line.
    pub fn header_if_any(header: String, answers: &Vec<bool>) -> (r: Option<String>)
        ensures
            match r {
                Some(h) => h@ == header@ && answers@.contains(true),
                None => !answers@.contains(true),
            },
    {
        let mut i: usize = 0;
        while i < answers.len()
            invariant
                i <= answers@.len(),
                forall|j: int| 0 <= j < i ==> !answers@[j],
            decreases answers@.len() - i,
        {
            if answers[i] {
                return Some(header);
            }
            i += 1;
        }
        None
    }

    /// The header of a usage block: the first line of `block`, in small
    /// letters, where a regular expression made from one of the keywords
    /// matches it: see `usage_header`.
    pub fn parse_usage_header(keywords: &[&str], block: &str) -> (r: Option<String>)
        ensures
            match r {
                Some(h) => usage_header(keyword_texts(keywords@), block@) == Some(h@),
                None => usage_header(keyword_texts(keywords@), block@) is None,
            },
    {
        if keywords.len() == 0 || block.is_empty() {
            return None;
        }
        let chars = chars_of(block);
        let ls = lines_of(chars.as_slice());
        proof {
            lemma_lines_of_nonempty(block@);
        }
        let first = string_of(ls[0].as_slice());
        let header = first.as_str().to_lowercase();
        let ghost texts = keyword_texts(keywords@);
        let mut answers: Vec<bool> = Vec::new();
        let mut k: usize = 0;
        while k < keywords.len()
            invariant
                k <= keywords@.len(),
                texts == keyword_texts(keywords@),
                answers@.len() == k,
                forall|j: int| 0 <= j < k ==> answers@[j] == is_header_of(#[trigger] texts[j], header@),
            decreases keywords@.len() - k,
        {
            let escaped = regex::escape(keywords[k]);
            let mut pattern = String::new();
            pattern.append("^\\s*");
            pattern.append(escaped.as_str());
            pattern.append("\\s*:?\\s*$");
            proof {
                assert(pattern@ =~= header_pattern(texts[k as int]));
            }
            let matched = match regex::Regex::new(pattern.as_str()) {
                Ok(re) => re.is_match(header.as_str()),
                Err(_) => false,
            };
            answers.push(matched);
            k += 1;
        }
        proof {
            if answers@.contains(true) {
                let j = choose|j: int| 0 <= j < answers@.len() && answers@[j] == true;
                assert(is_header_of(texts[j], header@));
            }
        }
        Self::header_if_any(header, &answers)
    }

    /// The argument that one group shows: its words after the first, joined
    /// by one space; nothing where it has fewer than two words or where that
    /// text is a single dot.
    pub fn extract_arg_from_part(s: &str) -> (r: Option<String>)
        ensures
            match r {
                Some(arg) => group_argument(s@) == Some(arg@),
                None => group_argument(s@) is None,
            },
    {
        let chars = chars_of(s);
        match group_argument_of(chars.as_slice()) {
            Some(arg) => Some(string_of(arg.as_slice())),
            None => None,
        }
    }
}

} // verus!
