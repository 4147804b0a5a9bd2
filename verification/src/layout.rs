//! The layout of a help text: its blocks of option lines, its usage lines,
//! and the columns at which its options start.

use vstd::prelude::*;
use ecow::{EcoString, EcoVec};
use crate::alignment::{
    as_nats, group_locations, locate, mode_of, most_frequent_offset, numbers, offsets_of_lines,
    seconds,
};
use crate::chars::{ascii_lower, CharClass};
use crate::encoding::{holds_ascii, lemma_utf8_len_is_encoded_len};
use crate::foreign::{
    byte_lines, eco_numbers, eco_opts, eco_pairs, eco_string, eco_text, eco_vec_of_numbers,
    eco_vec_of_opts, eco_vec_of_pairs, parse_each, preprocess_each,
};
use crate::parser::{
    lemma_parsed_well_formed, pair_rows, pair_strings, parsed, preprocessed, well_formed, Parser,
};
use crate::text::{
    chars_of, contains_seq, folded, has_char, has_folded, is_blank, join, lemma_line_chars,
    lemma_line_is_part, lemma_run_len_bounds, lemma_utf8_len_part, lines, push_all, rows, run_from,
    run_len, starts_with_char, string_of, strings_of, texts, trim_start, utf8_len,
};
use crate::types::{opt_models, Opt, OptModel};

verus! {

/// Finds the blocks, the usage and the columns of a help text.
pub struct Layout;

/// Whether the line opens an option: its first character that is not white
/// space is a dash.
pub open spec fn opens_option(line: Seq<char>) -> bool {
    starts_with_char(trim_start(line), '-')
}

/// The blocks that the lines `ls` give, `open` being the block that the lines
/// before them have left open (empty where none is open). A line that opens
/// an option opens a block; an open block takes every line that follows, up
/// to the first blank line, which closes it; lines outside a block are
/// dropped. The lines of a block are joined by line feeds.
pub open spec fn blocks_from(ls: Seq<Seq<char>>, open: Seq<char>) -> Seq<Seq<char>>
    decreases ls.len(),
{
    if ls.len() == 0 {
        if open.len() > 0 {
            seq![open]
        } else {
            seq![]
        }
    } else if is_blank(ls[0]) {
        if open.len() > 0 {
            seq![open] + blocks_from(ls.drop_first(), seq![])
        } else {
            blocks_from(ls.drop_first(), seq![])
        }
    } else if open.len() > 0 {
        blocks_from(ls.drop_first(), open + seq!['\n'] + ls[0])
    } else if opens_option(ls[0]) {
        blocks_from(ls.drop_first(), ls[0])
    } else {
        blocks_from(ls.drop_first(), seq![])
    }
}

/// The blocks of the text `s`.
pub open spec fn blocks(s: Seq<char>) -> Seq<Seq<char>> {
    blocks_from(lines(s), seq![])
}

/// Lines of which none opens an option give no block.
pub proof fn lemma_no_option_no_blocks(ls: Seq<Seq<char>>)
    requires
        forall|i: int| 0 <= i < ls.len() ==> !opens_option(#[trigger] ls[i]),
    ensures
        blocks_from(ls, seq![]) == Seq::<Seq<char>>::empty(),
    decreases ls.len(),
{
    if ls.len() > 0 {
        let rest = ls.drop_first();
        assert forall|i: int| 0 <= i < rest.len() implies !opens_option(#[trigger] rest[i]) by {
            assert(rest[i] == ls[i + 1]);
        }
        lemma_no_option_no_blocks(rest);
        assert(!opens_option(ls[0]));
    }
}

/// A line that opens an option holds a dash.
pub proof fn lemma_option_line_holds_dash(line: Seq<char>)
    requires
        opens_option(line),
    ensures
        line.contains('-'),
{
    lemma_run_len_bounds(line, CharClass::Space);
    let n = run_len(line, CharClass::Space) as int;
    assert(trim_start(line)[0] == line[n]);
}

/// A text without a dash has no blocks.
pub proof fn lemma_no_dash_no_blocks(s: Seq<char>)
    requires
        !s.contains('-'),
    ensures
        blocks(s) == Seq::<Seq<char>>::empty(),
{
    let ls = lines(s);
    assert forall|i: int| 0 <= i < ls.len() implies !opens_option(#[trigger] ls[i]) by {
        if opens_option(ls[i]) {
            lemma_option_line_holds_dash(ls[i]);
            let j = choose|j: int| 0 <= j < ls[i].len() && ls[i][j] == '-';
            lemma_line_chars(s, i, j);
        }
    }
    lemma_no_option_no_blocks(ls);
}

/// The options of the blocks `bs`, block after block.
pub open spec fn parsed_blocks(bs: Seq<Seq<char>>) -> Seq<OptModel>
    decreases bs.len(),
{
    if bs.len() == 0 {
        seq![]
    } else {
        parsed_blocks(bs.drop_last()) + parsed(bs.last())
    }
}

/// The pairs of option text and description of the blocks `bs`, block after
/// block.
pub open spec fn preprocessed_blocks(bs: Seq<Seq<char>>) -> Seq<(Seq<char>, Seq<char>)>
    decreases bs.len(),
{
    if bs.len() == 0 {
        seq![]
    } else {
        preprocessed_blocks(bs.drop_last()) + preprocessed(bs.last())
    }
}

/// Every option of the blocks has a name, and its names are in increasing
/// order, none twice.
pub proof fn lemma_parsed_blocks_well_formed(bs: Seq<Seq<char>>)
    ensures
        forall|i: int|
            0 <= i < parsed_blocks(bs).len() ==> well_formed(#[trigger] parsed_blocks(bs)[i]),
    decreases bs.len(),
{
    if bs.len() > 0 {
        let before = parsed_blocks(bs.drop_last());
        let more = parsed(bs.last());
        let all = parsed_blocks(bs);
        lemma_parsed_blocks_well_formed(bs.drop_last());
        lemma_parsed_well_formed(bs.last());
        assert forall|i: int| 0 <= i < all.len() implies well_formed(#[trigger] all[i]) by {
            if i < before.len() {
                assert(all[i] == before[i]);
            } else {
                assert(all[i] == more[i - before.len()]);
            }
        }
    }
}

/// Up to this many blocks are parsed one after the other; more are handed
/// out to worker threads.
pub const PARALLEL_THRESHOLD: usize = 4;

/// Whether the line names the usage: it holds `usage` or `synopsis`, in
/// capital or small letters.
pub open spec fn names_usage(line: Seq<char>) -> bool {
    contains_seq(folded(line), "usage"@) || contains_seq(folded(line), "synopsis"@)
}

/// Whether the line opens the usage: it names the usage and holds a colon.
pub open spec fn is_usage_header(line: Seq<char>) -> bool {
    names_usage(line) && line.contains(':')
}

/// Whether the line goes on with the usage: it is not empty, and starts with
/// a space or holds a colon.
pub open spec fn continues_usage(line: Seq<char>) -> bool {
    line.len() > 0 && (line[0] == ' ' || line.contains(':'))
}

/// The number of lines at the start of `ls` that go on with the usage.
pub open spec fn continued(ls: Seq<Seq<char>>) -> nat
    decreases ls.len(),
{
    if ls.len() > 0 && continues_usage(ls[0]) {
        1 + continued(ls.drop_first())
    } else {
        0
    }
}

/// The usage that the lines `ls` give: the first line that opens the usage
/// and the lines that follow it for as long as they go on with it, joined by
/// line feeds; empty where no line opens the usage.
pub open spec fn usage_from(ls: Seq<Seq<char>>) -> Seq<char>
    decreases ls.len(),
{
    if ls.len() == 0 {
        seq![]
    } else if is_usage_header(ls[0]) {
        join(ls.take(1 + continued(ls.drop_first()) as int), seq!['\n'])
    } else {
        usage_from(ls.drop_first())
    }
}

/// The usage of the text `s`.
pub open spec fn usage_of(s: Seq<char>) -> Seq<char> {
    usage_from(lines(s))
}

/// Any `n` lines that go on with the usage, with a line behind them that
/// does not or with none behind them, are the lines counted.
pub proof fn lemma_continued_is(ls: Seq<Seq<char>>, n: int)
    requires
        0 <= n <= ls.len(),
        forall|j: int| 0 <= j < n ==> continues_usage(#[trigger] ls[j]),
        n < ls.len() ==> !continues_usage(ls[n]),
    ensures
        continued(ls) == n,
    decreases n,
{
    if n > 0 {
        let t = ls.drop_first();
        assert(continues_usage(ls[0]));
        assert forall|j: int| 0 <= j < n - 1 implies continues_usage(#[trigger] t[j]) by {
            assert(t[j] == ls[j + 1]);
        }
        if n - 1 < t.len() {
            assert(t[n - 1] == ls[n]);
        }
        lemma_continued_is(t, n - 1);
    }
}

/// Lines of which none opens the usage give no usage.
pub proof fn lemma_no_header_no_usage(ls: Seq<Seq<char>>)
    requires
        forall|i: int| 0 <= i < ls.len() ==> !is_usage_header(#[trigger] ls[i]),
    ensures
        usage_from(ls) == Seq::<char>::empty(),
    decreases ls.len(),
{
    if ls.len() > 0 {
        let rest = ls.drop_first();
        assert forall|i: int| 0 <= i < rest.len() implies !is_usage_header(#[trigger] rest[i]) by {
            assert(rest[i] == ls[i + 1]);
        }
        lemma_no_header_no_usage(rest);
        assert(!is_usage_header(ls[0]));
    }
}

/// A line that names the usage holds one of the letters `u`, `s`, `U`, `S`.
pub proof fn lemma_usage_line_letters(line: Seq<char>)
    requires
        names_usage(line),
    ensures
        line.contains('u') || line.contains('s') || line.contains('U') || line.contains('S'),
{
    reveal_strlit("usage");
    reveal_strlit("synopsis");
    let f = folded(line);
    if contains_seq(f, "usage"@) {
        let p = "usage"@;
        let i = choose|i: int| 0 <= i && i + p.len() <= f.len() && #[trigger] f.subrange(
            i,
            i + p.len(),
        ) == p;
        assert(f.subrange(i, i + p.len())[0] == f[i]);
        assert(ascii_lower(line[i]) == 'u');
        assert(line[i] == 'u' || line[i] == 'U');
    } else {
        let p = "synopsis"@;
        let i = choose|i: int| 0 <= i && i + p.len() <= f.len() && #[trigger] f.subrange(
            i,
            i + p.len(),
        ) == p;
        assert(f.subrange(i, i + p.len())[0] == f[i]);
        assert(ascii_lower(line[i]) == 's');
        assert(line[i] == 's' || line[i] == 'S');
    }
}

/// A text that holds none of the letters `u`, `s`, `U`, `S` has no usage.
pub proof fn lemma_no_letters_no_usage(s: Seq<char>)
    requires
        !s.contains('u'),
        !s.contains('s'),
        !s.contains('U'),
        !s.contains('S'),
    ensures
        usage_of(s) == Seq::<char>::empty(),
{
    let ls = lines(s);
    assert forall|i: int| 0 <= i < ls.len() implies !is_usage_header(#[trigger] ls[i]) by {
        if names_usage(ls[i]) {
            lemma_usage_line_letters(ls[i]);
            let c = if ls[i].contains('u') {
                'u'
            } else if ls[i].contains('s') {
                's'
            } else if ls[i].contains('U') {
                'U'
            } else {
                'S'
            };
            let j = choose|j: int| 0 <= j < ls[i].len() && ls[i][j] == c;
            lemma_line_chars(s, i, j);
        }
    }
    lemma_no_header_no_usage(ls);
}

/// Whether the line goes on with the usage.
pub fn goes_on(line: &[char]) -> (r: bool)
    ensures
        r == continues_usage(line@),
{
    line.len() > 0 && (line[0] == ' ' || has_char(line, ':'))
}

impl Layout {
    /// The usage of `content`: the first line that holds `usage` or
    /// `synopsis`, in capital or small letters, and a colon, together with
    /// the lines that follow it for as long as each is not empty and starts
    /// with a space or holds a colon; the lines joined by line feeds. Empty
    /// where there is no such first line.
    pub fn parse_usage(content: &str) -> (r: EcoString)
        ensures
            eco_text(r) == usage_of(content@),
            (forall|i: int|
                0 <= i < lines(content@).len() ==> !is_usage_header(#[trigger] lines(content@)[i]))
                ==> eco_text(r).len() == 0,
    {
        proof {
            if forall|i: int|
                0 <= i < lines(content@).len() ==> !is_usage_header(#[trigger] lines(content@)[i]) {
                lemma_no_header_no_usage(lines(content@));
            }
        }
        eco_string(Self::usage_text(content))
    }

    /// The usage of `content`, as a string: see `parse_usage`.
    pub fn usage_text(content: &str) -> (r: String)
        ensures
            r@ == usage_of(content@),
    {
        if !holds_ascii(content, 117u8) && !holds_ascii(content, 115u8) {
            if !holds_ascii(content, 85u8) && !holds_ascii(content, 83u8) {
                proof {
                    assert(117u8 as char == 'u' && 115u8 as char == 's');
                    assert(85u8 as char == 'U' && 83u8 as char == 'S');
                    lemma_no_letters_no_usage(content@);
                }
                return String::new();
            }
        }
        let usage = chars_of("usage");
        let synopsis = chars_of("synopsis");
        let ls = byte_lines(content);
        let mut i: usize = 0;
        proof {
            assert(rows(ls@).skip(0) =~= rows(ls@));
        }
        while i < ls.len()
            invariant
                i <= ls@.len(),
                usage@ == "usage"@,
                synopsis@ == "synopsis"@,
                usage_of(content@) == usage_from(rows(ls@).skip(i as int)),
            decreases ls@.len() - i,
        {
            let line = ls[i].as_slice();
            let ghost rest = rows(ls@).skip(i as int);
            proof {
                assert(rest[0] == line@);
                assert(rest.drop_first() =~= rows(ls@).skip(i + 1));
            }
            if (has_folded(line, usage.as_slice()) || has_folded(line, synopsis.as_slice()))
                && has_char(line, ':') {
                let mut out: Vec<char> = Vec::new();
                push_all(&mut out, line);
                let mut j: usize = i + 1;
                proof {
                    assert(rest.take(1) =~= seq![line@]);
                    assert(out@ =~= line@);
                }
                while j < ls.len() && goes_on(ls[j].as_slice())
                    invariant
                        i < j <= ls@.len(),
                        rest == rows(ls@).skip(i as int),
                        out@ == join(rest.take(j - i), seq!['\n']),
                        forall|k: int| 0 <= k < j - i - 1 ==> continues_usage(
                            #[trigger] rest.drop_first()[k],
                        ),
                    decreases ls@.len() - j,
                {
                    let ghost before = out@;
                    let ghost upto = rest.take(j - i + 1);
                    proof {
                        assert(upto.drop_last() =~= rest.take(j - i));
                        assert(upto.last() == ls@[j as int]@);
                        assert(rest.drop_first()[j - i - 1] == ls@[j as int]@);
                    }
                    out.push('\n');
                    push_all(&mut out, ls[j].as_slice());
                    proof {
                        assert(out@ =~= before + seq!['\n'] + upto.last());
                    }
                    j += 1;
                }
                proof {
                    if j < ls@.len() {
                        assert(rest.drop_first()[j - i - 1] == ls@[j as int]@);
                    }
                    lemma_continued_is(rest.drop_first(), j - i - 1);
                }
                return string_of(out.as_slice());
            }
            i += 1;
        }
        String::new()
    }

    /// The lines of `s` that open an option of the group (the long options
    /// where `long` holds, the short ones where it does not), each as its
    /// number, counted from 0, and its indentation in bytes.
    pub fn get_option_locations(s: &str, long: bool) -> (r: Vec<(usize, usize)>)
        ensures
            as_nats(r@) == group_locations(lines(s@), long),
    {
        // The text takes a `usize` of bytes, so the indentation of a line does.
        let bytes = s.as_bytes().len();
        proof {
            lemma_utf8_len_is_encoded_len(s@);
            assert(utf8_len(s@) == bytes);
        }
        let ls = byte_lines(s);
        let mut out: Vec<(usize, usize)> = Vec::new();
        let ghost all = rows(ls@);
        let mut i: usize = 0;
        proof {
            assert(all.take(0) =~= Seq::<Seq<char>>::empty());
            assert(as_nats(out@) =~= Seq::<(nat, nat)>::empty());
        }
        while i < ls.len()
            invariant
                i <= ls@.len(),
                all == rows(ls@),
                all == lines(s@),
                utf8_len(s@) <= usize::MAX,
                as_nats(out@) == group_locations(all.take(i as int), long),
            decreases ls@.len() - i,
        {
            let line = ls[i].as_slice();
            proof {
                let (a, b) = lemma_line_is_part(s@, i as int);
                lemma_utf8_len_part(s@, a, b);
                assert(all.take(i + 1).drop_last() =~= all.take(i as int));
                assert(all.take(i + 1).last() == line@);
            }
            match locate(line, long) {
                Some(offset) => {
                    let ghost prev = as_nats(out@);
                    out.push((i, offset));
                    proof {
                        assert(as_nats(out@) =~= prev.push((i as nat, offset as nat)));
                    }
                },
                None => {},
            }
            i += 1;
        }
        proof {
            assert(all.take(ls@.len() as int) =~= all);
        }
        out
    }

    /// The most frequent of the offsets of `locations`; of several that are
    /// equally frequent, the one that comes first. Nothing where there are no
    /// locations.
    pub fn get_most_frequent_offset(locations: &Vec<(usize, usize)>) -> (r: Option<usize>)
        ensures
            match r {
                Some(x) => mode_of(seconds(as_nats(locations@))) == Some(x as nat),
                None => mode_of(seconds(as_nats(locations@))) is None,
            },
    {
        most_frequent_offset(locations)
    }

    /// The indentation that most lines of `s` that open a long option have.
    pub fn get_long_option_offset(s: &str) -> (r: Option<usize>)
        ensures
            match r {
                Some(x) => mode_of(seconds(group_locations(lines(s@), true))) == Some(x as nat),
                None => mode_of(seconds(group_locations(lines(s@), true))) is None,
            },
    {
        let locations = Self::get_option_locations(s, true);
        most_frequent_offset(&locations)
    }

    /// The indentation that most lines of `s` that open a short option have.
    pub fn get_short_option_offset(s: &str) -> (r: Option<usize>)
        ensures
            match r {
                Some(x) => mode_of(seconds(group_locations(lines(s@), false))) == Some(x as nat),
                None => mode_of(seconds(group_locations(lines(s@), false))) is None,
            },
    {
        let locations = Self::get_option_locations(s, false);
        most_frequent_offset(&locations)
    }

    /// The offsets at which the options of `s` start: the most frequent
    /// indentation of the lines that open a short option, and that of the
    /// lines that open a long one. Nothing where no line opens an option, one
    /// offset where only one group has lines or both have the same, else
    /// that of the short options first. Of several indentations that are
    /// equally frequent in a group, the one that comes first in the text
    /// stands for the group.
    pub fn get_option_offsets(s: &str) -> (r: EcoVec<usize>)
        ensures
            numbers(eco_numbers(r)) == offsets_of_lines(lines(s@)),
    {
        let short_offset = Self::get_short_option_offset(s);
        let long_offset = Self::get_long_option_offset(s);
        let mut result: Vec<usize> = Vec::new();
        match (short_offset, long_offset) {
            (None, None) => {},
            (None, Some(y)) => {
                result.push(y);
            },
            (Some(x), None) => {
                result.push(x);
            },
            (Some(x), Some(y)) => {
                if x == y {
                    result.push(x);
                } else {
                    result.push(x);
                    result.push(y);
                }
            },
        }
        proof {
            assert(numbers(result@) =~= offsets_of_lines(lines(s@)));
        }
        eco_vec_of_numbers(result)
    }

    /// The options of the blocks, parsed one block after the other on the
    /// calling thread.
    pub fn parse_blocks_sequential(blocks: &Vec<Vec<char>>) -> (r: Vec<Opt>)
        ensures
            opt_models(r@) == parsed_blocks(rows(blocks@)),
    {
        let mut out: Vec<Opt> = Vec::new();
        let ghost all = rows(blocks@);
        let mut i: usize = 0;
        proof {
            assert(all.take(0) =~= Seq::<Seq<char>>::empty());
            assert(opt_models(out@) =~= Seq::<OptModel>::empty());
        }
        while i < blocks.len()
            invariant
                i <= blocks@.len(),
                all == rows(blocks@),
                opt_models(out@) == parsed_blocks(all.take(i as int)),
            decreases blocks@.len() - i,
        {
            let mut opts = Parser::parse_chars(blocks[i].as_slice());
            let ghost prev = out@;
            let ghost more = opts@;
            out.append(&mut opts);
            proof {
                assert(opt_models(out@) =~= opt_models(prev) + opt_models(more));
                let next = all.take(i + 1);
                assert(next.drop_last() =~= all.take(i as int));
                assert(next.last() == blocks@[i as int]@);
            }
            i += 1;
        }
        proof {
            assert(all.take(blocks@.len() as int) =~= all);
        }
        out
    }

    /// The options of the blocks, each block parsed by a worker thread, and
    /// the results put together in the order of the blocks: the same as
    /// `parse_blocks_sequential` returns.
    pub fn parse_blocks_parallel(blocks: &Vec<Vec<char>>) -> (r: Vec<Opt>)
        ensures
            opt_models(r@) == parsed_blocks(rows(blocks@)),
    {
        let parts = parse_each(blocks);
        let mut out: Vec<Opt> = Vec::new();
        let ghost all = rows(blocks@);
        let ghost given = parts@;
        proof {
            assert(all.take(0) =~= Seq::<Seq<char>>::empty());
            assert(opt_models(out@) =~= Seq::<OptModel>::empty());
        }
        for part in it: parts
            invariant
                it.seq() == given,
                given.len() == blocks@.len(),
                all == rows(blocks@),
                forall|k: int|
                    0 <= k < given.len() ==> opt_models(#[trigger] given[k]@) == parsed(all[k]),
                opt_models(out@) == parsed_blocks(all.take(it.index() as int)),
        {
            let mut opts = part;
            let ghost prev = out@;
            let ghost more = opts@;
            out.append(&mut opts);
            proof {
                let i = it.index() as int;
                assert(more == given[i]@);
                assert(opt_models(out@) =~= opt_models(prev) + opt_models(more));
                let next = all.take(i + 1);
                assert(next.drop_last() =~= all.take(i));
                assert(next.last() == all[i]);
            }
        }
        proof {
            assert(all.take(blocks@.len() as int) =~= all);
        }
        out
    }

    /// The pairs of the blocks, one block after the other on the calling
    /// thread.
    pub fn preprocess_blocks_sequential(blocks: &Vec<Vec<char>>) -> (r: Vec<(Vec<char>, Vec<char>)>)
        ensures
            pair_rows(r@) == preprocessed_blocks(rows(blocks@)),
    {
        let mut out: Vec<(Vec<char>, Vec<char>)> = Vec::new();
        let ghost all = rows(blocks@);
        let mut i: usize = 0;
        proof {
            assert(all.take(0) =~= Seq::<Seq<char>>::empty());
            assert(pair_rows(out@) =~= Seq::<(Seq<char>, Seq<char>)>::empty());
        }
        while i < blocks.len()
            invariant
                i <= blocks@.len(),
                all == rows(blocks@),
                pair_rows(out@) == preprocessed_blocks(all.take(i as int)),
            decreases blocks@.len() - i,
        {
            let mut pairs = Parser::preprocess_chars(blocks[i].as_slice());
            let ghost prev = out@;
            let ghost more = pairs@;
            out.append(&mut pairs);
            proof {
                assert(pair_rows(out@) =~= pair_rows(prev) + pair_rows(more));
                let next = all.take(i + 1);
                assert(next.drop_last() =~= all.take(i as int));
                assert(next.last() == blocks@[i as int]@);
            }
            i += 1;
        }
        proof {
            assert(all.take(blocks@.len() as int) =~= all);
        }
        out
    }

    /// The pairs of the blocks, each block taken by a worker thread, and the
    /// results put together in the order of the blocks: the same as
    /// `preprocess_blocks_sequential` returns.
    pub fn preprocess_blocks_parallel(blocks: &Vec<Vec<char>>) -> (r: Vec<(Vec<char>, Vec<char>)>)
        ensures
            pair_rows(r@) == preprocessed_blocks(rows(blocks@)),
    {
        let parts = preprocess_each(blocks);
        let mut out: Vec<(Vec<char>, Vec<char>)> = Vec::new();
        let ghost all = rows(blocks@);
        let ghost given = parts@;
        proof {
            assert(all.take(0) =~= Seq::<Seq<char>>::empty());
            assert(pair_rows(out@) =~= Seq::<(Seq<char>, Seq<char>)>::empty());
        }
        for part in it: parts
            invariant
                it.seq() == given,
                given.len() == blocks@.len(),
                all == rows(blocks@),
                forall|k: int|
                    0 <= k < given.len() ==> pair_rows(#[trigger] given[k]@) == preprocessed(
                        all[k],
                    ),
                pair_rows(out@) == preprocessed_blocks(all.take(it.index() as int)),
        {
            let mut pairs = part;
            let ghost prev = out@;
            let ghost more = pairs@;
            out.append(&mut pairs);
            proof {
                let i = it.index() as int;
                assert(more == given[i]@);
                assert(pair_rows(out@) =~= pair_rows(prev) + pair_rows(more));
                let next = all.take(i + 1);
                assert(next.drop_last() =~= all.take(i));
                assert(next.last() == all[i]);
            }
        }
        proof {
            assert(all.take(blocks@.len() as int) =~= all);
        }
        out
    }

    /// The options of `content`: those of each of its blocks, in the order of
    /// the blocks. With more than four blocks the blocks are parsed by worker
    /// threads; the result is the same on either way, and the same each time.
    pub fn parse_blockwise(content: &str) -> (r: EcoVec<Opt>)
        ensures
            opt_models(eco_opts(r)) == parsed_blocks(blocks(content@)),
            forall|i: int| 0 <= i < eco_opts(r).len() ==> well_formed(#[trigger] eco_opts(r)[i]@),
            !content@.contains('-') ==> eco_opts(r).len() == 0,
    {
        eco_vec_of_opts(Self::parse_options(content))
    }

    /// The options of `content`, as a vector: see `parse_blockwise`.
    pub fn parse_options(content: &str) -> (r: Vec<Opt>)
        ensures
            opt_models(r@) == parsed_blocks(blocks(content@)),
            forall|i: int| 0 <= i < r@.len() ==> well_formed(#[trigger] r@[i]@),
            !content@.contains('-') ==> r@.len() == 0,
    {
        let bs = Self::block_rows(content);
        let opts = if bs.len() > PARALLEL_THRESHOLD {
            Self::parse_blocks_parallel(&bs)
        } else {
            Self::parse_blocks_sequential(&bs)
        };
        proof {
            lemma_parsed_blocks_well_formed(blocks(content@));
            assert forall|i: int| 0 <= i < opts@.len() implies well_formed(#[trigger] opts@[i]@) by {
                assert(opt_models(opts@)[i] == opts@[i]@);
            }
            if !content@.contains('-') {
                lemma_no_dash_no_blocks(content@);
                assert(opt_models(opts@).len() == 0);
            }
        }
        opts
    }

    /// The pairs of option text and description of `content`: those of each
    /// of its blocks, in the order of the blocks. With more than four blocks
    /// the blocks are taken by worker threads; the result is the same on
    /// either way.
    pub fn preprocess_blockwise(content: &str) -> (r: EcoVec<(EcoString, EcoString)>)
        ensures
            eco_pairs(r) == preprocessed_blocks(blocks(content@)),
    {
        let bs = Self::block_rows(content);
        let pairs = if bs.len() > PARALLEL_THRESHOLD {
            Self::preprocess_blocks_parallel(&bs)
        } else {
            Self::preprocess_blocks_sequential(&bs)
        };
        eco_vec_of_pairs(pair_strings(&pairs))
    }

    /// The blocks of `content`, each as its characters.
    pub fn block_rows(content: &str) -> (r: Vec<Vec<char>>)
        ensures
            rows(r@) == blocks(content@),
    {
        if !holds_ascii(content, 45u8) {
            proof {
                assert(45u8 as char == '-');
                lemma_no_dash_no_blocks(content@);
                assert(rows(Seq::<Vec<char>>::empty()) =~= Seq::<Seq<char>>::empty());
            }
            return Vec::new();
        }
        let ls = byte_lines(content);
        let mut out: Vec<Vec<char>> = Vec::new();
        let mut cur: Vec<char> = Vec::new();
        let mut i: usize = 0;
        proof {
            assert(rows(ls@).skip(0) =~= rows(ls@));
            assert(rows(out@) + blocks_from(rows(ls@), cur@) =~= blocks_from(rows(ls@), cur@));
            assert(cur@ =~= Seq::<char>::empty());
        }
        while i < ls.len()
            invariant
                i <= ls@.len(),
                blocks(content@) == rows(out@) + blocks_from(rows(ls@).skip(i as int), cur@),
            decreases ls@.len() - i,
        {
            let line = ls[i].as_slice();
            let ghost rest = rows(ls@).skip(i as int);
            let ghost done = rows(out@);
            proof {
                assert(rest[0] == line@);
                assert(rest.drop_first() =~= rows(ls@).skip(i + 1));
                assert(line@.skip(0) =~= line@);
            }
            let a = run_from(line, 0, CharClass::Space);
            if a == line.len() {
                if cur.len() > 0 {
                    let ghost block = cur@;
                    out.push(cur);
                    cur = Vec::new();
                    proof {
                        assert(rows(out@) =~= done.push(block));
                        assert(cur@ =~= Seq::<char>::empty());
                        assert(done.push(block) + blocks_from(rest.drop_first(), seq![]) =~= done
                            + (seq![block] + blocks_from(rest.drop_first(), seq![])));
                    }
                } else {
                    proof {
                        assert(cur@ =~= Seq::<char>::empty());
                    }
                }
            } else if line[a] == '-' || cur.len() > 0 {
                let ghost before = cur@;
                if cur.len() > 0 {
                    cur.push('\n');
                }
                push_all(&mut cur, line);
                proof {
                    assert(trim_start(line@)[0] == line@[a as int]);
                    if before.len() > 0 {
                        assert(cur@ =~= before + seq!['\n'] + line@);
                    } else {
                        assert(cur@ =~= line@);
                    }
                }
            } else {
                proof {
                    assert(trim_start(line@)[0] == line@[a as int]);
                    assert(cur@ =~= Seq::<char>::empty());
                }
            }
            i += 1;
        }
        if cur.len() > 0 {
            let ghost done = rows(out@);
            let ghost block = cur@;
            out.push(cur);
            proof {
                assert(rows(out@) =~= done.push(block));
                assert(done.push(block) =~= done + seq![block]);
            }
        } else {
            proof {
                assert(rows(out@) + Seq::<Seq<char>>::empty() =~= rows(out@));
            }
        }
        out
    }

    /// The blocks of `content`: see `blocks_from`. A text that holds no dash
    /// has none.
    pub fn split_into_blocks(content: &str) -> (r: Vec<String>)
        ensures
            texts(r@) == blocks(content@),
            !content@.contains('-') ==> r@.len() == 0,
    {
        proof {
            if !content@.contains('-') {
                lemma_no_dash_no_blocks(content@);
            }
        }
        let bs = Self::block_rows(content);
        strings_of(&bs)
    }
}

} // verus!
