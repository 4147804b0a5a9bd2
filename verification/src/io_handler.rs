//! Bringing a help text into shape before it is parsed: tabs and doubled
//! spaces.

use vstd::prelude::*;
use ecow::EcoString;
use crate::encoding::holds_ascii;
use crate::foreign::{byte_lines_with_ends, eco_string, eco_text};
use crate::postprocessor::{lemma_tabs_expanded_unchanged, tabs_expanded, Postprocessor};
use crate::text::{chars_of, lemma_lines_kept_first, lines_kept, push_all, rows, string_of};

verus! {

/// Brings help texts into shape.
pub struct IoHandler;

/// The width of a tab, in spaces.
pub const TAB_WIDTH: usize = 8;

/// Whether `s` holds two spaces side by side.
pub open spec fn has_double_space(s: Seq<char>) -> bool {
    exists|i: int| 0 <= i && i + 1 < s.len() && #[trigger] s[i] == ' ' && s[i + 1] == ' '
}

/// The text with each pair of spaces replaced by one space, pairs taken
/// from left to right and never overlapping: of three spaces two are left, of
/// four two, of eight four.
pub open spec fn pairs_collapsed(s: Seq<char>) -> Seq<char>
    decreases s.len(),
{
    if s.len() >= 2 && s[0] == ' ' && s[1] == ' ' {
        seq![' '] + pairs_collapsed(s.skip(2))
    } else if s.len() > 0 {
        seq![s[0]] + pairs_collapsed(s.drop_first())
    } else {
        seq![]
    }
}

/// The text brought into shape: each tab replaced by eight spaces, and then
/// each pair of spaces by one space, pairs taken from left to right.
pub open spec fn normalized(s: Seq<char>) -> Seq<char> {
    pairs_collapsed(tabs_expanded(s, TAB_WIDTH as nat))
}

/// A text without two spaces side by side has no pair to collapse, and stays
/// as it is.
pub proof fn lemma_pairs_collapsed_unchanged(s: Seq<char>)
    requires
        !has_double_space(s),
    ensures
        pairs_collapsed(s) == s,
    decreases s.len(),
{
    if s.len() > 0 {
        let t = s.drop_first();
        if s.len() >= 2 {
            assert(!(s[0int] == ' ' && s[0int + 1] == ' '));
        }
        if has_double_space(t) {
            let i = choose|i: int| 0 <= i && i + 1 < t.len() && #[trigger] t[i] == ' ' && t[i + 1]
                == ' ';
            assert(s[i + 1] == ' ' && s[(i + 1) + 1] == ' ');
        }
        lemma_pairs_collapsed_unchanged(t);
        assert(seq![s[0]] + t =~= s);
    } else {
        assert(pairs_collapsed(s) =~= s);
    }
}

/// Replacing tabs goes part by part.
pub proof fn lemma_tabs_expanded_concat(a: Seq<char>, b: Seq<char>, width: nat)
    ensures
        tabs_expanded(a + b, width) == tabs_expanded(a, width) + tabs_expanded(b, width),
    decreases b.len(),
{
    if b.len() == 0 {
        assert(a + b =~= a);
        assert(tabs_expanded(a, width) + tabs_expanded(b, width) =~= tabs_expanded(a, width));
    } else {
        assert((a + b).drop_last() =~= a + b.drop_last());
        assert((a + b).last() == b.last());
        lemma_tabs_expanded_concat(a, b.drop_last(), width);
        if b.last() == '\t' {
            assert(tabs_expanded(a + b, width) =~= tabs_expanded(a, width) + tabs_expanded(
                b,
                width,
            ));
        } else {
            assert(tabs_expanded(a + b, width) =~= tabs_expanded(a, width) + tabs_expanded(
                b,
                width,
            ));
        }
    }
}

/// Collapsing pairs goes part by part where the first part does not end
/// with a space: no pair reaches from one part into the other.
pub proof fn lemma_pairs_collapsed_concat(a: Seq<char>, b: Seq<char>)
    requires
        a.len() > 0,
        a.last() != ' ',
    ensures
        pairs_collapsed(a + b) == pairs_collapsed(a) + pairs_collapsed(b),
    decreases a.len(),
{
    let all = a + b;
    assert(all[0] == a[0]);
    if a.len() == 1 {
        assert(all.drop_first() =~= b);
        assert(pairs_collapsed(a.drop_first()) =~= Seq::<char>::empty());
        assert(pairs_collapsed(a) =~= seq![a[0]]);
    } else {
        assert(all[1] == a[1]);
        if a[0] == ' ' && a[1] == ' ' {
            assert(a.len() >= 3);
            assert(all.skip(2) =~= a.skip(2) + b);
            assert(a.skip(2).last() == a.last());
            lemma_pairs_collapsed_concat(a.skip(2), b);
            assert(pairs_collapsed(all) =~= pairs_collapsed(a) + pairs_collapsed(b));
        } else {
            assert(all.drop_first() =~= a.drop_first() + b);
            assert(a.drop_first().last() == a.last());
            lemma_pairs_collapsed_concat(a.drop_first(), b);
            assert(pairs_collapsed(all) =~= pairs_collapsed(a) + pairs_collapsed(b));
        }
    }
}

/// Bringing a text into shape goes line by line: a text that ends with a
/// line feed and the text that follows it are shaped each by itself.
pub proof fn lemma_normalized_concat(a: Seq<char>, b: Seq<char>)
    requires
        a.len() > 0,
        a.last() == '\n',
    ensures
        normalized(a + b) == normalized(a) + normalized(b),
{
    let width = TAB_WIDTH as nat;
    lemma_tabs_expanded_concat(a, b, width);
    let ea = tabs_expanded(a, width);
    assert(ea == tabs_expanded(a.drop_last(), width).push('\n'));
    assert(ea.last() == '\n');
    lemma_pairs_collapsed_concat(ea, tabs_expanded(b, width));
}

/// The quick way out and the full way agree: a text that holds neither a tab
/// nor two spaces side by side comes out of the full way as it went in.
pub proof fn lemma_normalize_paths_agree(s: Seq<char>)
    requires
        !s.contains('\t'),
        !has_double_space(s),
    ensures
        normalized(s) == s,
{
    lemma_tabs_expanded_unchanged(s, TAB_WIDTH as nat);
    lemma_pairs_collapsed_unchanged(s);
}

/// Whether `s` holds two spaces side by side.
pub fn holds_double_space(s: &[char]) -> (r: bool)
    ensures
        r == has_double_space(s@),
{
    let mut i: usize = 0;
    while i < s.len()
        invariant
            i <= s@.len(),
            forall|j: int| 0 <= j < i && j + 1 < s@.len() ==> !(#[trigger] s@[j] == ' ' && s@[j + 1]
                == ' '),
        decreases s@.len() - i,
    {
        if s[i] == ' ' && i + 1 < s.len() && s[i + 1] == ' ' {
            return true;
        }
        i += 1;
    }
    false
}

/// The characters of `s` with each pair of spaces replaced by one space.
pub fn collapse_pairs(s: &[char]) -> (r: Vec<char>)
    ensures
        r@ == pairs_collapsed(s@),
{
    let mut out: Vec<char> = Vec::new();
    let mut i: usize = 0;
    proof {
        assert(s@.skip(0) =~= s@);
        assert(out@ + pairs_collapsed(s@) =~= pairs_collapsed(s@));
    }
    while i < s.len()
        invariant
            i <= s@.len(),
            pairs_collapsed(s@) == out@ + pairs_collapsed(s@.skip(i as int)),
        decreases s@.len() - i,
    {
        let ghost rest = s@.skip(i as int);
        let ghost before = out@;
        if s[i] == ' ' && i + 1 < s.len() && s[i + 1] == ' ' {
            out.push(' ');
            proof {
                assert(rest[0] == ' ' && rest[1] == ' ');
                assert(rest.skip(2) =~= s@.skip(i + 2));
                assert(before.push(' ') + pairs_collapsed(rest.skip(2)) =~= before + (seq![' ']
                    + pairs_collapsed(rest.skip(2))));
            }
            i += 2;
        } else {
            out.push(s[i]);
            proof {
                assert(rest[0] == s@[i as int]);
                if rest.len() >= 2 {
                    assert(rest[1] == s@[i + 1]);
                }
                assert(rest.drop_first() =~= s@.skip(i + 1));
                assert(before.push(rest[0]) + pairs_collapsed(rest.drop_first()) =~= before + (
                seq![rest[0]] + pairs_collapsed(rest.drop_first())));
            }
            i += 1;
        }
    }
    proof {
        assert(out@ + Seq::<char>::empty() =~= out@);
    }
    out
}

impl IoHandler {
    /// `text` brought into shape: each tab replaced by eight spaces, and
    /// then each pair of spaces, from left to right, by one space. Line ends
    /// stay as they are. A text that holds neither a tab nor two spaces side
    /// by side comes back as it is; any other text is shaped line by line,
    /// which gives the same as shaping it as a whole.
    pub fn normalize_text(text: &str) -> (r: EcoString)
        ensures
            eco_text(r) == normalized(text@),
            !text@.contains('\t') && !has_double_space(text@) ==> eco_text(r) == text@,
    {
        eco_string(Self::normalized_string(text))
    }

    /// `text` brought into shape, as a string: see `normalize_text`.
    pub fn normalized_string(text: &str) -> (r: String)
        ensures
            r@ == normalized(text@),
            !text@.contains('\t') && !has_double_space(text@) ==> r@ == text@,
    {
        let chars = chars_of(text);
        let has_tabs = holds_ascii(text, 9u8);
        let has_double_spaces = holds_double_space(chars.as_slice());
        proof {
            assert(9u8 as char == '\t');
            if !text@.contains('\t') && !has_double_space(text@) {
                lemma_normalize_paths_agree(text@);
            }
        }
        if !has_tabs && !has_double_spaces {
            return text.to_owned();
        }
        let ls = byte_lines_with_ends(text);
        let mut out: Vec<char> = Vec::new();
        let ghost mut rest = text@;
        let mut i: usize = 0;
        proof {
            assert(rows(ls@).skip(0) =~= rows(ls@));
            assert(out@ + normalized(rest) =~= normalized(rest));
        }
        while i < ls.len()
            invariant
                i <= ls@.len(),
                lines_kept(rest) == rows(ls@).skip(i as int),
                normalized(text@) == out@ + normalized(rest),
            decreases ls@.len() - i,
        {
            let line = ls[i].as_slice();
            let ghost before = out@;
            proof {
                assert(rows(ls@).skip(i as int)[0] == line@);
                assert(rest.len() > 0);
                lemma_lines_kept_first(rest);
                assert(rows(ls@).skip(i as int).drop_first() =~= rows(ls@).skip(i + 1));
                let after = rest.skip(line@.len() as int);
                assert(rest =~= line@ + after);
                if line@.len() < rest.len() {
                    lemma_normalized_concat(line@, after);
                } else {
                    assert(after =~= Seq::<char>::empty());
                    assert(normalized(after) =~= Seq::<char>::empty());
                    assert(line@ + after =~= line@);
                }
                assert(normalized(rest) =~= normalized(line@) + normalized(after));
                rest = after;
            }
            let expanded = Postprocessor::expand_tabs(line, TAB_WIDTH);
            let collapsed = collapse_pairs(expanded.as_slice());
            push_all(&mut out, collapsed.as_slice());
            proof {
                assert(out@ + normalized(rest) =~= before + (normalized(line@) + normalized(rest)));
            }
            i += 1;
        }
        proof {
            if rest.len() > 0 {
                lemma_lines_kept_first(rest);
            }
            assert(normalized(rest) =~= Seq::<char>::empty());
            assert(out@ + Seq::<char>::empty() =~= out@);
        }
        string_of(out.as_slice())
    }
}

} // verus!
