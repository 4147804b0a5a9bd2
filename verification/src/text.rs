//! Sequences of characters: runs, trimming, words, lines, joining and
//! searching, each as a spec function with the routine that computes it.

use vstd::prelude::*;
use crate::chars::{
    ascii_lower, class_holds, folds_to, in_class, is_space, is_space_char, utf8_width, CharClass,
};

verus! {

/// The length of the longest prefix of `s` whose characters all belong to `k`.
pub open spec fn run_len(s: Seq<char>, k: CharClass) -> nat
    decreases s.len(),
{
    if s.len() > 0 && in_class(k, s[0]) {
        1 + run_len(s.drop_first(), k)
    } else {
        0
    }
}

/// The length of the longest suffix of `s` whose characters all belong to `k`.
pub open spec fn back_run_len(s: Seq<char>, k: CharClass) -> nat
    decreases s.len(),
{
    if s.len() > 0 && in_class(k, s.last()) {
        1 + back_run_len(s.drop_last(), k)
    } else {
        0
    }
}

/// `s` without its leading white space.
pub open spec fn trim_start(s: Seq<char>) -> Seq<char> {
    s.skip(run_len(s, CharClass::Space) as int)
}

/// `s` without its trailing white space.
pub open spec fn trim_end(s: Seq<char>) -> Seq<char> {
    s.take(s.len() - back_run_len(s, CharClass::Space))
}

/// `s` without its leading and trailing white space.
pub open spec fn trim(s: Seq<char>) -> Seq<char> {
    trim_end(trim_start(s))
}

/// Whether `s` is empty or white space only.
pub open spec fn is_blank(s: Seq<char>) -> bool {
    run_len(s, CharClass::Space) == s.len()
}

/// Whether the first character of `s` is `c`.
pub open spec fn starts_with_char(s: Seq<char>, c: char) -> bool {
    s.len() > 0 && s[0] == c
}

/// The words of `s`: its maximal runs of characters that are not white space,
/// from left to right.
pub open spec fn words(s: Seq<char>) -> Seq<Seq<char>>
    decreases s.len(),
{
    if s.len() == 0 {
        seq![]
    } else if is_space(s[0]) {
        words(s.drop_first())
    } else {
        let n = run_len(s, CharClass::Word);
        proof {
            lemma_run_len_bounds(s, CharClass::Word);
        }
        seq![s.take(n as int)] + words(s.skip(n as int))
    }
}

/// `s` without one trailing carriage return.
pub open spec fn strip_cr(s: Seq<char>) -> Seq<char> {
    if s.len() > 0 && s.last() == '\r' {
        s.drop_last()
    } else {
        s
    }
}

/// The lines of `s`. A line ends at a line feed, or at the end of `s` where
/// the last line has no line feed; the line feed, and a carriage return
/// directly before it, are not part of the line. An empty `s` has no lines.
pub open spec fn lines(s: Seq<char>) -> Seq<Seq<char>>
    decreases s.len(),
{
    if s.len() == 0 {
        seq![]
    } else {
        let n = run_len(s, CharClass::Until('\n'));
        if n >= s.len() {
            seq![s]
        } else {
            seq![strip_cr(s.take(n as int))] + lines(s.skip(n as int + 1))
        }
    }
}

/// The lines of `s`, each with the line feed that ends it: put together, they
/// are `s`. The last line has no line feed where `s` does not end with one.
pub open spec fn lines_kept(s: Seq<char>) -> Seq<Seq<char>>
    decreases s.len(),
{
    if s.len() == 0 {
        seq![]
    } else {
        let n = run_len(s, CharClass::Until('\n'));
        if n >= s.len() {
            seq![s]
        } else {
            seq![s.take(n as int + 1)] + lines_kept(s.skip(n as int + 1))
        }
    }
}

/// The pieces of `s` between its separators `,`, `/` and `|`. There is one
/// piece more than there are separators: pieces may be empty.
pub open spec fn groups(s: Seq<char>) -> Seq<Seq<char>>
    decreases s.len(),
{
    let n = run_len(s, CharClass::Plain);
    if n >= s.len() {
        seq![s]
    } else {
        seq![s.take(n as int)] + groups(s.skip(n as int + 1))
    }
}

/// The parts, with `sep` between each two neighbours.
pub open spec fn join(parts: Seq<Seq<char>>, sep: Seq<char>) -> Seq<char>
    decreases parts.len(),
{
    if parts.len() == 0 {
        seq![]
    } else if parts.len() == 1 {
        parts[0]
    } else {
        join(parts.drop_last(), sep) + sep + parts.last()
    }
}

/// The parts put together with nothing between them.
pub open spec fn cat(parts: Seq<Seq<char>>) -> Seq<char> {
    join(parts, Seq::<char>::empty())
}

/// The part of `s` before its first line feed.
pub open spec fn first_line(s: Seq<char>) -> Seq<char> {
    s.take(run_len(s, CharClass::Until('\n')) as int)
}

/// Whether `p` occurs in `s` as a block of neighbouring characters.
pub open spec fn contains_seq(s: Seq<char>, p: Seq<char>) -> bool {
    exists|i: int| 0 <= i && i + p.len() <= s.len() && #[trigger] s.subrange(i, i + p.len()) == p
}

/// The text with the letters `A` to `Z` folded to `a` to `z`.
pub open spec fn folded(s: Seq<char>) -> Seq<char> {
    Seq::new(s.len(), |i: int| ascii_lower(s[i]))
}

/// The number of bytes that `s` takes in UTF-8.
pub open spec fn utf8_len(s: Seq<char>) -> nat
    decreases s.len(),
{
    if s.len() == 0 {
        0
    } else {
        utf8_len(s.drop_last()) + utf8_width(s.last())
    }
}

/// The views of the rows of `v`.
pub open spec fn rows(v: Seq<Vec<char>>) -> Seq<Seq<char>> {
    v.map_values(|w: Vec<char>| w@)
}

/// The views of the strings of `v`.
pub open spec fn texts(v: Seq<String>) -> Seq<Seq<char>> {
    v.map_values(|w: String| w@)
}

/// A run is bounded by the sequence, covers only characters of its class, and
/// stops at the first character outside it.
pub proof fn lemma_run_len_bounds(s: Seq<char>, k: CharClass)
    ensures
        run_len(s, k) <= s.len(),
        forall|j: int| 0 <= j < run_len(s, k) ==> in_class(k, #[trigger] s[j]),
        run_len(s, k) < s.len() ==> !in_class(k, s[run_len(s, k) as int]),
    decreases s.len(),
{
    if s.len() > 0 && in_class(k, s[0]) {
        let t = s.drop_first();
        lemma_run_len_bounds(t, k);
        assert forall|j: int| 0 <= j < run_len(s, k) implies in_class(k, #[trigger] s[j]) by {
            if j > 0 {
                assert(s[j] == t[j - 1]);
            }
        }
        if run_len(s, k) < s.len() {
            assert(s[run_len(s, k) as int] == t[run_len(t, k) as int]);
        }
    }
}

/// Any `n` with the three properties of a run is the run's length.
pub proof fn lemma_run_len_is(s: Seq<char>, k: CharClass, n: int)
    requires
        0 <= n <= s.len(),
        forall|j: int| 0 <= j < n ==> in_class(k, #[trigger] s[j]),
        n < s.len() ==> !in_class(k, s[n]),
    ensures
        run_len(s, k) == n,
    decreases n,
{
    if n > 0 {
        let t = s.drop_first();
        assert(in_class(k, s[0]));
        assert forall|j: int| 0 <= j < n - 1 implies in_class(k, #[trigger] t[j]) by {
            assert(t[j] == s[j + 1]);
        }
        if n - 1 < t.len() {
            assert(t[n - 1] == s[n]);
        }
        lemma_run_len_is(t, k, n - 1);
    }
}

/// The counterpart of `lemma_run_len_is` for runs at the end.
pub proof fn lemma_back_run_len_is(s: Seq<char>, k: CharClass, n: int)
    requires
        0 <= n <= s.len(),
        forall|j: int| s.len() - n <= j < s.len() ==> in_class(k, #[trigger] s[j]),
        n < s.len() ==> !in_class(k, s[s.len() - n - 1]),
    ensures
        back_run_len(s, k) == n,
    decreases n,
{
    if n > 0 {
        let t = s.drop_last();
        assert(in_class(k, s[s.len() - 1]));
        assert forall|j: int| t.len() - (n - 1) <= j < t.len() implies in_class(
            k,
            #[trigger] t[j],
        ) by {
            assert(t[j] == s[j]);
        }
        if n - 1 < t.len() {
            assert(t[t.len() - (n - 1) - 1] == s[s.len() - n - 1]);
        }
        lemma_back_run_len_is(t, k, n - 1);
    }
}

/// A text that does not start with white space has at least one word, unless
/// it is empty.
pub proof fn lemma_words_of_unspaced_start(s: Seq<char>)
    requires
        s.len() > 0,
        !is_space(s[0]),
    ensures
        words(s).len() > 0,
{
}

/// A text that is not empty has a line.
pub proof fn lemma_lines_of_nonempty(s: Seq<char>)
    requires
        s.len() > 0,
    ensures
        lines(s).len() > 0,
{
}

/// Every line of a text is a part of it.
pub proof fn lemma_line_is_part(s: Seq<char>, i: int) -> (r: (int, int))
    requires
        0 <= i < lines(s).len(),
    ensures
        0 <= r.0 <= r.1 <= s.len(),
        lines(s)[i] == s.subrange(r.0, r.1),
    decreases s.len(),
{
    let n = run_len(s, CharClass::Until('\n')) as int;
    lemma_run_len_bounds(s, CharClass::Until('\n'));
    if n >= s.len() {
        assert(s.subrange(0, s.len() as int) =~= s);
        (0, s.len() as int)
    } else if i == 0 {
        let first = s.take(n);
        if first.len() > 0 && first.last() == '\r' {
            assert(first.drop_last() =~= s.subrange(0, n - 1));
            (0, n - 1)
        } else {
            assert(first =~= s.subrange(0, n));
            (0, n)
        }
    } else {
        let rest = s.skip(n + 1);
        let (a, b) = lemma_line_is_part(rest, i - 1);
        assert(rest.subrange(a, b) =~= s.subrange(a + n + 1, b + n + 1));
        (a + n + 1, b + n + 1)
    }
}

/// Every character of a line of a text is a character of the text.
pub proof fn lemma_line_chars(s: Seq<char>, i: int, j: int)
    requires
        0 <= i < lines(s).len(),
        0 <= j < lines(s)[i].len(),
    ensures
        s.contains(lines(s)[i][j]),
{
    let (a, b) = lemma_line_is_part(s, i);
    assert(s.subrange(a, b)[j] == s[a + j]);
}

/// A text that is not empty is its first line, kept with its line feed, and
/// what follows; the first line is not empty, only its last character can
/// be a line feed, and the lines of what follows are the other lines of the
/// text.
pub proof fn lemma_lines_kept_first(s: Seq<char>)
    requires
        s.len() > 0,
    ensures
        lines_kept(s).len() > 0,
        0 < lines_kept(s)[0].len() <= s.len(),
        lines_kept(s)[0] == s.take(lines_kept(s)[0].len() as int),
        lines_kept(s).drop_first() == lines_kept(s.skip(lines_kept(s)[0].len() as int)),
        lines_kept(s)[0].len() < s.len() ==> lines_kept(s)[0].last() == '\n',
{
    let n = run_len(s, CharClass::Until('\n')) as int;
    lemma_run_len_bounds(s, CharClass::Until('\n'));
    if n >= s.len() {
        assert(s.take(s.len() as int) =~= s);
        assert(lines_kept(s).drop_first() =~= Seq::<Seq<char>>::empty());
        assert(s.skip(s.len() as int).len() == 0);
    } else {
        assert(lines_kept(s).drop_first() =~= lines_kept(s.skip(n + 1)));
        assert(s.take(n + 1).last() == s[n]);
    }
}

/// Joining one part more appends the separator and the part; the first
/// part is appended alone.
pub proof fn lemma_join_next(parts: Seq<Seq<char>>, i: int, sep: Seq<char>)
    requires
        0 <= i < parts.len(),
    ensures
        i == 0 ==> join(parts.take(i + 1), sep) == parts[0],
        i > 0 ==> join(parts.take(i + 1), sep) == join(parts.take(i), sep) + sep + parts[i],
{
    let upto = parts.take(i + 1);
    assert(upto.drop_last() =~= parts.take(i));
    assert(upto.last() == parts[i]);
}

/// Each character takes at least one byte.
pub proof fn lemma_utf8_len_at_least(s: Seq<char>)
    ensures
        utf8_len(s) >= s.len(),
    decreases s.len(),
{
    if s.len() > 0 {
        lemma_utf8_len_at_least(s.drop_last());
    }
}

/// The byte length of a text of at most two characters, and a lower bound for
/// longer ones.
pub proof fn lemma_utf8_len_short(s: Seq<char>)
    ensures
        s.len() == 1 ==> utf8_len(s) == utf8_width(s[0]),
        s.len() == 2 ==> utf8_len(s) == utf8_width(s[0]) + utf8_width(s[1]),
        s.len() > 2 ==> utf8_len(s) > 2,
{
    lemma_utf8_len_at_least(s);
    if s.len() == 1 {
        assert(utf8_len(s.drop_last()) == 0);
    } else if s.len() == 2 {
        let t = s.drop_last();
        assert(utf8_len(t.drop_last()) == 0);
        assert(t.last() == s[0]);
        assert(utf8_len(t) == utf8_len(t.drop_last()) + utf8_width(t.last()));
    }
}

/// The byte length of a text is the sum of those of its two parts.
pub proof fn lemma_utf8_len_concat(a: Seq<char>, b: Seq<char>)
    ensures
        utf8_len(a + b) == utf8_len(a) + utf8_len(b),
    decreases b.len(),
{
    if b.len() == 0 {
        assert(a + b =~= a);
    } else {
        assert((a + b).drop_last() =~= a + b.drop_last());
        lemma_utf8_len_concat(a, b.drop_last());
    }
}

/// A part of a text takes no more bytes than the text.
pub proof fn lemma_utf8_len_part(s: Seq<char>, a: int, b: int)
    requires
        0 <= a <= b <= s.len(),
    ensures
        utf8_len(s.subrange(a, b)) <= utf8_len(s),
{
    let left = s.take(a);
    let mid = s.subrange(a, b);
    let right = s.skip(b);
    assert(s =~= (left + mid) + right);
    lemma_utf8_len_concat(left + mid, right);
    lemma_utf8_len_concat(left, mid);
}

/// The characters of `s`.
pub fn chars_of(s: &str) -> (r: Vec<char>)
    ensures
        r@ == s@,
{
    let mut out: Vec<char> = Vec::new();
    for c in it: s.chars()
        invariant
            out@ == it.seq().take(it.index() as int),
            it.seq() == s@,
    {
        out.push(c);
    }
    out
}

/// The string made of the characters of `s`.
pub fn string_of(s: &[char]) -> (r: String)
    ensures
        r@ == s@,
{
    let mut out = String::new();
    let mut i: usize = 0;
    while i < s.len()
        invariant
            i <= s@.len(),
            out@ == s@.take(i as int),
        decreases s@.len() - i,
    {
        out.push(s[i]);
        i += 1;
    }
    out
}

/// The strings made of the rows of `v`.
pub fn strings_of(v: &Vec<Vec<char>>) -> (r: Vec<String>)
    ensures
        texts(r@) == rows(v@),
{
    let mut out: Vec<String> = Vec::new();
    let mut i: usize = 0;
    while i < v.len()
        invariant
            i <= v@.len(),
            texts(out@) == rows(v@).take(i as int),
        decreases v@.len() - i,
    {
        let t = string_of(v[i].as_slice());
        let ghost prev = out@;
        out.push(t);
        proof {
            assert(texts(out@) =~= texts(prev).push(t@));
            assert(rows(v@).take(i + 1) =~= rows(v@).take(i as int).push(v@[i as int]@));
        }
        i += 1;
    }
    proof {
        assert(rows(v@).take(v@.len() as int) =~= rows(v@));
    }
    out
}

/// Appends the characters of `s` to `out`.
pub fn push_all(out: &mut Vec<char>, s: &[char])
    ensures
        final(out)@ == old(out)@ + s@,
{
    let mut i: usize = 0;
    while i < s.len()
        invariant
            i <= s@.len(),
            out@ == old(out)@ + s@.take(i as int),
        decreases s@.len() - i,
    {
        out.push(s[i]);
        proof {
            assert(s@.take(i + 1) =~= s@.take(i as int).push(s@[i as int]));
        }
        i += 1;
    }
    proof {
        assert(s@.take(s@.len() as int) =~= s@);
    }
}

/// The part of `s` from `from` up to `to`, copied.
pub fn copy_range(s: &[char], from: usize, to: usize) -> (r: Vec<char>)
    requires
        from <= to <= s@.len(),
    ensures
        r@ == s@.subrange(from as int, to as int),
{
    let mut out: Vec<char> = Vec::new();
    let mut i: usize = from;
    while i < to
        invariant
            from <= i <= to <= s@.len(),
            out@ == s@.subrange(from as int, i as int),
        decreases to - i,
    {
        out.push(s[i]);
        proof {
            assert(s@.subrange(from as int, i as int).push(s@[i as int]) =~= s@.subrange(
                from as int,
                i + 1,
            ));
        }
        i += 1;
    }
    out
}

/// The length of the run of class `k` that starts at `from`.
pub fn run_from(s: &[char], from: usize, k: CharClass) -> (n: usize)
    requires
        from <= s@.len(),
    ensures
        n == run_len(s@.skip(from as int), k),
        from + n <= s@.len(),
{
    let mut i: usize = from;
    while i < s.len() && class_holds(k, s[i])
        invariant
            from <= i <= s@.len(),
            forall|j: int| from <= j < i ==> in_class(k, #[trigger] s@[j]),
        decreases s@.len() - i,
    {
        i += 1;
    }
    proof {
        let t = s@.skip(from as int);
        assert forall|j: int| 0 <= j < i - from implies in_class(k, #[trigger] t[j]) by {
            assert(t[j] == s@[from + j]);
        }
        lemma_run_len_is(t, k, i - from);
    }
    i - from
}

/// Where the content of `s` starts and ends once white space is trimmed on
/// both sides.
pub fn trim_bounds(s: &[char]) -> (r: (usize, usize))
    ensures
        r.0 <= r.1 <= s@.len(),
        r.0 == run_len(s@, CharClass::Space),
        s@.skip(r.0 as int) == trim_start(s@),
        s@.subrange(r.0 as int, r.1 as int) == trim(s@),
{
    let a = run_from(s, 0, CharClass::Space);
    assert(s@.skip(0) =~= s@);
    let mut b: usize = s.len();
    while b > a && is_space_char(s[b - 1])
        invariant
            a <= b <= s@.len(),
            forall|j: int| b <= j < s@.len() ==> is_space(#[trigger] s@[j]),
        decreases b,
    {
        b -= 1;
    }
    proof {
        let t = trim_start(s@);
        let n = s@.len() - b;
        assert forall|j: int| t.len() - n <= j < t.len() implies in_class(
            CharClass::Space,
            #[trigger] t[j],
        ) by {
            assert(t[j] == s@[a + j]);
        }
        if n < t.len() {
            assert(t[t.len() - n - 1] == s@[b - 1]);
        }
        lemma_back_run_len_is(t, CharClass::Space, n);
        assert(trim(s@) =~= s@.subrange(a as int, b as int));
    }
    (a, b)
}

/// The words of `s`.
pub fn words_of(s: &[char]) -> (r: Vec<Vec<char>>)
    ensures
        rows(r@) == words(s@),
{
    let mut out: Vec<Vec<char>> = Vec::new();
    let mut i: usize = 0;
    proof {
        assert(s@.skip(0) =~= s@);
    }
    while i < s.len()
        invariant
            i <= s@.len(),
            words(s@) == rows(out@) + words(s@.skip(i as int)),
        decreases s@.len() - i,
    {
        let ghost rest = s@.skip(i as int);
        if is_space_char(s[i]) {
            proof {
                assert(rest.drop_first() =~= s@.skip(i + 1));
            }
            i += 1;
        } else {
            let n = run_from(s, i, CharClass::Word);
            let w = copy_range(s, i, i + n);
            proof {
                assert(rest.take(n as int) =~= w@);
                assert(rest.skip(n as int) =~= s@.skip(i + n));
                assert(rows(out@.push(w)) =~= rows(out@) + seq![w@]);
            }
            out.push(w);
            i += n;
        }
    }
    proof {
        assert(rows(out@) + Seq::<Seq<char>>::empty() =~= rows(out@));
    }
    out
}

/// The lines of `s`.
pub fn lines_of(s: &[char]) -> (r: Vec<Vec<char>>)
    ensures
        rows(r@) == lines(s@),
{
    let mut out: Vec<Vec<char>> = Vec::new();
    let mut i: usize = 0;
    proof {
        assert(s@.skip(0) =~= s@);
    }
    while i < s.len()
        invariant
            i <= s@.len(),
            lines(s@) == rows(out@) + lines(s@.skip(i as int)),
        decreases s@.len() - i,
    {
        let ghost rest = s@.skip(i as int);
        let n = run_from(s, i, CharClass::Until('\n'));
        if i + n >= s.len() {
            let w = copy_range(s, i, s.len());
            proof {
                assert(w@ =~= rest);
                assert(rows(out@.push(w)) =~= rows(out@) + seq![w@]);
                assert(s@.skip(s@.len() as int).len() == 0);
            }
            out.push(w);
            i = s.len();
        } else {
            let mut end: usize = i + n;
            if end > i && s[end - 1] == '\r' {
                end -= 1;
            }
            let w = copy_range(s, i, end);
            proof {
                assert(rest.take(n as int) =~= s@.subrange(i as int, i + n));
                assert(strip_cr(rest.take(n as int)) =~= w@);
                assert(rest.skip(n + 1) =~= s@.skip(i + n + 1));
                assert(rows(out@.push(w)) =~= rows(out@) + seq![w@]);
            }
            out.push(w);
            i = i + n + 1;
        }
    }
    proof {
        assert(rows(out@) + Seq::<Seq<char>>::empty() =~= rows(out@));
    }
    out
}

/// The pieces of `s` between its separators.
pub fn groups_of(s: &[char]) -> (r: Vec<Vec<char>>)
    ensures
        rows(r@) == groups(s@),
{
    let mut out: Vec<Vec<char>> = Vec::new();
    let mut i: usize = 0;
    let len = s.len();
    proof {
        assert(s@.skip(0) =~= s@);
    }
    loop
        invariant_except_break
            i <= s@.len(),
            groups(s@) == rows(out@) + groups(s@.skip(i as int)),
        invariant
            len == s@.len(),
        ensures
            rows(out@) == groups(s@),
        decreases s@.len() - i,
    {
        let ghost rest = s@.skip(i as int);
        let n = run_from(s, i, CharClass::Plain);
        let w = copy_range(s, i, i + n);
        proof {
            assert(rest.take(n as int) =~= w@);
            assert(rows(out@.push(w)) =~= rows(out@) + seq![w@]);
        }
        out.push(w);
        if i + n >= len {
            proof {
                assert(w@ =~= rest);
            }
            break ;
        }
        proof {
            assert(rest.skip(n + 1) =~= s@.skip(i + n + 1));
        }
        i = i + n + 1;
    }
    out
}

/// The rows from `from` up to `to`, with `sep` between each two neighbours.
pub fn join_range(parts: &Vec<Vec<char>>, from: usize, to: usize, sep: &[char]) -> (r: Vec<char>)
    requires
        from <= to <= parts@.len(),
    ensures
        r@ == join(rows(parts@).subrange(from as int, to as int), sep@),
{
    let mut out: Vec<char> = Vec::new();
    let mut i: usize = from;
    let ghost all = rows(parts@).subrange(from as int, to as int);
    while i < to
        invariant
            from <= i <= to <= parts@.len(),
            all == rows(parts@).subrange(from as int, to as int),
            out@ == join(all.take(i - from), sep@),
        decreases to - i,
    {
        let ghost before = all.take(i - from);
        let ghost after = all.take(i - from + 1);
        proof {
            assert(after.drop_last() =~= before);
            assert(after.last() == parts@[i as int]@);
        }
        if i > from {
            push_all(&mut out, sep);
        }
        push_all(&mut out, parts[i].as_slice());
        proof {
            if i == from {
                assert(out@ =~= after[0]);
            }
        }
        i += 1;
    }
    proof {
        assert(all.take(to - from) =~= all);
    }
    out
}

/// The parts put together with nothing between them.
pub fn cat_of(parts: &Vec<Vec<char>>) -> (r: Vec<char>)
    ensures
        r@ == cat(rows(parts@)),
{
    let none: Vec<char> = Vec::new();
    proof {
        assert(rows(parts@).subrange(0, parts@.len() as int) =~= rows(parts@));
        assert(none@ =~= Seq::<char>::empty());
    }
    join_range(parts, 0, parts.len(), none.as_slice())
}

/// Whether `p` occurs in `s`.
pub fn has_seq(s: &[char], p: &[char]) -> (r: bool)
    ensures
        r == contains_seq(s@, p@),
{
    if p.len() > s.len() {
        return false;
    }
    let last: usize = s.len() - p.len();
    let mut i: usize = 0;
    while i <= last
        invariant
            i <= last + 1,
            last == s@.len() - p@.len(),
            s@.len() <= usize::MAX,
            forall|j: int| 0 <= j < i ==> #[trigger] s@.subrange(j, j + p@.len()) != p@,
        decreases last + 1 - i,
    {
        let mut k: usize = 0;
        while k < p.len() && s[i + k] == p[k]
            invariant
                k <= p@.len(),
                i + p@.len() <= s@.len() <= usize::MAX,
                forall|j: int| 0 <= j < k ==> s@[i + j] == p@[j],
            decreases p@.len() - k,
        {
            k += 1;
        }
        if k == p.len() {
            proof {
                assert(s@.subrange(i as int, i + p@.len()) =~= p@);
            }
            return true;
        }
        proof {
            assert(s@.subrange(i as int, i + p@.len())[k as int] == s@[i + k]);
        }
        i += 1;
    }
    false
}

/// Whether the character `c` occurs in `s`.
pub fn has_char(s: &[char], c: char) -> (r: bool)
    ensures
        r == s@.contains(c),
{
    let n = run_from(s, 0, CharClass::Until(c));
    proof {
        assert(s@.skip(0) =~= s@);
        lemma_run_len_bounds(s@, CharClass::Until(c));
    }
    n < s.len()
}

/// Whether `p` occurs in `s` once the letters of `s` are folded.
pub fn has_folded(s: &[char], p: &[char]) -> (r: bool)
    ensures
        r == contains_seq(folded(s@), p@),
{
    if p.len() > s.len() {
        return false;
    }
    let last: usize = s.len() - p.len();
    let ghost f = folded(s@);
    let mut i: usize = 0;
    while i <= last
        invariant
            i <= last + 1,
            last == s@.len() - p@.len(),
            s@.len() <= usize::MAX,
            f == folded(s@),
            forall|j: int| 0 <= j < i ==> #[trigger] f.subrange(j, j + p@.len()) != p@,
        decreases last + 1 - i,
    {
        let mut k: usize = 0;
        while k < p.len() && folds_to(s[i + k], p[k])
            invariant
                k <= p@.len(),
                i + p@.len() <= s@.len() <= usize::MAX,
                f == folded(s@),
                forall|j: int| 0 <= j < k ==> f[i + j] == p@[j],
            decreases p@.len() - k,
        {
            k += 1;
        }
        if k == p.len() {
            proof {
                assert(f.subrange(i as int, i + p@.len()) =~= p@);
            }
            return true;
        }
        proof {
            assert(f.subrange(i as int, i + p@.len())[k as int] == f[i + k]);
        }
        i += 1;
    }
    false
}

} // verus!
