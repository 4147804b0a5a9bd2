//! Contracts that are taken on trust: each one states what a function
//! defined outside this crate does, and nothing in the crate proves it.

use vstd::prelude::*;
use bstr::ByteSlice;
use ecow::{EcoString, EcoVec};
use rayon::iter::{IntoParallelRefIterator, ParallelIterator};
use crate::parser::{pair_rows, pair_texts, parsed, preprocessed, Parser};
use crate::text::{lines, lines_kept, rows};
use crate::types::{opt_models, Opt};

verus! {

/// `String::push` appends the one character `c` to `s` and changes nothing
/// else.
pub assume_specification[ String::push ](s: &mut String, c: char)
    ensures
        final(s)@ == old(s)@.push(c),
;

/// Whether `c` is a letter or a number in the sense of Unicode: what
/// `char::is_alphanumeric` says of it.
pub uninterp spec fn alphanumeric(c: char) -> bool;

/// `char::is_alphanumeric` depends on the character alone.
pub assume_specification[ char::is_alphanumeric ](c: char) -> (r: bool)
    ensures
        r == alphanumeric(c),
;

/// The text in small letters: what `str::to_lowercase` makes of it.
pub uninterp spec fn lowercase(s: Seq<char>) -> Seq<char>;

/// `str::to_lowercase` depends on the text alone.
pub assume_specification[ str::to_lowercase ](s: &str) -> (r: String)
    ensures
        r@ == lowercase(s@),
;

/// `memchr::memchr` returns the index of the first byte of `haystack` that is
/// equal to `needle`, and `None` where no byte is.
pub assume_specification[ memchr::memchr ](needle: u8, haystack: &[u8]) -> (r: Option<usize>)
    ensures
        match r {
            Some(i) => i < haystack@.len() && haystack@[i as int] == needle && forall|j: int|
                0 <= j < i ==> haystack@[j] != needle,
            None => forall|j: int| 0 <= j < haystack@.len() ==> haystack@[j] != needle,
        },
;

/// `memchr::memmem::find` returns the index at which `needle` first occurs in
/// `haystack` as a block of neighbouring bytes, and `None` where it does not
/// occur.
pub assume_specification[ memchr::memmem::find ](haystack: &[u8], needle: &[u8]) -> (r: Option<
    usize,
>)
    ensures
        match r {
            Some(i) => i + needle@.len() <= haystack@.len() && haystack@.subrange(
                i as int,
                i + needle@.len(),
            ) == needle@ && forall|j: int|
                0 <= j < i ==> #[trigger] haystack@.subrange(j, j + needle@.len()) != needle@,
            None => forall|j: int|
                0 <= j && j + needle@.len() <= haystack@.len() ==> #[trigger] haystack@.subrange(
                    j,
                    j + needle@.len(),
                ) != needle@,
        },
;

/// `bstr::ByteSlice::lines`, on the bytes of `text`: the lines of the text
/// without their terminators, a terminator being a line feed or a carriage
/// return and a line feed. Each line is handed back as its characters.
#[verifier::external_body]
pub(crate) fn byte_lines(text: &str) -> (r: Vec<Vec<char>>)
    ensures
        rows(r@) == lines(text@),
{
    text.as_bytes().lines().map(|line| line.to_str_lossy().chars().collect()).collect()
}

/// `bstr::ByteSlice::lines_with_terminator`, on the bytes of `text`: the
/// lines of the text, each with the line feed that ends it; the last line
/// has none where the text does not end with one. Each line is handed back
/// as its characters.
#[verifier::external_body]
pub(crate) fn byte_lines_with_ends(text: &str) -> (r: Vec<Vec<char>>)
    ensures
        rows(r@) == lines_kept(text@),
{
    text.as_bytes()
        .lines_with_terminator()
        .map(|line| line.to_str_lossy().chars().collect())
        .collect()
}

/// rayon's parallel iterator over `blocks`, mapped and collected into a
/// vector: the result holds, at each place, what `Parser::parse_chars` gives
/// for the block at that place, whatever thread computed it.
#[verifier::external_body]
pub(crate) fn parse_each(blocks: &Vec<Vec<char>>) -> (r: Vec<Vec<Opt>>)
    ensures
        r@.len() == blocks@.len(),
        forall|i: int|
            0 <= i < blocks@.len() ==> opt_models(#[trigger] r@[i]@) == parsed(blocks@[i]@),
{
    blocks.par_iter().map(|block| Parser::parse_chars(block.as_slice())).collect()
}

/// rayon's parallel iterator over `blocks`, mapped and collected into a
/// vector: the result holds, at each place, what `Parser::preprocess_chars`
/// gives for the block at that place, whatever thread computed it.
#[verifier::external_body]
pub(crate) fn preprocess_each(blocks: &Vec<Vec<char>>) -> (r: Vec<Vec<(Vec<char>, Vec<char>)>>)
    ensures
        r@.len() == blocks@.len(),
        forall|i: int|
            0 <= i < blocks@.len() ==> pair_rows(#[trigger] r@[i]@) == preprocessed(blocks@[i]@),
{
    blocks.par_iter().map(|block| Parser::preprocess_chars(block.as_slice())).collect()
}

/// `ecow::EcoString`, a string that is cheap to clone.
#[verifier::external_type_specification]
#[verifier::external_body]
pub struct ExEcoString(EcoString);

/// `ecow::EcoVec`, a vector that is cheap to clone.
#[verifier::external_type_specification]
#[verifier::external_body]
#[verifier::reject_recursive_types(T)]
pub struct ExEcoVec<T>(EcoVec<T>);

/// The characters that an `EcoString` holds.
pub uninterp spec fn eco_text(s: EcoString) -> Seq<char>;

/// The options that an `EcoVec` of options holds, in their order.
pub uninterp spec fn eco_opts(v: EcoVec<Opt>) -> Seq<Opt>;

/// The pairs of texts that an `EcoVec` of pairs of strings holds, in their
/// order.
pub uninterp spec fn eco_pairs(v: EcoVec<(EcoString, EcoString)>) -> Seq<(Seq<char>, Seq<char>)>;

/// The numbers that an `EcoVec` of numbers holds, in their order.
pub uninterp spec fn eco_numbers(v: EcoVec<usize>) -> Seq<usize>;

/// `EcoString::from` makes a string of the same characters.
#[verifier::external_body]
pub(crate) fn eco_string(s: String) -> (r: EcoString)
    ensures
        eco_text(r) == s@,
{
    EcoString::from(s)
}

/// `EcoVec::from` moves the items of a vector into an `EcoVec`, in their
/// order.
#[verifier::external_body]
pub(crate) fn eco_vec_of_opts(v: Vec<Opt>) -> (r: EcoVec<Opt>)
    ensures
        eco_opts(r) == v@,
{
    EcoVec::from(v)
}

/// `EcoString::from` on both strings of each pair, the pairs collected into
/// an `EcoVec` in their order.
#[verifier::external_body]
pub(crate) fn eco_vec_of_pairs(v: Vec<(String, String)>) -> (r: EcoVec<(EcoString, EcoString)>)
    ensures
        eco_pairs(r) == pair_texts(v@),
{
    v.into_iter().map(|p| (EcoString::from(p.0), EcoString::from(p.1))).collect()
}

/// `EcoVec::from` moves the items of a vector into an `EcoVec`, in their
/// order.
#[verifier::external_body]
pub(crate) fn eco_vec_of_numbers(v: Vec<usize>) -> (r: EcoVec<usize>)
    ensures
        eco_numbers(r) == v@,
{
    EcoVec::from(v)
}

/// `regex::Regex`, a regular expression ready for matching.
#[verifier::external_type_specification]
#[verifier::external_body]
pub struct ExRegex(regex::Regex);

/// `regex::Error`, why a text is no regular expression.
#[verifier::external_type_specification]
#[verifier::external_body]
pub struct ExRegexError(regex::Error);

/// Whether `c` is one of the eighteen characters that mean something in a
/// regular expression.
pub open spec fn is_regex_meta(c: char) -> bool {
    ||| c == '\\'
    ||| c == '.'
    ||| c == '+'
    ||| c == '*'
    ||| c == '?'
    ||| c == '('
    ||| c == ')'
    ||| c == '|'
    ||| c == '['
    ||| c == ']'
    ||| c == '{'
    ||| c == '}'
    ||| c == '^'
    ||| c == '$'
    ||| c == '#'
    ||| c == '&'
    ||| c == '-'
    ||| c == '~'
}

/// The text with a backslash before each character that means something in
/// a regular expression.
pub open spec fn regex_escaped(s: Seq<char>) -> Seq<char>
    decreases s.len(),
{
    if s.len() == 0 {
        seq![]
    } else if is_regex_meta(s.last()) {
        regex_escaped(s.drop_last()).push('\\').push(s.last())
    } else {
        regex_escaped(s.drop_last()).push(s.last())
    }
}

/// Whether the text is a regular expression that `regex::Regex::new` accepts.
pub uninterp spec fn regex_compiles(pattern: Seq<char>) -> bool;

/// The text that a regular expression was made from.
pub uninterp spec fn regex_source(re: regex::Regex) -> Seq<char>;

/// Whether the regular expression made from `pattern` matches somewhere in
/// `text`.
pub uninterp spec fn regex_matches(pattern: Seq<char>, text: Seq<char>) -> bool;

/// `regex::escape` puts a backslash before each character that means
/// something in a regular expression, and keeps the others as they are.
pub assume_specification[ regex::escape ](pattern: &str) -> (r: String)
    ensures
        r@ == regex_escaped(pattern@),
;

/// `regex::Regex::new` accepts or refuses a text by the text alone, and the
/// regular expression that it makes is that of the text.
pub assume_specification[ regex::Regex::new ](re: &str) -> (r: Result<regex::Regex, regex::Error>)
    ensures
        r is Ok == regex_compiles(re@),
        r matches Ok(made) ==> regex_source(made) == re@,
;

/// `regex::Regex::is_match` depends on the text that the regular expression
/// was made from and on the text searched.
pub assume_specification[ regex::Regex::is_match ](re: &regex::Regex, haystack: &str) -> (r: bool)
    ensures
        r == regex_matches(regex_source(*re), haystack@),
;

/// `serde_json::Value`, any JSON value.
#[verifier::external_type_specification]
#[verifier::external_body]
pub struct ExJsonValue(serde_json::Value);

/// `serde_json::Error`, why a value could not be printed.
#[verifier::external_type_specification]
#[verifier::external_body]
pub struct ExJsonError(serde_json::Error);

/// What a JSON value of the kinds used here holds: a text, a list of
/// values, or a record of values under their keys.
pub ghost enum Json {
    Text(Seq<char>),
    List(Seq<Json>),
    Record(Map<Seq<char>, Json>),
}

/// What a `serde_json::Value` holds.
pub uninterp spec fn json_of(v: serde_json::Value) -> Json;

/// Whether `serde_json::to_string_pretty` can print a value that holds `j`.
pub uninterp spec fn json_prints(j: Json) -> bool;

/// The text that `serde_json::to_string_pretty` prints for a value that
/// holds `j`.
pub uninterp spec fn json_pretty(j: Json) -> Seq<char>;

/// What each of the values holds.
pub open spec fn jsons(items: Seq<serde_json::Value>) -> Seq<Json> {
    Seq::new(items.len(), |i: int| json_of(items[i]))
}

/// The record that the entries make: each value under its key.
pub open spec fn record_of(entries: Seq<(String, serde_json::Value)>) -> Map<Seq<char>, Json>
    decreases entries.len(),
{
    if entries.len() == 0 {
        Map::empty()
    } else {
        record_of(entries.drop_last()).insert(entries.last().0@, json_of(entries.last().1))
    }
}

/// `serde_json::Value::String` holds the text given.
#[verifier::external_body]
pub(crate) fn json_text(s: &str) -> (r: serde_json::Value)
    ensures
        json_of(r) == Json::Text(s@),
{
    serde_json::Value::String(s.to_owned())
}

/// `serde_json::Value::Array` holds the values given, in their order.
#[verifier::external_body]
pub(crate) fn json_list(items: Vec<serde_json::Value>) -> (r: serde_json::Value)
    ensures
        json_of(r) == Json::List(jsons(items@)),
{
    serde_json::Value::Array(items)
}

/// The keys of the entries, in their order.
pub open spec fn keys_of(entries: Seq<(String, serde_json::Value)>) -> Seq<Seq<char>> {
    Seq::new(entries.len(), |i: int| entries[i].0@)
}

/// `serde_json::Value::Object`, of the `serde_json::Map` collected from
/// entries of which no two have the same key: it holds each value under its
/// key.
#[verifier::external_body]
pub(crate) fn json_record(entries: Vec<(String, serde_json::Value)>) -> (r: serde_json::Value)
    requires
        keys_of(entries@).no_duplicates(),
    ensures
        json_of(r) == Json::Record(record_of(entries@)),
{
    serde_json::Value::Object(entries.into_iter().collect())
}

/// `serde_json::to_string_pretty`: whether it prints a value, and what it
/// prints, depend on what the value holds and on nothing else.
#[verifier::external_body]
pub(crate) fn json_print(v: &serde_json::Value) -> (r: Result<String, serde_json::Error>)
    ensures
        r is Ok == json_prints(json_of(*v)),
        r matches Ok(text) ==> text@ == json_pretty(json_of(*v)),
{
    serde_json::to_string_pretty(v)
}

} // verus!
