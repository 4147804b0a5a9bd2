//! Cleaning up: the text before it is parsed, and the command tree after.

use vstd::prelude::*;
use crate::chars::{is_ascii_space, is_ascii_space_char, CharClass};
use crate::encoding::may_hold_char;
use crate::parser::pair_texts;
use crate::text::{
    chars_of, copy_range, has_char, join, lemma_join_next, lines, lines_of, push_all, rows,
    run_from, run_len, string_of, trim_start,
};
use crate::types::{opt_models, raws, Command, CommandModel, Opt, OptModel};
use crate::unique::{
    distinct, first_of_each, lemma_distinct_no_duplicates, lemma_distinct_same_elements,
    lemma_first_of_each_all, lemma_first_of_each_keys,
};

verus! {

/// Cleans texts before parsing and command trees after.
pub struct Postprocessor;

/// The key by which options count as the same: the spellings of the names,
/// joined by `|`, and the argument. The description is no part of it.
pub open spec fn opt_key(o: OptModel) -> (Seq<char>, Seq<char>) {
    (join(raws(o.names), seq!['|']), o.argument)
}

/// The keys of the options, in their order.
pub open spec fn opt_keys(opts: Seq<OptModel>) -> Seq<(Seq<char>, Seq<char>)> {
    Seq::new(opts.len(), |i: int| opt_key(opts[i]))
}

/// The options without those whose key an earlier option has.
pub open spec fn deduplicated(opts: Seq<OptModel>) -> Seq<OptModel> {
    first_of_each(opts, opt_keys(opts))
}

/// Whether an option is worth keeping: it has a name, its first name is not
/// empty, and it has a description.
pub open spec fn is_valid(o: OptModel) -> bool {
    o.names.len() > 0 && o.names[0].raw.len() > 0 && o.description.len() > 0
}

/// The options that are worth keeping, in their order.
pub open spec fn valid_only(opts: Seq<OptModel>) -> Seq<OptModel>
    decreases opts.len(),
{
    if opts.len() == 0 {
        seq![]
    } else if is_valid(opts.last()) {
        valid_only(opts.drop_last()).push(opts.last())
    } else {
        valid_only(opts.drop_last())
    }
}

/// The options as cleaning leaves them: first without repeated keys, then
/// without those not worth keeping.
pub open spec fn fixed_options(opts: Seq<OptModel>) -> Seq<OptModel> {
    valid_only(deduplicated(opts))
}

/// The command as cleaning leaves it: its options cleaned, and each of its
/// subcommands cleaned in the same way, at every depth. Nothing else changes.
pub open spec fn fixed(c: CommandModel) -> CommandModel
    decreases c,
{
    CommandModel {
        name: c.name,
        description: c.description,
        usage: c.usage,
        options: fixed_options(c.options),
        subcommands: Seq::new(
            c.subcommands.len(),
            |i: int|
                if 0 <= i < c.subcommands.len() {
                    fixed(c.subcommands[i])
                } else {
                    arbitrary()
                },
        ),
        version: c.version,
    }
}

/// Whether every option of the command and of all commands below it is worth
/// keeping.
pub open spec fn all_valid(c: CommandModel) -> bool
    decreases c,
{
    &&& forall|i: int| 0 <= i < c.options.len() ==> is_valid(#[trigger] c.options[i])
    &&& forall|i: int|
        0 <= i < c.subcommands.len() ==> all_valid(#[trigger] c.subcommands[i])
}

/// Whether no two options of the command, and of any command below it, have
/// the same key.
pub open spec fn all_distinct(c: CommandModel) -> bool
    decreases c,
{
    &&& opt_keys(c.options).no_duplicates()
    &&& forall|i: int|
        0 <= i < c.subcommands.len() ==> all_distinct(#[trigger] c.subcommands[i])
}

/// Filtering keeps valid options only, keeps them all, and keeps nothing
/// that was not there.
pub proof fn lemma_valid_only(opts: Seq<OptModel>)
    ensures
        forall|i: int| 0 <= i < valid_only(opts).len() ==> is_valid(#[trigger] valid_only(opts)[i]),
        forall|i: int|
            0 <= i < valid_only(opts).len() ==> opts.contains(#[trigger] valid_only(opts)[i]),
        forall|i: int|
            0 <= i < opts.len() && is_valid(opts[i]) ==> valid_only(opts).contains(
                #[trigger] opts[i],
            ),
        (forall|i: int| 0 <= i < opts.len() ==> is_valid(#[trigger] opts[i])) ==> valid_only(opts)
            == opts,
    decreases opts.len(),
{
    if opts.len() > 0 {
        let t = opts.drop_last();
        let r = valid_only(opts);
        lemma_valid_only(t);
        assert forall|i: int| 0 <= i < r.len() implies opts.contains(#[trigger] r[i]) by {
            if i < valid_only(t).len() {
                assert(r[i] == valid_only(t)[i]);
                assert(t.contains(r[i]));
                let k = choose|k: int| 0 <= k < t.len() && t[k] == r[i];
                assert(opts[k] == r[i]);
            } else {
                assert(opts[opts.len() - 1] == r[i]);
            }
        }
        assert forall|i: int| 0 <= i < opts.len() && is_valid(opts[i]) implies r.contains(
            #[trigger] opts[i],
        ) by {
            if i < t.len() {
                assert(t[i] == opts[i]);
                assert(valid_only(t).contains(t[i]));
                let k = choose|k: int| 0 <= k < valid_only(t).len() && valid_only(t)[k] == t[i];
                assert(r[k] == opts[i]);
            } else {
                assert(r[r.len() - 1] == opts[i]);
            }
        }
        if forall|i: int| 0 <= i < opts.len() ==> is_valid(#[trigger] opts[i]) {
            assert forall|i: int| 0 <= i < t.len() implies is_valid(#[trigger] t[i]) by {
                assert(t[i] == opts[i]);
            }
            assert(t.push(opts.last()) =~= opts);
        }
    } else {
        assert(valid_only(opts) =~= opts);
    }
}

/// Filtering options of which no two have the same key leaves options of
/// which no two have the same key.
pub proof fn lemma_valid_only_keeps_distinct(opts: Seq<OptModel>)
    requires
        opt_keys(opts).no_duplicates(),
    ensures
        opt_keys(valid_only(opts)).no_duplicates(),
        forall|i: int|
            0 <= i < valid_only(opts).len() ==> opt_keys(opts).contains(
                #[trigger] opt_keys(valid_only(opts))[i],
            ),
    decreases opts.len(),
{
    if opts.len() > 0 {
        let t = opts.drop_last();
        let r = valid_only(opts);
        let rt = valid_only(t);
        assert(opt_keys(t) =~= opt_keys(opts).drop_last());
        lemma_valid_only_keeps_distinct(t);
        assert forall|i: int| 0 <= i < r.len() implies opt_keys(opts).contains(
            #[trigger] opt_keys(r)[i],
        ) by {
            if i < rt.len() {
                assert(opt_keys(r)[i] == opt_keys(rt)[i]);
                let k = choose|k: int| 0 <= k < t.len() && opt_keys(t)[k] == opt_keys(rt)[i];
                assert(opt_keys(opts)[k] == opt_keys(r)[i]);
            } else {
                assert(opt_keys(opts)[opts.len() - 1] == opt_keys(r)[i]);
            }
        }
        assert forall|i: int, j: int| 0 <= i < r.len() && 0 <= j < r.len() && i != j implies opt_keys(
            r,
        )[i] != opt_keys(r)[j] by {
            let lo = if i < j {
                i
            } else {
                j
            };
            let hi = if i < j {
                j
            } else {
                i
            };
            if hi < rt.len() {
                assert(opt_keys(rt)[lo] != opt_keys(rt)[hi]);
            } else {
                // the last one kept is the last option; the other is an earlier option
                assert(opt_keys(r)[lo] == opt_keys(rt)[lo]);
                let k = choose|k: int| 0 <= k < t.len() && opt_keys(t)[k] == opt_keys(rt)[lo];
                assert(opt_keys(opts)[k] != opt_keys(opts)[opts.len() - 1]);
            }
        }
    }
}

/// After removing repeated keys no two options have the same key.
pub proof fn lemma_deduplicated_distinct(opts: Seq<OptModel>)
    ensures
        opt_keys(deduplicated(opts)) == distinct(opt_keys(opts)),
        opt_keys(deduplicated(opts)).no_duplicates(),
{
    let keys = opt_keys(opts);
    let r = deduplicated(opts);
    lemma_first_of_each_keys(opts, keys);
    lemma_distinct_no_duplicates(keys);
    assert forall|i: int| 0 <= i < r.len() implies opt_keys(r)[i] == distinct(keys)[i] by {
        let k = choose|k: int| 0 <= k < keys.len() && r[i] == opts[k] && distinct(keys)[i] == keys[k];
        assert(opt_key(r[i]) == keys[k]);
    }
    assert(opt_keys(r) =~= distinct(keys));
}

/// Cleaning a list of options a second time changes nothing.
pub proof fn lemma_fixed_options_idempotent(opts: Seq<OptModel>)
    ensures
        fixed_options(fixed_options(opts)) == fixed_options(opts),
        opt_keys(fixed_options(opts)).no_duplicates(),
        forall|i: int|
            0 <= i < fixed_options(opts).len() ==> is_valid(#[trigger] fixed_options(opts)[i]),
{
    let d = deduplicated(opts);
    let y = valid_only(d);
    lemma_deduplicated_distinct(opts);
    lemma_valid_only_keeps_distinct(d);
    lemma_first_of_each_all(y, opt_keys(y));
    lemma_valid_only(d);
    lemma_valid_only(y);
}

/// Cleaning a command tree a second time changes nothing.
pub proof fn lemma_fix_idempotent(c: CommandModel)
    ensures
        fixed(fixed(c)) == fixed(c),
    decreases c,
{
    let once = fixed(c);
    let twice = fixed(once);
    lemma_fixed_options_idempotent(c.options);
    assert(twice.subcommands.len() == once.subcommands.len());
    assert forall|i: int| 0 <= i < once.subcommands.len() implies twice.subcommands[i]
        == once.subcommands[i] by {
        lemma_fix_idempotent(c.subcommands[i]);
    }
    assert(twice.subcommands =~= once.subcommands);
}

/// In a cleaned tree every option, at every depth, has a name that is not
/// empty and a description that is not empty, and no command has two
/// options with the same names and argument.
pub proof fn lemma_fixed_is_clean(c: CommandModel)
    ensures
        all_valid(fixed(c)),
        all_distinct(fixed(c)),
    decreases c,
{
    let r = fixed(c);
    lemma_fixed_options_idempotent(c.options);
    assert forall|i: int| 0 <= i < r.subcommands.len() implies all_valid(
        #[trigger] r.subcommands[i],
    ) && all_distinct(r.subcommands[i]) by {
        lemma_fixed_is_clean(c.subcommands[i]);
    }
}

/// Of options that have the same names and the same argument, cleaning
/// keeps at most the first: an option that survives has its key from no
/// earlier option. In particular, of two such options that differ in their
/// descriptions only the first can survive.
pub proof fn lemma_first_with_key_wins(opts: Seq<OptModel>, i: int, j: int)
    requires
        0 <= i < j < opts.len(),
        opt_key(opts[i]) == opt_key(opts[j]),
    ensures
        forall|k: int|
            0 <= k < fixed_options(opts).len() && opt_key(#[trigger] fixed_options(opts)[k])
                == opt_key(opts[i]) ==> exists|f: int|
                0 <= f <= i && fixed_options(opts)[k] == opts[f] && !opt_keys(opts).take(f).contains(
                    opt_key(opts[f]),
                ),
        forall|a: int, b: int|
            0 <= a < fixed_options(opts).len() && 0 <= b < fixed_options(opts).len() && a != b
                ==> opt_key(#[trigger] fixed_options(opts)[a]) != opt_key(
                #[trigger] fixed_options(opts)[b],
            ),
{
    let r = fixed_options(opts);
    let d = deduplicated(opts);
    lemma_fixed_options_idempotent(opts);
    assert forall|a: int, b: int| 0 <= a < r.len() && 0 <= b < r.len() && a != b implies opt_key(
        #[trigger] r[a],
    ) != opt_key(#[trigger] r[b]) by {
        assert(opt_keys(r)[a] != opt_keys(r)[b]);
    }
    lemma_valid_only(d);
    assert forall|k: int| 0 <= k < r.len() && opt_key(#[trigger] r[k]) == opt_key(
        opts[i],
    ) implies exists|f: int|
        0 <= f <= i && r[k] == opts[f] && !opt_keys(opts).take(f).contains(opt_key(opts[f])) by {
        assert(d.contains(r[k]));
        let m = choose|m: int| 0 <= m < d.len() && d[m] == r[k];
        let f = lemma_kept_is_first(opts, m);
        if f > i {
            assert(opt_keys(opts).take(f)[i] == opt_key(opts[i]));
        }
    }
}

/// Two options with the same names and the same argument collapse into the
/// first, whatever their descriptions are; the first is then kept where it
/// is worth keeping.
pub proof fn lemma_same_key_pair_collapses(a: OptModel, b: OptModel)
    requires
        a.names == b.names,
        a.argument == b.argument,
    ensures
        deduplicated(seq![a, b]) == seq![a],
        fixed_options(seq![a, b]) == if is_valid(a) {
            seq![a]
        } else {
            seq![]
        },
{
    let both = seq![a, b];
    let keys = opt_keys(both);
    assert(both.drop_last() =~= seq![a]);
    assert(keys.drop_last() =~= opt_keys(seq![a]));
    assert(keys.drop_last()[0] == keys.last());
    lemma_first_of_each_all(seq![a], opt_keys(seq![a]));
    assert(deduplicated(both) =~= seq![a]);
    assert(valid_only(Seq::<OptModel>::empty()) =~= Seq::<OptModel>::empty());
    assert(seq![a].drop_last() =~= Seq::<OptModel>::empty());
    assert(seq![a].last() == a);
    if is_valid(a) {
        assert(valid_only(seq![a]) =~= seq![a]);
    } else {
        assert(valid_only(seq![a]) =~= Seq::<OptModel>::empty());
    }
}

/// Each option that is left after removing repeated keys is the first of the
/// options with its key.
pub proof fn lemma_kept_is_first(opts: Seq<OptModel>, m: int) -> (f: int)
    requires
        0 <= m < deduplicated(opts).len(),
    ensures
        0 <= f < opts.len(),
        deduplicated(opts)[m] == opts[f],
        !opt_keys(opts).take(f).contains(opt_key(opts[f])),
    decreases opts.len(),
{
    let t = opts.drop_last();
    assert(opt_keys(t) =~= opt_keys(opts).drop_last());
    if m < deduplicated(t).len() {
        let f = lemma_kept_is_first(t, m);
        assert(opt_keys(t).take(f) =~= opt_keys(opts).take(f));
        f
    } else {
        let f = opts.len() - 1;
        assert(opt_keys(opts).take(f) =~= opt_keys(t));
        f
    }
}


/// Whether `c` is one of the three bullets: `*`, `-` and the round bullet.
pub open spec fn is_bullet(c: char) -> bool {
    c == '*' || c == '-' || c == '\u{2022}'
}

/// The line without its bullet: where the first character that is not white
/// space is a bullet and an ASCII blank follows it, the indentation and then
/// what follows the bullet and the white space behind it; any other line as
/// it is.
pub open spec fn without_bullet(line: Seq<char>) -> Seq<char> {
    let n = run_len(line, CharClass::Space) as int;
    let rest = line.skip(n);
    if rest.len() >= 2 && is_bullet(rest[0]) && is_ascii_space(rest[1]) {
        line.take(n) + trim_start(rest.skip(2))
    } else {
        line
    }
}

/// Each of the lines without its bullet.
pub open spec fn without_bullets(ls: Seq<Seq<char>>) -> Seq<Seq<char>> {
    Seq::new(ls.len(), |i: int| without_bullet(ls[i]))
}

/// The text without the bullets of its lines, the lines joined by line
/// feeds.
pub open spec fn debulleted(s: Seq<char>) -> Seq<char> {
    join(without_bullets(lines(s)), seq!['\n'])
}

/// What stands for the character `c` in ASCII: one space for the no-break
/// space, two for the en space, three for the em space, and `c` itself
/// otherwise.
pub open spec fn ascii_for(c: char) -> Seq<char> {
    if c == '\u{00A0}' {
        seq![' ']
    } else if c == '\u{2002}' {
        seq![' ', ' ']
    } else if c == '\u{2003}' {
        seq![' ', ' ', ' ']
    } else {
        seq![c]
    }
}

/// The text with each character replaced by what stands for it in ASCII.
pub open spec fn spaces_to_ascii(s: Seq<char>) -> Seq<char>
    decreases s.len(),
{
    if s.len() == 0 {
        seq![]
    } else {
        spaces_to_ascii(s.drop_last()) + ascii_for(s.last())
    }
}

/// The text with each tab replaced by `width` spaces.
pub open spec fn tabs_expanded(s: Seq<char>, width: nat) -> Seq<char>
    decreases s.len(),
{
    if s.len() == 0 {
        seq![]
    } else if s.last() == '\t' {
        tabs_expanded(s.drop_last(), width) + Seq::new(width, |i: int| ' ')
    } else {
        tabs_expanded(s.drop_last(), width).push(s.last())
    }
}

/// A text without any of the three wide spaces stays as it is, so the quick
/// way out and the replacement character by character agree.
pub proof fn lemma_spaces_to_ascii_unchanged(s: Seq<char>)
    requires
        !s.contains('\u{00A0}'),
        !s.contains('\u{2002}'),
        !s.contains('\u{2003}'),
    ensures
        spaces_to_ascii(s) == s,
    decreases s.len(),
{
    if s.len() > 0 {
        let t = s.drop_last();
        assert forall|c: char| t.contains(c) implies s.contains(c) by {
            let k = choose|k: int| 0 <= k < t.len() && t[k] == c;
            assert(s[k] == c);
        }
        lemma_spaces_to_ascii_unchanged(t);
        assert(s[s.len() - 1] == s.last());
        assert(t + seq![s.last()] =~= s);
    } else {
        assert(spaces_to_ascii(s) =~= s);
    }
}

/// A text without a tab stays as it is, so the quick way out and the
/// replacement character by character agree.
pub proof fn lemma_tabs_expanded_unchanged(s: Seq<char>, width: nat)
    requires
        !s.contains('\t'),
    ensures
        tabs_expanded(s, width) == s,
    decreases s.len(),
{
    if s.len() > 0 {
        let t = s.drop_last();
        assert forall|c: char| t.contains(c) implies s.contains(c) by {
            let k = choose|k: int| 0 <= k < t.len() && t[k] == c;
            assert(s[k] == c);
        }
        lemma_tabs_expanded_unchanged(t, width);
        assert(s[s.len() - 1] == s.last());
        assert(t.push(s.last()) =~= s);
    } else {
        assert(tabs_expanded(s, width) =~= s);
    }
}

/// The key of an option, as two strings.
fn key_of(o: &Opt) -> (r: (String, String))
    ensures
        (r.0@, r.1@) == opt_key(o@),
{
    let mut joined = String::new();
    let ghost all = raws(o@.names);
    let mut i: usize = 0;
    proof {
        reveal_strlit("|");
        assert(all.take(0) =~= Seq::<Seq<char>>::empty());
    }
    while i < o.names.len()
        invariant
            i <= o.names@.len(),
            all == raws(o@.names),
            all.len() == o.names@.len(),
            "|"@ == seq!['|'],
            joined@ == join(all.take(i as int), seq!['|']),
        decreases o.names@.len() - i,
    {
        let ghost before = all.take(i as int);
        let ghost after = all.take(i + 1);
        proof {
            assert(after.drop_last() =~= before);
            assert(after.last() == o.names@[i as int].raw@);
        }
        if i > 0 {
            joined.append("|");
        }
        joined.append(o.names[i].raw.as_str());
        proof {
            if i == 0 {
                assert(joined@ =~= after[0]);
            }
        }
        i += 1;
    }
    proof {
        assert(all.take(o.names@.len() as int) =~= all);
    }
    (joined, o.argument.clone())
}

/// Whether `seen` holds the key `k`.
fn holds_key(seen: &Vec<(String, String)>, k: &(String, String)) -> (r: bool)
    ensures
        r == pair_texts(seen@).contains((k.0@, k.1@)),
{
    let mut i: usize = 0;
    let ghost views = pair_texts(seen@);
    while i < seen.len()
        invariant
            i <= seen@.len(),
            views == pair_texts(seen@),
            forall|j: int| 0 <= j < i ==> views[j] != (k.0@, k.1@),
        decreases seen@.len() - i,
    {
        if seen[i].0 == k.0 && seen[i].1 == k.1 {
            proof {
                assert(views[i as int] == (k.0@, k.1@));
            }
            return true;
        }
        i += 1;
    }
    false
}

/// Appends the line without its bullet.
fn push_without_bullet(out: &mut Vec<char>, line: &[char])
    ensures
        final(out)@ == old(out)@ + without_bullet(line@),
{
    let n = run_from(line, 0, CharClass::Space);
    proof {
        assert(line@.skip(0) =~= line@);
        let rest = line@.skip(n as int);
        if rest.len() >= 2 {
            assert(rest[0] == line@[n as int]);
            assert(rest[1] == line@[n + 1]);
        }
    }
    let bulleted = line.len() - n >= 2 && (line[n] == '*' || line[n] == '-' || line[n]
        == '\u{2022}') && is_ascii_space_char(line[n + 1]);
    if bulleted {
        let m = run_from(line, n + 2, CharClass::Space);
        let head = copy_range(line, 0, n);
        let tail = copy_range(line, n + 2 + m, line.len());
        proof {
            let rest = line@.skip(n as int);
            assert(rest.skip(2) =~= line@.skip(n + 2));
            assert(trim_start(rest.skip(2)) =~= tail@);
            assert(line@.take(n as int) =~= head@);
        }
        push_all(out, head.as_slice());
        push_all(out, tail.as_slice());
        proof {
            assert(out@ =~= old(out)@ + (head@ + tail@));
        }
    } else {
        push_all(out, line);
    }
}

impl Postprocessor {
    /// The options without those whose names and argument an earlier option
    /// has: of options with one key the first stays, whatever the
    /// descriptions are.
    pub fn deduplicate_options(options: Vec<Opt>) -> (r: Vec<Opt>)
        ensures
            opt_models(r@) == deduplicated(opt_models(options@)),
    {
        let mut seen: Vec<(String, String)> = Vec::new();
        let mut out: Vec<Opt> = Vec::new();
        let ghost given = options@;
        let ghost models = opt_models(options@);
        let ghost keys = opt_keys(models);
        proof {
            assert(models.take(0) =~= Seq::<OptModel>::empty());
            assert(keys.take(0) =~= Seq::<(Seq<char>, Seq<char>)>::empty());
            assert(opt_models(out@) =~= Seq::<OptModel>::empty());
            assert(pair_texts(seen@) =~= Seq::<(Seq<char>, Seq<char>)>::empty());
        }
        for opt in it: options
            invariant
                it.seq() == given,
                models == opt_models(given),
                keys == opt_keys(models),
                opt_models(out@) == first_of_each(
                    models.take(it.index() as int),
                    keys.take(it.index() as int),
                ),
                pair_texts(seen@) == distinct(keys.take(it.index() as int)),
        {
            let ghost i = it.index() as int;
            let key = key_of(&opt);
            proof {
                assert(opt@ == models[i]);
                assert((key.0@, key.1@) == keys[i]);
                assert(models.take(i + 1).drop_last() =~= models.take(i));
                assert(keys.take(i + 1).drop_last() =~= keys.take(i));
                assert(models.take(i + 1).last() == models[i]);
                assert(keys.take(i + 1).last() == keys[i]);
                lemma_distinct_same_elements(keys.take(i));
            }
            if !holds_key(&seen, &key) {
                let ghost prev_seen = seen@;
                let ghost prev_out = out@;
                seen.push(key);
                out.push(opt);
                proof {
                    assert(pair_texts(seen@) =~= pair_texts(
                        prev_seen,
                    ).push(keys[i]));
                    assert(opt_models(out@) =~= opt_models(prev_out).push(models[i]));
                }
            }
        }
        proof {
            assert(models.take(given.len() as int) =~= models);
            assert(keys.take(given.len() as int) =~= keys);
        }
        out
    }

    /// The options that have a name, a first name that is not empty, and a
    /// description that is not empty, in their order.
    pub fn filter_invalid_options(options: Vec<Opt>) -> (r: Vec<Opt>)
        ensures
            opt_models(r@) == valid_only(opt_models(options@)),
    {
        let mut out: Vec<Opt> = Vec::new();
        let ghost given = options@;
        let ghost models = opt_models(options@);
        proof {
            assert(models.take(0) =~= Seq::<OptModel>::empty());
            assert(opt_models(out@) =~= Seq::<OptModel>::empty());
        }
        for opt in it: options
            invariant
                it.seq() == given,
                models == opt_models(given),
                opt_models(out@) == valid_only(models.take(it.index() as int)),
        {
            let ghost i = it.index() as int;
            proof {
                assert(opt@ == models[i]);
                assert(models.take(i + 1).drop_last() =~= models.take(i));
                assert(models.take(i + 1).last() == models[i]);
                if opt.names@.len() > 0 {
                    assert(opt@.names[0] == opt.names@[0]@);
                }
            }
            if opt.names.len() > 0 && !opt.names[0].raw.as_str().is_empty()
                && !opt.description.as_str().is_empty() {
                let ghost prev = out@;
                out.push(opt);
                proof {
                    assert(opt_models(out@) =~= opt_models(prev).push(models[i]));
                }
            }
        }
        proof {
            assert(models.take(given.len() as int) =~= models);
        }
        out
    }

    /// The command tree cleaned: in every command of the tree, of options with
    /// the same names and argument only the first is kept, and then only
    /// options with a name that is not empty and a description that is not
    /// empty. Names, descriptions, usage and versions of the commands, and
    /// the shape of the tree, stay.
    pub fn fix_command(cmd: Command) -> (r: Command)
        ensures
            r@ == fixed(cmd@),
            all_valid(r@),
            all_distinct(r@),
        decreases cmd,
    {
        let ghost before = cmd@;
        let ghost kids = cmd.subcommands@;
        let Command { name, description, usage, options, subcommands, version } = cmd;
        let options = Self::filter_invalid_options(Self::deduplicate_options(options));
        let mut fixed_kids: Vec<Command> = Vec::new();
        for kid in it: subcommands
            invariant
                it.seq() == kids,
                kids == cmd.subcommands@,
                fixed_kids@.len() == it.index(),
                forall|k: int|
                    0 <= k < fixed_kids@.len() ==> (#[trigger] fixed_kids@[k])@ == fixed(kids[k]@),
        {
            assert(kid == kids[it.index() as int]);
            assert(decreases_to!(cmd => cmd.subcommands@[it.index() as int]));
            let done = Self::fix_command(kid);
            fixed_kids.push(done);
        }
        let r = Command { name, description, usage, options, subcommands: fixed_kids, version };
        proof {
            assert(r@.subcommands.len() == fixed(before).subcommands.len());
            assert forall|k: int| 0 <= k < r@.subcommands.len() implies r@.subcommands[k] == fixed(
                before,
            ).subcommands[k] by {
                assert(r.subcommands@[k]@ == fixed(kids[k]@));
                assert(before.subcommands[k] == kids[k]@);
            }
            assert(r@.subcommands =~= fixed(before).subcommands);
            lemma_fixed_is_clean(before);
        }
        r
    }

    /// The text without the bullets of its lines: see `without_bullet`. One
    /// bullet is taken from a line, and only in front. The lines come back
    /// joined by line feeds.
    pub fn remove_bullets(text: &str) -> (r: String)
        ensures
            r@ == debulleted(text@),
    {
        let chars = chars_of(text);
        let ls = lines_of(chars.as_slice());
        let mut out: Vec<char> = Vec::new();
        let ghost all = without_bullets(rows(ls@));
        let mut i: usize = 0;
        proof {
            assert(all.take(0) =~= Seq::<Seq<char>>::empty());
        }
        while i < ls.len()
            invariant
                i <= ls@.len(),
                all == without_bullets(rows(ls@)),
                out@ == join(all.take(i as int), seq!['\n']),
            decreases ls@.len() - i,
        {
            let line = ls[i].as_slice();
            let ghost before = out@;
            proof {
                lemma_join_next(all, i as int, seq!['\n']);
                assert(all[i as int] == without_bullet(line@));
            }
            if i > 0 {
                out.push('\n');
            }
            let ghost started = out@;
            push_without_bullet(&mut out, line);
            proof {
                if i == 0 {
                    assert(started + all[0] =~= all[0]);
                } else {
                    assert(started =~= before + seq!['\n']);
                }
            }
            i += 1;
        }
        proof {
            assert(all.take(ls@.len() as int) =~= all);
        }
        string_of(out.as_slice())
    }

    /// The text with each no-break space replaced by one space, each en space
    /// by two and each em space by three; every other character stays. A
    /// text that holds none of the three comes back as it is.
    pub fn unicode_spaces_to_ascii(text: &str) -> (r: String)
        ensures
            r@ == spaces_to_ascii(text@),
            !text@.contains('\u{00A0}') && !text@.contains('\u{2002}') && !text@.contains(
                '\u{2003}',
            ) ==> r@ == text@,
    {
        proof {
            reveal_strlit("\u{00A0}");
            reveal_strlit("\u{2002}");
            reveal_strlit("\u{2003}");
            assert("\u{00A0}"@ =~= seq!['\u{00A0}']);
            assert("\u{2002}"@ =~= seq!['\u{2002}']);
            assert("\u{2003}"@ =~= seq!['\u{2003}']);
            if !text@.contains('\u{00A0}') && !text@.contains('\u{2002}') && !text@.contains(
                '\u{2003}',
            ) {
                lemma_spaces_to_ascii_unchanged(text@);
            }
        }
        let has_nbsp = may_hold_char(text, "\u{00A0}", '\u{00A0}');
        let has_em = may_hold_char(text, "\u{2003}", '\u{2003}');
        let has_en = may_hold_char(text, "\u{2002}", '\u{2002}');
        if !has_nbsp && !has_em && !has_en {
            return text.to_owned();
        }
        let chars = chars_of(text);
        let mut out: Vec<char> = Vec::new();
        let mut i: usize = 0;
        proof {
            assert(chars@.take(0) =~= Seq::<char>::empty());
        }
        while i < chars.len()
            invariant
                i <= chars@.len(),
                out@ == spaces_to_ascii(chars@.take(i as int)),
            decreases chars@.len() - i,
        {
            let c = chars[i];
            proof {
                assert(chars@.take(i + 1).drop_last() =~= chars@.take(i as int));
                assert(chars@.take(i + 1).last() == c);
            }
            let ghost before = out@;
            if c == '\u{00A0}' {
                out.push(' ');
                proof {
                    assert(out@ =~= before + seq![' ']);
                }
            } else if c == '\u{2003}' {
                out.push(' ');
                out.push(' ');
                out.push(' ');
                proof {
                    assert(out@ =~= before + seq![' ', ' ', ' ']);
                }
            } else if c == '\u{2002}' {
                out.push(' ');
                out.push(' ');
                proof {
                    assert(out@ =~= before + seq![' ', ' ']);
                }
            } else {
                out.push(c);
                proof {
                    assert(out@ =~= before + seq![c]);
                }
            }
            i += 1;
        }
        proof {
            assert(chars@.take(chars@.len() as int) =~= chars@);
        }
        string_of(out.as_slice())
    }

    /// The text with each tab replaced by `spaces` spaces. A text without a
    /// tab comes back as it is.
    pub fn convert_tabs_to_spaces(text: &str, spaces: usize) -> (r: String)
        ensures
            r@ == tabs_expanded(text@, spaces as nat),
            !text@.contains('\t') ==> r@ == text@,
    {
        let chars = chars_of(text);
        proof {
            if !text@.contains('\t') {
                lemma_tabs_expanded_unchanged(text@, spaces as nat);
            }
        }
        if !has_char(chars.as_slice(), '\t') {
            return text.to_owned();
        }
        let out = Self::expand_tabs(chars.as_slice(), spaces);
        string_of(out.as_slice())
    }

    /// The characters of `s` with each tab replaced by `spaces` spaces.
    pub fn expand_tabs(s: &[char], spaces: usize) -> (r: Vec<char>)
        ensures
            r@ == tabs_expanded(s@, spaces as nat),
    {
        let mut out: Vec<char> = Vec::new();
        let mut i: usize = 0;
        proof {
            assert(s@.take(0) =~= Seq::<char>::empty());
        }
        while i < s.len()
            invariant
                i <= s@.len(),
                out@ == tabs_expanded(s@.take(i as int), spaces as nat),
            decreases s@.len() - i,
        {
            let c = s[i];
            proof {
                assert(s@.take(i + 1).drop_last() =~= s@.take(i as int));
                assert(s@.take(i + 1).last() == c);
            }
            if c == '\t' {
                let ghost before = out@;
                let mut k: usize = 0;
                while k < spaces
                    invariant
                        k <= spaces,
                        out@ == before + Seq::new(k as nat, |j: int| ' '),
                    decreases spaces - k,
                {
                    out.push(' ');
                    proof {
                        assert(out@ =~= before + Seq::new((k + 1) as nat, |j: int| ' '));
                    }
                    k += 1;
                }
            } else {
                out.push(c);
            }
            i += 1;
        }
        proof {
            assert(s@.take(s@.len() as int) =~= s@);
        }
        out
    }
}

} // verus!
