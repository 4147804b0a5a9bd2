//! The schema that extraction produces: option names, options, subcommand
//! candidates and the command tree, each with its mathematical model.

use vstd::prelude::*;
use crate::order::{
    lemma_lex_irreflexive, lemma_lex_total, lemma_lex_transitive, lex_lt, place_of, strict_total,
    Place,
};
use crate::text::{
    cat, cat_of, chars_of, join, join_range, lemma_utf8_len_short, rows, string_of, utf8_len,
};

verus! {

/// How an option name is spelled.
#[derive(Debug, Clone, Copy, PartialEq, Eq, Structural, Hash, PartialOrd, Ord)]
pub enum OptNameType {
    /// Two dashes and at least one more character: `--all`.
    LongType,
    /// One dash and one more byte: `-a`.
    ShortType,
    /// One dash and more than one more byte: `-name`.
    OldType,
    /// `--` alone.
    DoubleDashAlone,
    /// `-` alone.
    SingleDashAlone,
}

/// One spelling of an option, leading dashes included.
#[derive(Debug, PartialEq, Eq, Hash, PartialOrd, Ord)]
pub struct OptName {
    pub raw: String,
    pub opt_type: OptNameType,
}

/// One option: its spellings, the placeholder of its argument (empty where
/// it takes none) and its description.
#[derive(Debug, PartialEq, Eq, PartialOrd, Ord, Hash)]
pub struct Opt {
    pub names: Vec<OptName>,
    pub argument: String,
    pub description: String,
}

/// A candidate for a subcommand, as found in the text.
#[derive(Debug, PartialEq, Eq, Hash, Ord, PartialOrd)]
pub struct Subcommand {
    pub cmd: String,
    pub desc: String,
}

/// A program or one of its subcommands. Each command owns its subcommands.
#[derive(Debug, PartialEq, Eq)]
pub struct Command {
    pub name: String,
    pub description: String,
    pub usage: String,
    pub options: Vec<Opt>,
    pub subcommands: Vec<Command>,
    pub version: String,
}

/// What an `OptName` stands for.
pub ghost struct OptNameModel {
    pub raw: Seq<char>,
    pub opt_type: OptNameType,
}

/// What an `Opt` stands for.
pub ghost struct OptModel {
    pub names: Seq<OptNameModel>,
    pub argument: Seq<char>,
    pub description: Seq<char>,
}

/// What a `Subcommand` stands for.
pub ghost struct SubcommandModel {
    pub cmd: Seq<char>,
    pub desc: Seq<char>,
}

/// What a `Command` stands for.
pub ghost struct CommandModel {
    pub name: Seq<char>,
    pub description: Seq<char>,
    pub usage: Seq<char>,
    pub options: Seq<OptModel>,
    pub subcommands: Seq<CommandModel>,
    pub version: Seq<char>,
}

impl View for OptName {
    type V = OptNameModel;

    open spec fn view(&self) -> OptNameModel {
        OptNameModel { raw: self.raw@, opt_type: self.opt_type }
    }
}

impl View for Opt {
    type V = OptModel;

    open spec fn view(&self) -> OptModel {
        OptModel {
            names: name_models(self.names@),
            argument: self.argument@,
            description: self.description@,
        }
    }
}

impl View for Subcommand {
    type V = SubcommandModel;

    open spec fn view(&self) -> SubcommandModel {
        SubcommandModel { cmd: self.cmd@, desc: self.desc@ }
    }
}

impl Command {
    /// The tree of models below this command.
    pub open spec fn model(&self) -> CommandModel
        decreases self,
    {
        CommandModel {
            name: self.name@,
            description: self.description@,
            usage: self.usage@,
            options: opt_models(self.options@),
            subcommands: Seq::new(
                self.subcommands@.len(),
                |i: int|
                    if 0 <= i < self.subcommands@.len() {
                        self.subcommands@[i].model()
                    } else {
                        arbitrary()
                    },
            ),
            version: self.version@,
        }
    }
}

impl View for Command {
    type V = CommandModel;

    open spec fn view(&self) -> CommandModel {
        self.model()
    }
}

/// The spellings of the names, in their order.
pub open spec fn raws(names: Seq<OptNameModel>) -> Seq<Seq<char>> {
    Seq::new(names.len(), |i: int| names[i].raw)
}

/// The option as a text: its names with a space between them, two spaces,
/// two colons, two spaces and the argument on the first line, and the
/// description on the second.
pub open spec fn opt_text(o: OptModel) -> Seq<char> {
    cat(seq![join(raws(o.names), " "@), "  ::  "@, o.argument, "\n"@, o.description, "\n"@])
}

/// The text, followed by as many spaces as it is shorter than `width`
/// characters.
pub open spec fn padded(s: Seq<char>, width: nat) -> Seq<char> {
    if s.len() >= width {
        s
    } else {
        s + Seq::new((width - s.len()) as nat, |i: int| ' ')
    }
}

/// The width to which the name of a candidate is padded.
pub const NAME_WIDTH: usize = 25;

/// The candidate as a text: its name, padded to 25 characters, and its
/// description in round brackets.
pub open spec fn subcommand_text(s: SubcommandModel) -> Seq<char> {
    cat(seq![padded(s.cmd, NAME_WIDTH as nat), " ("@, s.desc, ")"@])
}

/// The models of the names of `v`.
pub open spec fn name_models(v: Seq<OptName>) -> Seq<OptNameModel> {
    v.map_values(|n: OptName| n@)
}

/// The models of the options of `v`.
pub open spec fn opt_models(v: Seq<Opt>) -> Seq<OptModel> {
    v.map_values(|o: Opt| o@)
}

/// The models of the candidates of `v`.
pub open spec fn subcommand_models(v: Seq<Subcommand>) -> Seq<SubcommandModel> {
    v.map_values(|s: Subcommand| s@)
}

/// The place of a spelling class among the five: the classes are ordered as
/// they are declared.
pub open spec fn type_rank(t: OptNameType) -> nat {
    match t {
        OptNameType::LongType => 0,
        OptNameType::ShortType => 1,
        OptNameType::OldType => 2,
        OptNameType::DoubleDashAlone => 3,
        OptNameType::SingleDashAlone => 4,
    }
}

/// Whether the name `a` comes before `b`: by spelling first, by class among
/// equal spellings.
pub open spec fn name_lt(a: OptNameModel, b: OptNameModel) -> bool {
    lex_lt(a.raw, b.raw) || (a.raw == b.raw && type_rank(a.opt_type) < type_rank(b.opt_type))
}

/// The order of names, as a relation.
pub open spec fn name_order() -> spec_fn(OptNameModel, OptNameModel) -> bool {
    |a: OptNameModel, b: OptNameModel| name_lt(a, b)
}

/// Whether the candidate `a` comes before `b`: by name first, by description
/// among equal names.
pub open spec fn subcommand_lt(a: SubcommandModel, b: SubcommandModel) -> bool {
    lex_lt(a.cmd, b.cmd) || (a.cmd == b.cmd && lex_lt(a.desc, b.desc))
}

/// The order of candidates, as a relation.
pub open spec fn subcommand_order() -> spec_fn(SubcommandModel, SubcommandModel) -> bool {
    |a: SubcommandModel, b: SubcommandModel| subcommand_lt(a, b)
}

/// Names are strictly and totally ordered.
pub proof fn lemma_name_order_strict()
    ensures
        strict_total(name_order()),
{
    let lt = name_order();
    assert forall|a: OptNameModel| !#[trigger] lt(a, a) by {
        lemma_lex_irreflexive(a.raw);
    }
    assert forall|a: OptNameModel, b: OptNameModel| #[trigger] lt(a, b) || lt(b, a) || a == b by {
        lemma_lex_total(a.raw, b.raw);
    }
    assert forall|a: OptNameModel, b: OptNameModel, c: OptNameModel| #[trigger]
        lt(a, b) && #[trigger] lt(b, c) implies lt(a, c) by {
        if lex_lt(a.raw, b.raw) && lex_lt(b.raw, c.raw) {
            lemma_lex_transitive(a.raw, b.raw, c.raw);
        }
    }
}

/// Candidates are strictly and totally ordered.
pub proof fn lemma_subcommand_order_strict()
    ensures
        strict_total(subcommand_order()),
{
    let lt = subcommand_order();
    assert forall|a: SubcommandModel| !#[trigger] lt(a, a) by {
        lemma_lex_irreflexive(a.cmd);
        lemma_lex_irreflexive(a.desc);
    }
    assert forall|a: SubcommandModel, b: SubcommandModel| #[trigger]
        lt(a, b) || lt(b, a) || a == b by {
        lemma_lex_total(a.cmd, b.cmd);
        lemma_lex_total(a.desc, b.desc);
    }
    assert forall|a: SubcommandModel, b: SubcommandModel, c: SubcommandModel| #[trigger]
        lt(a, b) && #[trigger] lt(b, c) implies lt(a, c) by {
        if lex_lt(a.cmd, b.cmd) && lex_lt(b.cmd, c.cmd) {
            lemma_lex_transitive(a.cmd, b.cmd, c.cmd);
        }
        if lex_lt(a.desc, b.desc) && lex_lt(b.desc, c.desc) {
            lemma_lex_transitive(a.desc, b.desc, c.desc);
        }
    }
}

/// The place of a spelling class among the five.
pub fn rank_of(t: OptNameType) -> (r: u8)
    ensures
        r == type_rank(t),
{
    match t {
        OptNameType::LongType => 0,
        OptNameType::ShortType => 1,
        OptNameType::OldType => 2,
        OptNameType::DoubleDashAlone => 3,
        OptNameType::SingleDashAlone => 4,
    }
}

/// How the name spelled `a` of class `ta` stands to the name spelled `b` of
/// class `tb`.
pub fn name_place(a: &[char], ta: OptNameType, b: &[char], tb: OptNameType) -> (r: Place)
    ensures
        r == Place::Before <==> name_lt(
            OptNameModel { raw: a@, opt_type: ta },
            OptNameModel { raw: b@, opt_type: tb },
        ),
        r == Place::Same <==> a@ == b@ && ta == tb,
{
    proof {
        lemma_lex_irreflexive(a@);
    }
    match place_of(a, b) {
        Place::Before => Place::Before,
        Place::After => Place::After,
        Place::Same => {
            let ra = rank_of(ta);
            let rb = rank_of(tb);
            if ra < rb {
                Place::Before
            } else if ra == rb {
                Place::Same
            } else {
                Place::After
            }
        },
    }
}

/// How the candidate `(a, da)` stands to the candidate `(b, db)`.
pub fn subcommand_place(a: &[char], da: &[char], b: &[char], db: &[char]) -> (r: Place)
    ensures
        r == Place::Before <==> subcommand_lt(
            SubcommandModel { cmd: a@, desc: da@ },
            SubcommandModel { cmd: b@, desc: db@ },
        ),
        r == Place::Same <==> a@ == b@ && da@ == db@,
{
    proof {
        lemma_lex_irreflexive(a@);
        lemma_lex_irreflexive(da@);
    }
    match place_of(a, b) {
        Place::Before => Place::Before,
        Place::After => Place::After,
        Place::Same => place_of(da, db),
    }
}

/// The spelling class of `s`, by the first rule that applies: `-` alone;
/// `--` alone; two leading dashes; one leading dash and two bytes in all; one
/// leading dash. A text that does not start with a dash is no option name.
pub open spec fn classify(s: Seq<char>) -> Option<OptNameType> {
    if s =~= seq!['-'] {
        Some(OptNameType::SingleDashAlone)
    } else if s =~= seq!['-', '-'] {
        Some(OptNameType::DoubleDashAlone)
    } else if s.len() >= 2 && s[0] == '-' && s[1] == '-' {
        Some(OptNameType::LongType)
    } else if s.len() >= 1 && s[0] == '-' && utf8_len(s) == 2 {
        Some(OptNameType::ShortType)
    } else if s.len() >= 1 && s[0] == '-' {
        Some(OptNameType::OldType)
    } else {
        None
    }
}

/// The option name that the text `s` spells, if it spells one.
pub open spec fn name_from_text(s: Seq<char>) -> Option<OptNameModel> {
    match classify(s) {
        Some(t) => Some(OptNameModel { raw: s, opt_type: t }),
        None => None,
    }
}

/// Every text that starts with a dash falls in a class, and no other text
/// does.
pub proof fn lemma_classify_total(s: Seq<char>)
    ensures
        s.len() > 0 && s[0] == '-' ==> classify(s) is Some,
        !(s.len() > 0 && s[0] == '-') ==> classify(s) is None,
{
}

/// The class is decided by the shape of the text alone: what follows the
/// dashes is not looked at.
pub proof fn lemma_classify_shapes(s: Seq<char>)
    requires
        s.len() > 0,
        s[0] == '-',
    ensures
        classify(s) == Some(OptNameType::SingleDashAlone) <==> s.len() == 1,
        classify(s) == Some(OptNameType::DoubleDashAlone) <==> s.len() == 2 && s[1] == '-',
        classify(s) == Some(OptNameType::LongType) <==> s.len() > 2 && s[1] == '-',
        classify(s) == Some(OptNameType::ShortType) <==> s.len() == 2 && s[1] != '-' && (
        s[1] as u32) < 0x80,
        classify(s) == Some(OptNameType::OldType) <==> s.len() >= 2 && s[1] != '-' && !(s.len()
            == 2 && (s[1] as u32) < 0x80),
{
    lemma_utf8_len_short(s);
}

/// The spelling class of `s`.
pub fn classify_chars(s: &[char]) -> (r: Option<OptNameType>)
    ensures
        r == classify(s@),
{
    proof {
        lemma_classify_shapes_or_none(s@);
    }
    if s.len() == 0 || s[0] != '-' {
        None
    } else if s.len() == 1 {
        Some(OptNameType::SingleDashAlone)
    } else if s[1] == '-' {
        if s.len() == 2 {
            Some(OptNameType::DoubleDashAlone)
        } else {
            Some(OptNameType::LongType)
        }
    } else if s.len() == 2 && (s[1] as u32) < 0x80 {
        Some(OptNameType::ShortType)
    } else {
        Some(OptNameType::OldType)
    }
}

/// The shapes of the classes, and that no other text has a class.
proof fn lemma_classify_shapes_or_none(s: Seq<char>)
    ensures
        s.len() > 0 && s[0] == '-' ==> {
            &&& classify(s) == Some(OptNameType::SingleDashAlone) <==> s.len() == 1
            &&& classify(s) == Some(OptNameType::DoubleDashAlone) <==> s.len() == 2 && s[1] == '-'
            &&& classify(s) == Some(OptNameType::LongType) <==> s.len() > 2 && s[1] == '-'
            &&& classify(s) == Some(OptNameType::ShortType) <==> s.len() == 2 && s[1] != '-' && (
            s[1] as u32) < 0x80
            &&& classify(s) is Some
        },
        !(s.len() > 0 && s[0] == '-') ==> classify(s) is None,
{
    if s.len() > 0 && s[0] == '-' {
        lemma_classify_shapes(s);
    }
}

impl Clone for OptName {
    fn clone(&self) -> (r: Self)
        ensures
            r@ == self@,
    {
        OptName { raw: self.raw.clone(), opt_type: self.opt_type }
    }
}

impl Clone for Opt {
    fn clone(&self) -> (r: Self)
        ensures
            r@ == self@,
    {
        let mut names: Vec<OptName> = Vec::new();
        let mut i: usize = 0;
        while i < self.names.len()
            invariant
                i <= self.names@.len(),
                name_models(names@) == name_models(self.names@).take(i as int),
            decreases self.names@.len() - i,
        {
            let n = self.names[i].clone();
            let ghost prev = names@;
            names.push(n);
            proof {
                assert(name_models(names@) =~= name_models(prev).push(n@));
                assert(name_models(self.names@).take(i + 1) =~= name_models(self.names@).take(
                    i as int,
                ).push(self.names@[i as int]@));
            }
            i += 1;
        }
        proof {
            assert(name_models(self.names@).take(self.names@.len() as int) =~= name_models(
                self.names@,
            ));
        }
        Opt { names, argument: self.argument.clone(), description: self.description.clone() }
    }
}

impl Clone for Subcommand {
    fn clone(&self) -> (r: Self)
        ensures
            r@ == self@,
    {
        Subcommand { cmd: self.cmd.clone(), desc: self.desc.clone() }
    }
}

impl Clone for Command {
    fn clone(&self) -> (r: Self)
        ensures
            r@ == self@,
        decreases self,
    {
        let mut options: Vec<Opt> = Vec::new();
        let mut i: usize = 0;
        while i < self.options.len()
            invariant
                i <= self.options@.len(),
                opt_models(options@) == opt_models(self.options@).take(i as int),
            decreases self.options@.len() - i,
        {
            let o = self.options[i].clone();
            let ghost prev = options@;
            options.push(o);
            proof {
                assert(opt_models(options@) =~= opt_models(prev).push(o@));
                assert(opt_models(self.options@).take(i + 1) =~= opt_models(self.options@).take(
                    i as int,
                ).push(self.options@[i as int]@));
            }
            i += 1;
        }
        let mut subcommands: Vec<Command> = Vec::new();
        let mut j: usize = 0;
        while j < self.subcommands.len()
            invariant
                j <= self.subcommands@.len(),
                subcommands@.len() == j,
                forall|k: int| 0 <= k < j ==> (#[trigger] subcommands@[k])@ == self.subcommands@[k]@,
            decreases self.subcommands@.len() - j,
        {
            assert(decreases_to!(self => self.subcommands@[j as int]));
            let c = self.subcommands[j].clone();
            subcommands.push(c);
            j += 1;
        }
        let r = Command {
            name: self.name.clone(),
            description: self.description.clone(),
            usage: self.usage.clone(),
            options,
            subcommands,
            version: self.version.clone(),
        };
        proof {
            assert(opt_models(self.options@).take(self.options@.len() as int) =~= opt_models(
                self.options@,
            ));
            assert forall|k: int| 0 <= k < r@.subcommands.len() implies r@.subcommands[k]
                == self@.subcommands[k] by {
                assert(r.subcommands@[k]@ == self.subcommands@[k]@);
            }
            assert(r@.subcommands =~= self@.subcommands);
        }
        r
    }
}

impl OptName {
    /// A name with the given spelling and class.
    pub fn new(raw: String, opt_type: OptNameType) -> (r: Self)
        ensures
            r.raw == raw,
            r.opt_type == opt_type,
            r@ == (OptNameModel { raw: raw@, opt_type }),
    {
        Self { raw, opt_type }
    }

    /// The spelling class of `s`, by the first rule that applies: see
    /// `classify`. A text that does not start with a dash has none.
    pub fn determine_type(s: &str) -> (r: Option<OptNameType>)
        ensures
            r == classify(s@),
            r is Some <==> s@.len() > 0 && s@[0] == '-',
            r == Some(OptNameType::SingleDashAlone) <==> s@ =~= seq!['-'],
            r == Some(OptNameType::DoubleDashAlone) <==> s@ =~= seq!['-', '-'],
            r == Some(OptNameType::LongType) <==> s@.len() > 2 && s@[0] == '-' && s@[1] == '-',
            r == Some(OptNameType::ShortType) <==> s@.len() == 2 && s@[0] == '-' && s@[1] != '-' && (
            s@[1] as u32) < 0x80,
    {
        let chars = chars_of(s);
        proof {
            if s@.len() > 0 && s@[0] == '-' {
                lemma_classify_shapes(s@);
            }
        }
        classify_chars(chars.as_slice())
    }

    /// The option name that `s` spells: `s` itself with its class where `s`
    /// starts with a dash, and nothing where it does not.
    pub fn from_text(s: &str) -> (r: Option<Self>)
        ensures
            name_from_text(s@) is Some <==> r is Some,
            r matches Some(n) ==> Some(n@) == name_from_text(s@),
            r is Some <==> s@.len() > 0 && s@[0] == '-',
            r matches Some(n) ==> n.raw@ == s@ && Some(n.opt_type) == classify(s@),
    {
        match Self::determine_type(s) {
            Some(opt_type) => Some(Self { raw: s.to_owned(), opt_type }),
            None => None,
        }
    }
}

impl OptName {
    /// The name as a text: its spelling.
    pub fn to_text(&self) -> (r: String)
        ensures
            r@ == self@.raw,
    {
        self.raw.clone()
    }
}

impl Opt {
    /// The option as a text: see `opt_text`.
    pub fn to_text(&self) -> (r: String)
        ensures
            r@ == opt_text(self@),
    {
        let mut names: Vec<Vec<char>> = Vec::new();
        let ghost all = raws(self@.names);
        let mut k: usize = 0;
        while k < self.names.len()
            invariant
                k <= self.names@.len(),
                all == raws(self@.names),
                all.len() == self.names@.len(),
                rows(names@) == all.take(k as int),
            decreases self.names@.len() - k,
        {
            let raw = chars_of(self.names[k].raw.as_str());
            let ghost prev = rows(names@);
            names.push(raw);
            proof {
                assert(self@.names[k as int] == self.names@[k as int]@);
                assert(rows(names@) =~= prev.push(raw@));
                assert(all.take(k + 1) =~= all.take(k as int).push(all[k as int]));
            }
            k += 1;
        }
        let space = chars_of(" ");
        proof {
            assert(all.take(self.names@.len() as int) =~= all);
            assert(rows(names@).subrange(0, names@.len() as int) =~= rows(names@));
        }
        let joined = join_range(&names, 0, names.len(), space.as_slice());
        let mut parts: Vec<Vec<char>> = Vec::new();
        parts.push(joined);
        parts.push(chars_of("  ::  "));
        parts.push(chars_of(self.argument.as_str()));
        parts.push(chars_of("\n"));
        parts.push(chars_of(self.description.as_str()));
        parts.push(chars_of("\n"));
        proof {
            assert(rows(parts@) =~= seq![
                join(raws(self@.names), " "@),
                "  ::  "@,
                self@.argument,
                "\n"@,
                self@.description,
                "\n"@,
            ]);
        }
        let text = cat_of(&parts);
        string_of(text.as_slice())
    }
}

impl Subcommand {
    /// The candidate as a text: see `subcommand_text`.
    pub fn to_text(&self) -> (r: String)
        ensures
            r@ == subcommand_text(self@),
    {
        let mut name = chars_of(self.cmd.as_str());
        let ghost given = name@;
        if name.len() < NAME_WIDTH {
            let missing: usize = NAME_WIDTH - name.len();
            let mut k: usize = 0;
            while k < missing
                invariant
                    k <= missing,
                    name@ == given + Seq::new(k as nat, |i: int| ' '),
                decreases missing - k,
            {
                name.push(' ');
                proof {
                    assert(name@ =~= given + Seq::new((k + 1) as nat, |i: int| ' '));
                }
                k += 1;
            }
        }
        let mut parts: Vec<Vec<char>> = Vec::new();
        parts.push(name);
        parts.push(chars_of(" ("));
        parts.push(chars_of(self.desc.as_str()));
        parts.push(chars_of(")"));
        proof {
            assert(rows(parts@) =~= seq![
                padded(self@.cmd, NAME_WIDTH as nat),
                " ("@,
                self@.desc,
                ")"@,
            ]);
        }
        let text = cat_of(&parts);
        string_of(text.as_slice())
    }
}

impl Command {
    /// A command called `name` with nothing else known of it.
    pub fn new(name: String) -> (r: Self)
        ensures
            r.name == name,
            r@ == (CommandModel {
                name: name@,
                description: Seq::empty(),
                usage: Seq::empty(),
                options: Seq::empty(),
                subcommands: Seq::empty(),
                version: Seq::empty(),
            }),
    {
        let r = Self {
            name,
            description: String::new(),
            usage: String::new(),
            options: Vec::new(),
            subcommands: Vec::new(),
            version: String::new(),
        };
        proof {
            assert(r@.options =~= Seq::empty());
            assert(r@.subcommands =~= Seq::empty());
        }
        r
    }

    /// The command as a candidate: its name and its description.
    pub fn as_subcommand(&self) -> (r: Subcommand)
        ensures
            r@ == (SubcommandModel { cmd: self.name@, desc: self.description@ }),
    {
        Subcommand { cmd: self.name.clone(), desc: self.description.clone() }
    }
}

} // verus!
