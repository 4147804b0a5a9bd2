//! A command as JSON, in the flat form in which it is exchanged.

use vstd::prelude::*;
use crate::foreign::{
    json_list, json_of, json_pretty, json_print, json_prints, json_record, json_text, jsons,
    keys_of, record_of, Json,
};
use crate::types::{raws, Command, CommandModel, Opt, OptModel};

verus! {

/// Writes a command as JSON.
pub struct JsonGenerator;

/// The texts as JSON.
pub open spec fn text_list(texts: Seq<Seq<char>>) -> Seq<Json> {
    Seq::new(texts.len(), |i: int| Json::Text(texts[i]))
}

/// An option as JSON: the spellings of its names, its argument and its
/// description.
pub open spec fn option_json(o: OptModel) -> Json {
    Json::Record(
        Map::empty().insert("names"@, Json::List(text_list(raws(o.names)))).insert(
            "argument"@,
            Json::Text(o.argument),
        ).insert("description"@, Json::Text(o.description)),
    )
}

/// A subcommand as JSON: its name and its description, and nothing of what
/// it has below it.
pub open spec fn subcommand_json(c: CommandModel) -> Json {
    Json::Record(
        Map::empty().insert("name"@, Json::Text(c.name)).insert(
            "description"@,
            Json::Text(c.description),
        ),
    )
}

/// The options as JSON.
pub open spec fn option_jsons(opts: Seq<OptModel>) -> Seq<Json> {
    Seq::new(opts.len(), |i: int| option_json(opts[i]))
}

/// The subcommands as JSON.
pub open spec fn subcommand_jsons(subs: Seq<CommandModel>) -> Seq<Json> {
    Seq::new(subs.len(), |i: int| subcommand_json(subs[i]))
}

/// The four entries that every command has.
pub open spec fn base_record(c: CommandModel) -> Map<Seq<char>, Json> {
    Map::empty().insert("name"@, Json::Text(c.name)).insert(
        "description"@,
        Json::Text(c.description),
    ).insert("usage"@, Json::Text(c.usage)).insert("options"@, Json::List(option_jsons(c.options)))
}

/// The record with the subcommands added, where there are any.
pub open spec fn with_subcommands(m: Map<Seq<char>, Json>, c: CommandModel) -> Map<Seq<char>, Json> {
    if c.subcommands.len() > 0 {
        m.insert("subcommands"@, Json::List(subcommand_jsons(c.subcommands)))
    } else {
        m
    }
}

/// The record with the version added, where it is not empty.
pub open spec fn with_version(m: Map<Seq<char>, Json>, c: CommandModel) -> Map<Seq<char>, Json> {
    if c.version.len() > 0 {
        m.insert("version"@, Json::Text(c.version))
    } else {
        m
    }
}

/// A command as JSON: its name, description, usage and options; its
/// subcommands where it has any, each with name and description only; its
/// version where it is not empty.
pub open spec fn command_json(c: CommandModel) -> Json {
    Json::Record(with_version(with_subcommands(base_record(c), c), c))
}

/// The text printed for `j`, and the empty text where it cannot be printed.
pub open spec fn printed(j: Json) -> Seq<char> {
    if json_prints(j) {
        json_pretty(j)
    } else {
        Seq::empty()
    }
}

/// The keys of the records are eight different texts.
proof fn lemma_keys_differ()
    ensures
        "names"@ != "argument"@,
        "names"@ != "description"@,
        "argument"@ != "description"@,
        "name"@ != "description"@,
        "name"@ != "usage"@,
        "name"@ != "options"@,
        "name"@ != "subcommands"@,
        "name"@ != "version"@,
        "description"@ != "usage"@,
        "description"@ != "options"@,
        "description"@ != "subcommands"@,
        "description"@ != "version"@,
        "usage"@ != "options"@,
        "usage"@ != "subcommands"@,
        "usage"@ != "version"@,
        "options"@ != "subcommands"@,
        "options"@ != "version"@,
        "subcommands"@ != "version"@,
{
    reveal_strlit("names");
    reveal_strlit("argument");
    reveal_strlit("description");
    reveal_strlit("name");
    reveal_strlit("usage");
    reveal_strlit("options");
    reveal_strlit("subcommands");
    reveal_strlit("version");
    assert("description"@[0] != "subcommands"@[0]);
    assert("options"@[0] != "version"@[0]);
    assert("names"@[0] != "usage"@[0]);
}

/// Adds the value under a key that no entry has yet.
fn put(entries: &mut Vec<(String, serde_json::Value)>, key: &str, value: serde_json::Value)
    requires
        keys_of(old(entries)@).no_duplicates(),
        !keys_of(old(entries)@).contains(key@),
    ensures
        record_of(final(entries)@) == record_of(old(entries)@).insert(key@, json_of(value)),
        keys_of(final(entries)@) == keys_of(old(entries)@).push(key@),
        keys_of(final(entries)@).no_duplicates(),
{
    let ghost before = entries@;
    entries.push((key.to_owned(), value));
    proof {
        assert(entries@.drop_last() =~= before);
        assert(keys_of(entries@) =~= keys_of(before).push(key@));
        let keys = keys_of(entries@);
        assert forall|i: int, j: int| 0 <= i < keys.len() && 0 <= j < keys.len() && i != j implies keys[i]
            != keys[j] by {
            if i < before.len() && j < before.len() {
                assert(keys_of(before)[i] != keys_of(before)[j]);
            } else if i < before.len() {
                assert(keys_of(before).contains(keys_of(before)[i]));
            } else {
                assert(keys_of(before).contains(keys_of(before)[j]));
            }
        }
    }
}

/// An option as a JSON value.
fn option_value(opt: &Opt) -> (r: serde_json::Value)
    ensures
        json_of(r) == option_json(opt@),
{
    let mut names: Vec<serde_json::Value> = Vec::new();
    let ghost all = text_list(raws(opt@.names));
    let mut k: usize = 0;
    while k < opt.names.len()
        invariant
            k <= opt.names@.len(),
            all == text_list(raws(opt@.names)),
            all.len() == opt.names@.len(),
            jsons(names@) == all.take(k as int),
        decreases opt.names@.len() - k,
    {
        let v = json_text(opt.names[k].raw.as_str());
        let ghost prev = jsons(names@);
        names.push(v);
        proof {
            assert(opt@.names[k as int] == opt.names@[k as int]@);
            assert(jsons(names@) =~= prev.push(json_of(v)));
            assert(all.take(k + 1) =~= all.take(k as int).push(all[k as int]));
        }
        k += 1;
    }
    proof {
        assert(all.take(opt.names@.len() as int) =~= all);
    }
    let mut entries: Vec<(String, serde_json::Value)> = Vec::new();
    proof {
        lemma_keys_differ();
        assert(keys_of(entries@) =~= Seq::empty());
    }
    put(&mut entries, "names", json_list(names));
    put(&mut entries, "argument", json_text(opt.argument.as_str()));
    put(&mut entries, "description", json_text(opt.description.as_str()));
    json_record(entries)
}

/// A subcommand as a JSON value.
fn subcommand_value(sub: &Command) -> (r: serde_json::Value)
    ensures
        json_of(r) == subcommand_json(sub@),
{
    let mut entries: Vec<(String, serde_json::Value)> = Vec::new();
    proof {
        lemma_keys_differ();
        assert(keys_of(entries@) =~= Seq::empty());
    }
    put(&mut entries, "name", json_text(sub.name.as_str()));
    put(&mut entries, "description", json_text(sub.description.as_str()));
    json_record(entries)
}

impl JsonGenerator {
    /// The command as a JSON value: see `command_json`.
    pub fn command_to_json(cmd: &Command) -> (r: serde_json::Value)
        ensures
            json_of(r) == command_json(cmd@),
    {
        let mut options: Vec<serde_json::Value> = Vec::new();
        let ghost wanted = option_jsons(cmd@.options);
        let mut i: usize = 0;
        while i < cmd.options.len()
            invariant
                i <= cmd.options@.len(),
                wanted == option_jsons(cmd@.options),
                wanted.len() == cmd.options@.len(),
                jsons(options@) == wanted.take(i as int),
            decreases cmd.options@.len() - i,
        {
            let v = option_value(&cmd.options[i]);
            let ghost prev = jsons(options@);
            options.push(v);
            proof {
                assert(cmd@.options[i as int] == cmd.options@[i as int]@);
                assert(jsons(options@) =~= prev.push(json_of(v)));
                assert(wanted.take(i + 1) =~= wanted.take(i as int).push(wanted[i as int]));
            }
            i += 1;
        }
        proof {
            assert(wanted.take(cmd.options@.len() as int) =~= wanted);
        }
        let mut entries: Vec<(String, serde_json::Value)> = Vec::new();
        proof {
            lemma_keys_differ();
            assert(keys_of(entries@) =~= Seq::empty());
        }
        put(&mut entries, "name", json_text(cmd.name.as_str()));
        put(&mut entries, "description", json_text(cmd.description.as_str()));
        put(&mut entries, "usage", json_text(cmd.usage.as_str()));
        put(&mut entries, "options", json_list(options));
        proof {
            assert(record_of(entries@) == base_record(cmd@));
        }
        if cmd.subcommands.len() > 0 {
            let mut subs: Vec<serde_json::Value> = Vec::new();
            let ghost wanted_subs = subcommand_jsons(cmd@.subcommands);
            let mut j: usize = 0;
            while j < cmd.subcommands.len()
                invariant
                    j <= cmd.subcommands@.len(),
                    wanted_subs == subcommand_jsons(cmd@.subcommands),
                    wanted_subs.len() == cmd.subcommands@.len(),
                    jsons(subs@) == wanted_subs.take(j as int),
                decreases cmd.subcommands@.len() - j,
            {
                let v = subcommand_value(&cmd.subcommands[j]);
                let ghost prev = jsons(subs@);
                subs.push(v);
                proof {
                    assert(cmd@.subcommands[j as int] == cmd.subcommands@[j as int]@);
                    assert(jsons(subs@) =~= prev.push(json_of(v)));
                    assert(wanted_subs.take(j + 1) =~= wanted_subs.take(j as int).push(
                        wanted_subs[j as int],
                    ));
                }
                j += 1;
            }
            proof {
                assert(wanted_subs.take(cmd.subcommands@.len() as int) =~= wanted_subs);
            }
            put(&mut entries, "subcommands", json_list(subs));
        }
        proof {
            assert(record_of(entries@) == with_subcommands(base_record(cmd@), cmd@));
        }
        if !cmd.version.as_str().is_empty() {
            put(&mut entries, "version", json_text(cmd.version.as_str()));
        }
        json_record(entries)
    }

    /// The text printed, and the empty string where nothing could be
    /// printed.
    pub fn text_or_empty(printed: Result<String, serde_json::Error>) -> (r: String)
        ensures
            match printed {
                Ok(text) => r@ == text@,
                Err(_) => r@ == Seq::<char>::empty(),
            },
    {
        match printed {
            Ok(text) => text,
            Err(_) => String::new(),
        }
    }

    /// The command as JSON text, printed with indentation: the record of
    /// `command_json`. Subcommands come with their names and descriptions
    /// only, whatever they have below them.
    pub fn generate(cmd: &Command) -> (r: String)
        ensures
            r@ == printed(command_json(cmd@)),
    {
        let json = Self::command_to_json(cmd);
        Self::text_or_empty(json_print(&json))
    }
}

} // verus!
