//! The configuration: which commands each hook runs.

use crate::hook_table::{
    copy_strings, law_last_entry_of_a_key_counts, lemma_map_of_is, map_of, texts, HookTable,
};
use crate::toml_document::{
    document_of, entries_of, parse_table, table_get, table_keys, tree_of, TomlTree,
};
use vstd::prelude::*;

verus! {

/// The name of the configuration file, at the root of a repository.
pub const CONFIG_FILENAME: &'static str = ".hookmgr.toml";

/// The key of the table that holds the hooks.
pub const HOOKS_KEY: &'static str = "hooks";

/// Which commands each hook runs.
#[derive(Debug, PartialEq, Eq)]
pub struct HookConfig {
    /// The commands of each hook, by the hook's name.
    pub hooks: HookTable,
}

impl Default for HookConfig {
    /// A configuration without hooks.
    fn default() -> (config: HookConfig)
        ensures
            config.hooks@ == Map::<Seq<char>, Seq<Seq<char>>>::empty(),
    {
        HookConfig { hooks: HookTable::new() }
    }
}

impl Clone for HookConfig {
    fn clone(&self) -> (r: HookConfig)
        ensures
            r.hooks@ == self.hooks@,
    {
        HookConfig { hooks: self.hooks.clone() }
    }
}

/// Why there is no configuration.
#[derive(Debug)]
pub enum ConfigError {
    /// There is no configuration file.
    Missing,
    /// The configuration file is no TOML document.
    Syntax(toml::de::Error),
    /// What stands under the key `hooks` is no table.
    HooksNotTable,
    /// The value of this hook is no array of strings.
    NotCommandList { hook: String },
}

/// What stands under the key `hooks` of a document.
pub enum HooksValue {
    /// The document has no such key.
    Absent,
    /// A value that is no table.
    NotTable,
    /// A table, by its entries: the strings of a value that is an array of strings, `None` for
    /// any other value.
    Table(Vec<(String, Option<Vec<String>>)>),
}

/// The commands that a value lists, or `None` where it is no array of strings.
pub open spec fn commands_of(tree: TomlTree) -> Option<Seq<Seq<char>>> {
    match tree {
        TomlTree::List(items) => if forall|i: int|
            0 <= i < items.len() ==> #[trigger] items[i] is Text {
            Some(items.map_values(|item: TomlTree| item->Text_0))
        } else {
            None
        },
        _ => None,
    }
}

/// The strings of an entry, where it has any.
pub open spec fn listed(commands: Option<Vec<String>>) -> Option<Seq<Seq<char>>> {
    match commands {
        Some(commands) => Some(texts(commands@)),
        None => None,
    }
}

/// The names of the entries of a table of hooks.
pub open spec fn entry_names(entries: Seq<(String, Option<Vec<String>>)>) -> Seq<Seq<char>> {
    entries.map_values(|entry: (String, Option<Vec<String>>)| entry.0@)
}

/// The entries of a table of hooks that are all arrays of strings, by their characters.
pub open spec fn entry_texts(entries: Seq<(String, Option<Vec<String>>)>) -> Seq<
    (Seq<char>, Seq<Seq<char>>),
> {
    entries.map_values(|entry: (String, Option<Vec<String>>)| (entry.0@, texts(entry.1->0@)))
}

/// The entry at `at` is the first whose value is no array of strings.
pub open spec fn first_bad_entry(
    entries: Seq<(String, Option<Vec<String>>)>,
    at: int,
) -> bool {
    &&& 0 <= at < entries.len()
    &&& entries[at].1 is None
    &&& forall|i: int| 0 <= i < at ==> (#[trigger] entries[i]).1 is Some
}

/// What a configuration makes of the value under the key `hooks`.
pub open spec fn hooks_give(value: HooksValue, r: Result<HookConfig, ConfigError>) -> bool {
    match value {
        HooksValue::Absent => r is Ok && r->Ok_0.hooks@ == Map::<
            Seq<char>,
            Seq<Seq<char>>,
        >::empty(),
        HooksValue::NotTable => r is Err && r->Err_0 is HooksNotTable,
        HooksValue::Table(entries) => match r {
            Ok(config) => {
                &&& forall|i: int| 0 <= i < entries@.len() ==> (#[trigger] entries@[i]).1 is Some
                &&& config.hooks@ == map_of(entry_texts(entries@))
            },
            Err(error) => {
                &&& error matches ConfigError::NotCommandList { hook }
                &&& exists|at: int|
                    #[trigger] first_bad_entry(entries@, at) && hook@ == entries@[at].0@
            },
        },
    }
}

/// The configuration that the value under the key `hooks` stands for: no hooks where the key is
/// missing, and an error where the value is anything but a table of arrays of strings.
pub fn config_from_hooks(value: HooksValue) -> (r: Result<HookConfig, ConfigError>)
    ensures
        hooks_give(value, r),
        value is Absent ==> r is Ok && r->Ok_0.hooks@ == Map::<Seq<char>, Seq<Seq<char>>>::empty(),
        value is NotTable ==> r is Err && r->Err_0 is HooksNotTable,
{
    let entries = match value {
        HooksValue::Absent => {
            return Ok(HookConfig::default());
        },
        HooksValue::NotTable => {
            return Err(ConfigError::HooksNotTable);
        },
        HooksValue::Table(entries) => entries,
    };
    let mut hooks = HookTable::new();
    let ghost pairs = entry_texts(entries@);
    let mut i: usize = 0;
    while i < entries.len()
        invariant
            value == HooksValue::Table(entries),
            i <= entries@.len(),
            pairs == entry_texts(entries@),
            forall|j: int| 0 <= j < i ==> (#[trigger] entries@[j]).1 is Some,
            hooks@ == map_of(pairs.take(i as int)),
        decreases entries@.len() - i,
    {
        match &entries[i].1 {
            None => {
                assert(first_bad_entry(entries@, i as int));
                return Err(ConfigError::NotCommandList { hook: entries[i].0.clone() });
            },
            Some(commands) => {
                hooks.insert(entries[i].0.clone(), copy_strings(commands));
                assert(pairs.take(i + 1).drop_last() == pairs.take(i as int));
                assert(pairs.take(i + 1).last() == pairs[i as int]);
            },
        }
        i += 1;
    }
    assert(pairs.take(i as int) == pairs);
    Ok(HookConfig { hooks })
}

/// `value` is what stands in `document` under the key `hooks`.
pub open spec fn stands_under_hooks(
    document: Map<Seq<char>, TomlTree>,
    value: HooksValue,
) -> bool {
    if !document.contains_key(HOOKS_KEY@) {
        value is Absent
    } else {
        match document[HOOKS_KEY@] {
            TomlTree::Table(table) => match value {
                HooksValue::Table(entries) => {
                    &&& entry_names(entries@).no_duplicates()
                    &&& entry_names(entries@).to_set() == table.dom()
                    &&& forall|i: int|
                        0 <= i < entries@.len() ==> listed((#[trigger] entries@[i]).1)
                            == commands_of(table[entries@[i].0@])
                },
                _ => false,
            },
            _ => value is NotTable,
        }
    }
}

/// What a configuration makes of a whole document.
pub open spec fn document_gives(
    document: Map<Seq<char>, TomlTree>,
    r: Result<HookConfig, ConfigError>,
) -> bool {
    if !document.contains_key(HOOKS_KEY@) {
        r is Ok && r->Ok_0.hooks@ == Map::<Seq<char>, Seq<Seq<char>>>::empty()
    } else {
        match document[HOOKS_KEY@] {
            TomlTree::Table(table) => match r {
                Ok(config) => {
                    &&& forall|hook: Seq<char>| #[trigger]
                        table.contains_key(hook) ==> commands_of(table[hook]) is Some
                    &&& config.hooks@ == table.map_values(|tree: TomlTree| commands_of(tree)->0)
                },
                Err(error) => {
                    &&& error matches ConfigError::NotCommandList { hook }
                    &&& table.contains_key(hook@)
                    &&& commands_of(table[hook@]) is None
                },
            },
            _ => r is Err && r->Err_0 is HooksNotTable,
        }
    }
}

/// What a configuration makes of the text of the configuration file.
pub open spec fn text_gives(text: Seq<char>, r: Result<HookConfig, ConfigError>) -> bool {
    match document_of(text) {
        Ok(document) => document_gives(document, r),
        Err(error) => r is Err && r->Err_0 == ConfigError::Syntax(error),
    }
}

/// What stands in a document under other keys than `hooks` makes no difference.
pub proof fn law_other_keys_are_ignored(
    document: Map<Seq<char>, TomlTree>,
    other: Map<Seq<char>, TomlTree>,
    r: Result<HookConfig, ConfigError>,
)
    requires
        document.contains_key(HOOKS_KEY@) == other.contains_key(HOOKS_KEY@),
        document.contains_key(HOOKS_KEY@) ==> document[HOOKS_KEY@] == other[HOOKS_KEY@],
    ensures
        document_gives(document, r) == document_gives(other, r),
{
}

/// Where a document's `hooks` table maps a hook to an array whose elements are all strings, the
/// configuration has for that hook exactly as many commands as the array has elements, and each
/// command is the text of the element at its place.
pub proof fn law_commands_are_the_elements_of_the_array(
    text: Seq<char>,
    document: Map<Seq<char>, TomlTree>,
    table: Map<Seq<char>, TomlTree>,
    hook: Seq<char>,
    items: Seq<TomlTree>,
    r: Result<HookConfig, ConfigError>,
)
    requires
        document_of(text) == Ok::<Map<Seq<char>, TomlTree>, toml::de::Error>(document),
        document.contains_key("hooks"@),
        document["hooks"@] == TomlTree::Table(table),
        table.contains_key(hook),
        table[hook] == TomlTree::List(items),
        forall|i: int| 0 <= i < items.len() ==> #[trigger] items[i] is Text,
        text_gives(text, r),
        r is Ok,
    ensures
        r->Ok_0.hooks@.contains_key(hook),
        r->Ok_0.hooks@[hook].len() == items.len(),
        forall|i: int|
            0 <= i < items.len() ==> #[trigger] items[i] == TomlTree::Text(
                r->Ok_0.hooks@[hook][i],
            ),
{
}

/// A document with a `hooks` table gives a configuration exactly where each value in that table
/// is an array whose elements are all strings. The configuration then has the hooks of the table
/// and no other. Where there is none, the error names a hook of the table whose value is anything
/// else.
pub proof fn law_every_hook_of_the_table_counts(
    text: Seq<char>,
    document: Map<Seq<char>, TomlTree>,
    table: Map<Seq<char>, TomlTree>,
    r: Result<HookConfig, ConfigError>,
)
    requires
        document_of(text) == Ok::<Map<Seq<char>, TomlTree>, toml::de::Error>(document),
        document.contains_key("hooks"@),
        document["hooks"@] == TomlTree::Table(table),
        text_gives(text, r),
    ensures
        r is Ok <==> forall|hook: Seq<char>| #[trigger]
            table.contains_key(hook) ==> table[hook] is List && forall|i: int|
                0 <= i < table[hook]->List_0.len() ==> #[trigger] table[hook]->List_0[i] is Text,
        r is Ok ==> forall|hook: Seq<char>| #[trigger]
            r->Ok_0.hooks@.contains_key(hook) <==> table.contains_key(hook),
        match r {
            Ok(_) => true,
            Err(ConfigError::NotCommandList { hook }) => {
                &&& table.contains_key(hook@)
                &&& match table[hook@] {
                    TomlTree::List(items) => exists|i: int|
                        0 <= i < items.len() && !(#[trigger] items[i] is Text),
                    _ => true,
                }
            },
            Err(_) => false,
        },
{
    if let Ok(config) = r {
        assert forall|hook: Seq<char>| #[trigger] table.contains_key(hook) implies {
            &&& table[hook] is List
            &&& forall|i: int|
                0 <= i < table[hook]->List_0.len() ==> #[trigger] table[hook]->List_0[i] is Text
        } by {
            assert(commands_of(table[hook]) is Some);
        }
    }
}

/// A document without the key `hooks` gives a configuration without hooks. One whose `hooks` is
/// no table, and a text that is no document, give the error that says so.
pub proof fn law_documents_without_a_hooks_table(
    text: Seq<char>,
    r: Result<HookConfig, ConfigError>,
)
    requires
        text_gives(text, r),
    ensures
        match document_of(text) {
            Ok(document) => {
                &&& !document.contains_key("hooks"@) ==> {
                    &&& r is Ok
                    &&& forall|hook: Seq<char>| !r->Ok_0.hooks@.contains_key(hook)
                }
                &&& document.contains_key("hooks"@) && !(document["hooks"@] is Table) ==> {
                    &&& r is Err
                    &&& r->Err_0 is HooksNotTable
                }
            },
            Err(error) => r is Err && r->Err_0 == ConfigError::Syntax(error),
        },
{
}

/// A table of entries gives a configuration exactly where each entry has a list of commands. The
/// configuration then has the names of the entries and no other, and for each name all the
/// commands of its last entry, in order. Where there is none, the error names the first entry
/// that has no list.
pub proof fn law_entries_are_kept_whole(
    entries: Vec<(String, Option<Vec<String>>)>,
    r: Result<HookConfig, ConfigError>,
)
    requires
        hooks_give(HooksValue::Table(entries), r),
    ensures
        r is Ok <==> forall|i: int| 0 <= i < entries@.len() ==> (#[trigger] entries@[i]).1 is Some,
        r is Ok ==> forall|name: Seq<char>| #[trigger]
            r->Ok_0.hooks@.contains_key(name) <==> exists|i: int|
                0 <= i < entries@.len() && (#[trigger] entries@[i]).0@ == name,
        r is Ok ==> forall|i: int|
            #![trigger entries@[i]]
            0 <= i < entries@.len() && (forall|j: int|
                i < j < entries@.len() ==> (#[trigger] entries@[j]).0@ != entries@[i].0@) ==> {
                let commands = r->Ok_0.hooks@[entries@[i].0@];
                &&& commands.len() == entries@[i].1->0@.len()
                &&& forall|k: int|
                    0 <= k < commands.len() ==> #[trigger] commands[k] == entries@[i].1->0@[k]@
            },
        match r {
            Ok(_) => true,
            Err(ConfigError::NotCommandList { hook }) => exists|at: int|
                {
                    &&& 0 <= at < entries@.len()
                    &&& (#[trigger] entries@[at]).1 is None
                    &&& hook@ == entries@[at].0@
                    &&& forall|i: int| 0 <= i < at ==> (#[trigger] entries@[i]).1 is Some
                },
            Err(_) => false,
        },
{
    let pairs = entry_texts(entries@);
    if let Ok(config) = r {
        law_last_entry_of_a_key_counts(pairs);
        assert forall|name: Seq<char>| #[trigger]
            config.hooks@.contains_key(name) <==> exists|i: int|
                0 <= i < entries@.len() && (#[trigger] entries@[i]).0@ == name by {
            if config.hooks@.contains_key(name) {
                let i = choose|i: int| 0 <= i < pairs.len() && #[trigger] pairs[i].0 == name;
                assert(entries@[i].0@ == name);
            }
            if exists|i: int| 0 <= i < entries@.len() && (#[trigger] entries@[i]).0@ == name {
                let i = choose|i: int|
                    0 <= i < entries@.len() && (#[trigger] entries@[i]).0@ == name;
                assert(pairs[i].0 == name);
            }
        }
        assert forall|i: int|
            #![trigger entries@[i]]
            0 <= i < entries@.len() && (forall|j: int|
                i < j < entries@.len() ==> (#[trigger] entries@[j]).0@ != entries@[i].0@) implies {
            let commands = config.hooks@[entries@[i].0@];
            &&& commands.len() == entries@[i].1->0@.len()
            &&& forall|k: int|
                0 <= k < commands.len() ==> #[trigger] commands[k] == entries@[i].1->0@[k]@
        } by {
            assert forall|j: int| i < j < pairs.len() implies #[trigger] pairs[j].0
                != pairs[i].0 by {
                assert(pairs[j].0 == entries@[j].0@);
            }
            assert(pairs[i] == (entries@[i].0@, texts(entries@[i].1->0@)));
            assert(config.hooks@[pairs[i].0] == pairs[i].1);
        }
    } else {
        let at = choose|at: int|
            #[trigger] first_bad_entry(entries@, at) && r->Err_0->NotCommandList_hook@
                == entries@[at].0@;
        assert(entries@[at].1 is None);
    }
}

proof fn lemma_hooks_give_document(
    document: Map<Seq<char>, TomlTree>,
    value: HooksValue,
    r: Result<HookConfig, ConfigError>,
)
    requires
        stands_under_hooks(document, value),
        hooks_give(value, r),
    ensures
        document_gives(document, r),
{
    if let HooksValue::Table(entries) = value {
        let table = document[HOOKS_KEY@]->Table_0;
        let names = entry_names(entries@);
        assert forall|i: int| 0 <= i < entries@.len() implies table.contains_key(
            #[trigger] entries@[i].0@,
        ) by {
            assert(names[i] == entries@[i].0@);
            assert(names.to_set().contains(names[i]));
        }
        if let Ok(config) = r {
            let pairs = entry_texts(entries@);
            let map = table.map_values(|tree: TomlTree| commands_of(tree)->0);
            assert forall|i: int, j: int| 0 <= i < j < pairs.len() implies #[trigger] pairs[i].0
                != #[trigger] pairs[j].0 by {
                assert(names[i] != names[j]);
            }
            assert forall|hook: Seq<char>| #[trigger] table.contains_key(hook) implies exists|
                i: int,
            | 0 <= i < pairs.len() && #[trigger] pairs[i].0 == hook by {
                assert(names.to_set().contains(hook));
                let i = choose|i: int| 0 <= i < names.len() && names[i] == hook;
                assert(pairs[i].0 == hook);
            }
            assert forall|hook: Seq<char>| #[trigger] table.contains_key(hook) implies commands_of(
                table[hook],
            ) is Some by {
                let i = choose|i: int| 0 <= i < pairs.len() && #[trigger] pairs[i].0 == hook;
                assert(entries@[i].1 is Some);
            }
            assert forall|i: int| 0 <= i < pairs.len() implies map.contains_key(
                #[trigger] pairs[i].0,
            ) && map[pairs[i].0] == pairs[i].1 by {
                assert(entries@[i].1 is Some);
                assert(pairs[i].0 == entries@[i].0@);
            }
            lemma_map_of_is(pairs, map);
        }
    }
}

/// The strings of a value that is an array of strings.
fn read_commands(value: &toml::Value) -> (r: Option<Vec<String>>)
    ensures
        listed(r) == commands_of(tree_of(*value)),
{
    match value.as_array() {
        None => None,
        Some(items) => {
            let ghost trees = items@.map_values(|item: toml::Value| tree_of(item));
            let mut commands: Vec<String> = Vec::new();
            let mut i: usize = 0;
            while i < items.len()
                invariant
                    tree_of(*value) == TomlTree::List(trees),
                    trees == items@.map_values(|item: toml::Value| tree_of(item)),
                    i <= items@.len(),
                    commands@.len() == i,
                    forall|j: int|
                        0 <= j < i ==> #[trigger] trees[j] is Text && commands@[j]@
                            == trees[j]->Text_0,
                decreases items@.len() - i,
            {
                assert(trees[i as int] == tree_of(items@[i as int]));
                match items[i].as_str() {
                    None => {
                        assert(!(trees[i as int] is Text));
                        return None;
                    },
                    Some(command) => {
                        commands.push(command.to_string());
                    },
                }
                i += 1;
            }
            assert(texts(commands@) =~= trees.map_values(|item: TomlTree| item->Text_0));
            Some(commands)
        },
    }
}

/// What stands under the key `hooks` of a document.
fn read_hooks(document: &toml::Table) -> (r: HooksValue)
    ensures
        stands_under_hooks(entries_of(*document), r),
{
    let value = match table_get(document, HOOKS_KEY) {
        None => {
            return HooksValue::Absent;
        },
        Some(value) => value,
    };
    let table = match value.as_table() {
        None => {
            return HooksValue::NotTable;
        },
        Some(table) => table,
    };
    let names = table_keys(table);
    let mut entries: Vec<(String, Option<Vec<String>>)> = Vec::new();
    let mut i: usize = 0;
    while i < names.len()
        invariant
            texts(names@).to_set() == entries_of(*table).dom(),
            i <= names@.len(),
            entries@.len() == i,
            forall|j: int|
                0 <= j < i ==> (#[trigger] entries@[j]).0@ == names@[j]@ && listed(entries@[j].1)
                    == commands_of(entries_of(*table)[names@[j]@]),
        decreases names@.len() - i,
    {
        let commands = match table_get(table, names[i].as_str()) {
            None => {
                proof {
                    assert(texts(names@)[i as int] == names@[i as int]@);
                    assert(texts(names@).to_set().contains(names@[i as int]@));
                    assert(false);
                }
                None
            },
            Some(value) => read_commands(value),
        };
        entries.push((names[i].clone(), commands));
        i += 1;
    }
    assert(entry_names(entries@) =~= texts(names@));
    HooksValue::Table(entries)
}

/// Reads a configuration from the text of the configuration file. Keys other than `hooks` are
/// ignored; a text that is no TOML document, or whose `hooks` is anything but a table of arrays
/// of strings, is an error.
pub fn parse_config(text: &str) -> (r: Result<HookConfig, ConfigError>)
    ensures
        text_gives(text@, r),
{
    match parse_table(text) {
        Err(error) => Err(ConfigError::Syntax(error)),
        Ok(document) => {
            let value = read_hooks(&document);
            let ghost given = value;
            let r = config_from_hooks(value);
            proof {
                lemma_hooks_give_document(entries_of(document), given, r);
            }
            r
        },
    }
}

/// Reads the configuration from the contents of the configuration file, where there is one. No
/// file means that nothing is configured (yet, or any more), and is no error; a file that cannot
/// be read as a configuration is one.
pub fn load_config_if_present(contents: Option<&str>) -> (r: Result<
    Option<HookConfig>,
    ConfigError,
>)
    ensures
        match (contents, r) {
            (None, Ok(config)) => config is None,
            (None, Err(_)) => false,
            (Some(text), Ok(Some(config))) => text_gives(text@, Ok(config)),
            (Some(text), Ok(None)) => false,
            (Some(text), Err(error)) => text_gives(text@, Err(error)),
        },
{
    match contents {
        None => Ok(None),
        Some(text) => match parse_config(text) {
            Ok(config) => Ok(Some(config)),
            Err(error) => Err(error),
        },
    }
}

/// Same as `load_config_if_present`, but a missing file is itself an error.
pub fn load_config(contents: Option<&str>) -> (r: Result<HookConfig, ConfigError>)
    ensures
        match contents {
            None => r is Err && r->Err_0 is Missing,
            Some(text) => text_gives(text@, r),
        },
{
    match load_config_if_present(contents) {
        Ok(Some(config)) => Ok(config),
        Ok(None) => Err(ConfigError::Missing),
        Err(error) => Err(error),
    }
}

} // verus!
