//! The commands of each hook, kept by the hooks' names.

use crate::text_order::{
    comes_before, lemma_precedes_irreflexive, lemma_precedes_total, lemma_precedes_transitive,
    precedes,
};
use vstd::prelude::*;

verus! {

/// The characters of each of a list of strings.
pub open spec fn texts(strings: Seq<String>) -> Seq<Seq<char>> {
    strings.map_values(|s: String| s@)
}

/// The map that a list of entries builds, later entries over earlier ones.
pub open spec fn map_of<V>(entries: Seq<(Seq<char>, V)>) -> Map<Seq<char>, V>
    decreases entries.len(),
{
    if entries.len() == 0 {
        Map::empty()
    } else {
        map_of(entries.drop_last()).insert(entries.last().0, entries.last().1)
    }
}

/// Each name comes before the next.
pub open spec fn ascending(names: Seq<Seq<char>>) -> bool {
    forall|i: int, j: int| 0 <= i < j < names.len() ==> precedes(names[i], names[j])
}

/// `names` lists `keys`, each once, in the order of strings.
pub open spec fn lists(names: Seq<Seq<char>>, keys: Set<Seq<char>>) -> bool {
    &&& ascending(names)
    &&& names.to_set() == keys
}

/// One hook and its commands.
#[derive(Debug, PartialEq, Eq)]
struct HookEntry {
    name: String,
    commands: Vec<String>,
}

/// The commands of each hook, by the hook's name. The names are kept in order, and no name
/// occurs twice.
#[derive(Debug, PartialEq, Eq)]
pub struct HookTable {
    entries: Vec<HookEntry>,
}

spec fn pairs(entries: Seq<HookEntry>) -> Seq<(Seq<char>, Seq<Seq<char>>)> {
    entries.map_values(|e: HookEntry| (e.name@, texts(e.commands@)))
}

spec fn names_of(entries: Seq<HookEntry>) -> Seq<Seq<char>> {
    entries.map_values(|e: HookEntry| e.name@)
}

impl HookTable {
    #[verifier::type_invariant]
    spec fn ordered(self) -> bool {
        ascending(names_of(self.entries@))
    }
}

impl View for HookTable {
    type V = Map<Seq<char>, Seq<Seq<char>>>;

    closed spec fn view(&self) -> Map<Seq<char>, Seq<Seq<char>>> {
        map_of(pairs(self.entries@))
    }
}

/// No two entries have the same key.
pub(crate) open spec fn distinct_keys<V>(entries: Seq<(Seq<char>, V)>) -> bool {
    forall|i: int, j: int|
        0 <= i < j < entries.len() ==> #[trigger] entries[i].0 != #[trigger] entries[j].0
}

/// The keys of the map that a list of entries builds are the keys of the entries.
pub(crate) proof fn lemma_map_of_keys<V>(entries: Seq<(Seq<char>, V)>)
    ensures
        forall|key: Seq<char>|
            map_of(entries).contains_key(key) <==> exists|i: int|
                0 <= i < entries.len() && #[trigger] entries[i].0 == key,
    decreases entries.len(),
{
    if entries.len() > 0 {
        let rest = entries.drop_last();
        lemma_map_of_keys(rest);
        assert forall|key: Seq<char>| map_of(entries).contains_key(key) <==> exists|i: int|
            0 <= i < entries.len() && #[trigger] entries[i].0 == key by {
            if map_of(rest).contains_key(key) {
                let i = choose|i: int| 0 <= i < rest.len() && #[trigger] rest[i].0 == key;
                assert(entries[i].0 == key);
            }
            if exists|i: int| 0 <= i < entries.len() && #[trigger] entries[i].0 == key {
                let i = choose|i: int| 0 <= i < entries.len() && #[trigger] entries[i].0 == key;
                if i < rest.len() {
                    assert(rest[i].0 == key);
                }
            }
        }
    }
}

/// Where no key occurs twice, each entry is in the map that they build.
proof fn lemma_map_of_values<V>(entries: Seq<(Seq<char>, V)>, i: int)
    requires
        distinct_keys(entries),
        0 <= i < entries.len(),
    ensures
        map_of(entries).contains_key(entries[i].0),
        map_of(entries)[entries[i].0] == entries[i].1,
    decreases entries.len(),
{
    let rest = entries.drop_last();
    if i < rest.len() {
        assert(rest[i] == entries[i]);
        lemma_map_of_values(rest, i);
        assert(entries[i].0 != entries[entries.len() - 1].0);
    }
}

/// The last entry of a key gives its value in the map that the entries build.
pub(crate) proof fn lemma_map_of_last<V>(entries: Seq<(Seq<char>, V)>, i: int)
    requires
        0 <= i < entries.len(),
        forall|j: int| i < j < entries.len() ==> #[trigger] entries[j].0 != entries[i].0,
    ensures
        map_of(entries).contains_key(entries[i].0),
        map_of(entries)[entries[i].0] == entries[i].1,
    decreases entries.len(),
{
    let rest = entries.drop_last();
    if i < rest.len() {
        assert(rest[i] == entries[i]);
        assert forall|j: int| i < j < rest.len() implies #[trigger] rest[j].0 != rest[i].0 by {
            assert(rest[j] == entries[j]);
        }
        lemma_map_of_last(rest, i);
        assert(entries[entries.len() - 1].0 != entries[i].0);
    }
}

/// A map with exactly these entries is the one that they build.
pub(crate) proof fn lemma_map_of_is<V>(entries: Seq<(Seq<char>, V)>, map: Map<Seq<char>, V>)
    requires
        distinct_keys(entries),
        forall|i: int|
            0 <= i < entries.len() ==> map.contains_key(#[trigger] entries[i].0)
                && map[entries[i].0] == entries[i].1,
        forall|key: Seq<char>|
            map.contains_key(key) ==> exists|i: int|
                0 <= i < entries.len() && #[trigger] entries[i].0 == key,
    ensures
        map_of(entries) == map,
{
    lemma_map_of_keys(entries);
    assert forall|key: Seq<char>| map.contains_key(key) implies map_of(entries)[key]
        == map[key] by {
        let i = choose|i: int| 0 <= i < entries.len() && #[trigger] entries[i].0 == key;
        lemma_map_of_values(entries, i);
    }
    assert(map_of(entries) =~= map);
}

proof fn lemma_ascending_is_distinct(entries: Seq<HookEntry>)
    requires
        ascending(names_of(entries)),
    ensures
        distinct_keys(pairs(entries)),
{
    assert forall|i: int, j: int| 0 <= i < j < entries.len() implies #[trigger] pairs(entries)[i].0
        != #[trigger] pairs(entries)[j].0 by {
        assert(precedes(names_of(entries)[i], names_of(entries)[j]));
        lemma_precedes_irreflexive(names_of(entries)[i]);
    }
}

/// Putting `entry` at its place, over the entry of the same name or between the others, keeps
/// the order and sets its key in the map.
proof fn lemma_put(before: Seq<HookEntry>, after: Seq<HookEntry>, entry: HookEntry, at: int)
    requires
        ascending(names_of(before)),
        0 <= at <= before.len(),
        forall|i: int| 0 <= i < at ==> precedes(#[trigger] before[i].name@, entry.name@),
        at < before.len() ==> !precedes(before[at].name@, entry.name@),
        after == if at < before.len() && before[at].name@ == entry.name@ {
            before.update(at, entry)
        } else {
            before.insert(at, entry)
        },
    ensures
        ascending(names_of(after)),
        map_of(pairs(after)) == map_of(pairs(before)).insert(entry.name@, texts(entry.commands@)),
{
    let old_names = names_of(before);
    let names = names_of(after);
    let replaced = at < before.len() && before[at].name@ == entry.name@;
    assert forall|i: int| at <= i < before.len() && !replaced implies precedes(
        entry.name@,
        #[trigger] before[i].name@,
    ) by {
        lemma_precedes_total(before[at].name@, entry.name@);
        if at < i {
            assert(precedes(old_names[at], old_names[i]));
            lemma_precedes_transitive(entry.name@, before[at].name@, before[i].name@);
        }
    }
    assert forall|i: int, j: int| 0 <= i < j < names.len() implies precedes(names[i], names[j]) by {
        if replaced {
            assert(names[i] == old_names[i]);
            assert(names[j] == old_names[j]);
        } else if j < at {
            assert(names[i] == old_names[i] && names[j] == old_names[j]);
        } else if j == at {
            assert(names[i] == before[i].name@);
        } else if i < at {
            assert(names[i] == old_names[i] && names[j] == old_names[j - 1]);
        } else if i == at {
            assert(names[j] == before[j - 1].name@);
        } else {
            assert(names[i] == old_names[i - 1] && names[j] == old_names[j - 1]);
        }
    }
    lemma_ascending_is_distinct(before);
    lemma_ascending_is_distinct(after);
    let old_pairs = pairs(before);
    let new_pairs = pairs(after);
    let map = map_of(old_pairs).insert(entry.name@, texts(entry.commands@));
    lemma_map_of_keys(old_pairs);
    assert(new_pairs[at] == (entry.name@, texts(entry.commands@)));
    assert forall|i: int| 0 <= i < new_pairs.len() implies map.contains_key(
        #[trigger] new_pairs[i].0,
    ) && map[new_pairs[i].0] == new_pairs[i].1 by {
        if i != at {
            let k = if i < at || replaced {
                i
            } else {
                i - 1
            };
            assert(new_pairs[i] == old_pairs[k]);
            lemma_map_of_values(old_pairs, k);
            if i < at {
                assert(new_pairs[i].0 != new_pairs[at].0);
            } else {
                assert(new_pairs[at].0 != new_pairs[i].0);
            }
        }
    }
    assert forall|key: Seq<char>| map.contains_key(key) implies exists|i: int|
        0 <= i < new_pairs.len() && #[trigger] new_pairs[i].0 == key by {
        if key == entry.name@ {
            assert(new_pairs[at].0 == key);
        } else {
            let k = choose|k: int| 0 <= k < old_pairs.len() && #[trigger] old_pairs[k].0 == key;
            if k < at || replaced {
                assert(new_pairs[k].0 == key);
            } else {
                assert(new_pairs[k + 1].0 == key);
            }
        }
    }
    lemma_map_of_is(new_pairs, map);
}

/// What `lists` says of the strings themselves.
pub(crate) proof fn lemma_listed_strings(names: Seq<String>, keys: Set<Seq<char>>)
    requires
        lists(texts(names), keys),
    ensures
        forall|i: int, j: int|
            0 <= i < j < names.len() ==> precedes(#[trigger] names[i]@, #[trigger] names[j]@),
        forall|i: int| 0 <= i < names.len() ==> keys.contains(#[trigger] names[i]@),
        forall|key: Seq<char>| #[trigger]
            keys.contains(key) ==> exists|i: int| 0 <= i < names.len() && #[trigger] names[i]@
                == key,
{
    let listed = texts(names);
    law_lists_hold_each_key_once(listed, keys);
    assert forall|i: int, j: int| 0 <= i < j < names.len() implies precedes(
        #[trigger] names[i]@,
        #[trigger] names[j]@,
    ) by {
        assert(precedes(listed[i], listed[j]));
    }
    assert forall|i: int| 0 <= i < names.len() implies keys.contains(#[trigger] names[i]@) by {
        assert(keys.contains(listed[i]));
    }
    assert forall|key: Seq<char>| #[trigger] keys.contains(key) implies exists|i: int|
        0 <= i < names.len() && #[trigger] names[i]@ == key by {
        let i = choose|i: int| 0 <= i < listed.len() && #[trigger] listed[i] == key;
        assert(names[i]@ == key);
    }
}

/// A copy of a list of strings.
pub(crate) fn copy_strings(strings: &Vec<String>) -> (r: Vec<String>)
    ensures
        texts(r@) == texts(strings@),
{
    let mut out: Vec<String> = Vec::new();
    let mut i: usize = 0;
    while i < strings.len()
        invariant
            i <= strings@.len(),
            out@.len() == i,
            forall|j: int| 0 <= j < i ==> out@[j]@ == strings@[j]@,
        decreases strings@.len() - i,
    {
        out.push(strings[i].clone());
        i += 1;
    }
    assert(texts(out@) =~= texts(strings@));
    out
}

impl HookTable {
    /// A table without hooks.
    pub fn new() -> (table: HookTable)
        ensures
            table@ == Map::<Seq<char>, Seq<Seq<char>>>::empty(),
    {
        HookTable { entries: Vec::new() }
    }

    /// Gives a hook these commands, in place of those it had.
    pub fn insert(&mut self, name: String, commands: Vec<String>)
        ensures
            final(self)@ == old(self)@.insert(name@, texts(commands@)),
            final(self)@[name@].len() == commands@.len(),
            forall|i: int|
                0 <= i < commands@.len() ==> final(self)@[name@][i] == #[trigger] commands@[i]@,
    {
        proof {
            use_type_invariant(&*self);
        }
        let mut entries: Vec<HookEntry> = Vec::new();
        std::mem::swap(&mut entries, &mut self.entries);
        let ghost before = entries@;
        let mut at: usize = 0;
        while at < entries.len() && comes_before(entries[at].name.as_str(), name.as_str())
            invariant
                at <= entries@.len(),
                forall|i: int| 0 <= i < at ==> precedes(#[trigger] entries@[i].name@, name@),
            decreases entries@.len() - at,
        {
            at += 1;
        }
        let replace = at < entries.len() && entries[at].name == name;
        let entry = HookEntry { name, commands };
        let ghost put = entry;
        if replace {
            entries.set(at, entry);
        } else {
            entries.insert(at, entry);
        }
        proof {
            lemma_put(before, entries@, put, at as int);
        }
        self.entries = entries;
    }

    /// The commands of a hook, where it has an entry.
    pub fn get(&self, name: &str) -> (r: Option<&Vec<String>>)
        ensures
            match r {
                Some(commands) => self@.contains_key(name@) && texts(commands@) == self@[name@],
                None => !self@.contains_key(name@),
            },
            r is Some ==> r->0@.len() == self@[name@].len() && forall|i: int|
                0 <= i < r->0@.len() ==> self@[name@][i] == #[trigger] r->0@[i]@,
    {
        proof {
            use_type_invariant(self);
            lemma_ascending_is_distinct(self.entries@);
            lemma_map_of_keys(pairs(self.entries@));
        }
        let wanted = name.to_string();
        let mut i: usize = 0;
        while i < self.entries.len()
            invariant
                wanted@ == name@,
                i <= self.entries@.len(),
                distinct_keys(pairs(self.entries@)),
                forall|j: int| 0 <= j < i ==> #[trigger] pairs(self.entries@)[j].0 != name@,
            decreases self.entries@.len() - i,
        {
            if self.entries[i].name == wanted {
                proof {
                    lemma_map_of_values(pairs(self.entries@), i as int);
                }
                return Some(&self.entries[i].commands);
            }
            i += 1;
        }
        None
    }

    /// Whether the table has no hooks.
    pub fn is_empty(&self) -> (r: bool)
        ensures
            r == (self@ == Map::<Seq<char>, Seq<Seq<char>>>::empty()),
    {
        proof {
            lemma_map_of_keys(pairs(self.entries@));
            if self.entries@.len() > 0 {
                let key = pairs(self.entries@)[0].0;
                assert(self@.contains_key(key));
            }
        }
        self.entries.len() == 0
    }

    /// The names of the hooks, in order.
    pub fn keys(&self) -> (r: Vec<String>)
        ensures
            lists(texts(r@), self@.dom()),
            forall|i: int, j: int|
                0 <= i < j < r@.len() ==> precedes(#[trigger] r@[i]@, #[trigger] r@[j]@),
            forall|i: int| 0 <= i < r@.len() ==> self@.contains_key(#[trigger] r@[i]@),
            forall|name: Seq<char>| #[trigger]
                self@.contains_key(name) ==> exists|i: int|
                    0 <= i < r@.len() && #[trigger] r@[i]@ == name,
    {
        proof {
            use_type_invariant(self);
            lemma_map_of_keys(pairs(self.entries@));
        }
        let mut names: Vec<String> = Vec::new();
        let mut i: usize = 0;
        while i < self.entries.len()
            invariant
                i <= self.entries@.len(),
                names@.len() == i,
                forall|j: int| 0 <= j < i ==> names@[j]@ == self.entries@[j].name@,
            decreases self.entries@.len() - i,
        {
            names.push(self.entries[i].name.clone());
            i += 1;
        }
        proof {
            let listed = texts(names@);
            assert(listed =~= names_of(self.entries@));
            assert forall|key: Seq<char>| listed.to_set().contains(key) <==> self@.dom().contains(
                key,
            ) by {
                if listed.contains(key) {
                    let j = choose|j: int| 0 <= j < listed.len() && listed[j] == key;
                    assert(pairs(self.entries@)[j].0 == key);
                }
                if self@.contains_key(key) {
                    let j = choose|j: int|
                        0 <= j < self.entries@.len() && #[trigger] pairs(self.entries@)[j].0 == key;
                    assert(listed[j] == key);
                }
            }
            assert(listed.to_set() =~= self@.dom());
            lemma_listed_strings(names@, self@.dom());
        }
        names
    }
}

impl Default for HookTable {
    /// A table without hooks.
    fn default() -> (table: HookTable)
        ensures
            table@ == Map::<Seq<char>, Seq<Seq<char>>>::empty(),
    {
        HookTable::new()
    }
}

impl Clone for HookTable {
    fn clone(&self) -> (r: HookTable)
        ensures
            r@ == self@,
    {
        proof {
            use_type_invariant(self);
        }
        let mut entries: Vec<HookEntry> = Vec::new();
        let mut i: usize = 0;
        while i < self.entries.len()
            invariant
                i <= self.entries@.len(),
                entries@.len() == i,
                forall|j: int|
                    0 <= j < i ==> (#[trigger] entries@[j]).name@ == self.entries@[j].name@ && texts(
                        entries@[j].commands@,
                    ) == texts(self.entries@[j].commands@),
            decreases self.entries@.len() - i,
        {
            entries.push(
                HookEntry {
                    name: self.entries[i].name.clone(),
                    commands: copy_strings(&self.entries[i].commands),
                },
            );
            i += 1;
        }
        assert(names_of(entries@) =~= names_of(self.entries@));
        assert(pairs(entries@) =~= pairs(self.entries@));
        HookTable { entries }
    }
}

/// Where `names` and `other` list the same keys, `other` holds what stands first in `names`.
proof fn lemma_same_start(
    names: Seq<Seq<char>>,
    other: Seq<Seq<char>>,
    keys: Set<Seq<char>>,
    count: int,
)
    requires
        lists(names, keys),
        lists(other, keys),
        0 <= count <= names.len(),
    ensures
        count <= other.len(),
        forall|i: int| 0 <= i < count ==> names[i] == other[i],
    decreases count,
{
    if count > 0 {
        let last = count - 1;
        lemma_same_start(names, other, keys, last);
        let name = names[last];
        assert(names.to_set().contains(name));
        assert(other.to_set().contains(name));
        let j = choose|j: int| 0 <= j < other.len() && other[j] == name;
        lemma_precedes_irreflexive(name);
        assert(last <= j);
        if last < j {
            let first = other[last];
            assert(precedes(first, name));
            assert(other.to_set().contains(first));
            assert(names.to_set().contains(first));
            let k = choose|k: int| 0 <= k < names.len() && names[k] == first;
            lemma_precedes_irreflexive(first);
            if k < last {
                assert(precedes(other[k], other[last]));
            } else if k > last {
                lemma_precedes_transitive(first, name, first);
            }
        }
    }
}

/// A list of texts has one text for each string, in order, with all the characters of the string.
pub proof fn law_texts_are_those_of_the_strings(strings: Seq<String>)
    ensures
        texts(strings).len() == strings.len(),
        forall|i: int| 0 <= i < strings.len() ==> texts(strings)[i] == #[trigger] strings[i]@,
{
}

/// A list of keys holds every key and nothing else, no key twice, and each key before those that
/// it precedes.
pub proof fn law_lists_hold_each_key_once(names: Seq<Seq<char>>, keys: Set<Seq<char>>)
    ensures
        lists(names, keys) <==> {
            &&& forall|i: int, j: int|
                0 <= i < j < names.len() ==> precedes(#[trigger] names[i], #[trigger] names[j])
            &&& forall|i: int| 0 <= i < names.len() ==> keys.contains(#[trigger] names[i])
            &&& forall|key: Seq<char>| #[trigger]
                keys.contains(key) ==> exists|i: int| 0 <= i < names.len() && #[trigger] names[i]
                    == key
        },
        lists(names, keys) ==> names.no_duplicates(),
{
    if lists(names, keys) {
        assert forall|i: int| 0 <= i < names.len() implies keys.contains(#[trigger] names[i]) by {
            assert(names.to_set().contains(names[i]));
        }
        assert forall|key: Seq<char>| #[trigger] keys.contains(key) implies exists|i: int|
            0 <= i < names.len() && #[trigger] names[i] == key by {
            assert(names.to_set().contains(key));
        }
        assert forall|i: int, j: int| 0 <= i < j < names.len() implies names[i] != names[j] by {
            assert(precedes(names[i], names[j]));
            lemma_precedes_irreflexive(names[i]);
        }
    }
    if {
        &&& forall|i: int| 0 <= i < names.len() ==> keys.contains(#[trigger] names[i])
        &&& forall|key: Seq<char>| #[trigger]
            keys.contains(key) ==> exists|i: int| 0 <= i < names.len() && #[trigger] names[i]
                == key
    } {
        assert forall|key: Seq<char>| keys.contains(key) implies names.to_set().contains(key) by {
            let i = choose|i: int| 0 <= i < names.len() && #[trigger] names[i] == key;
            assert(names.contains(names[i]));
        }
        assert(names.to_set() =~= keys);
    }
}

/// The map that a list of entries builds has the keys of the entries, and for each key the value
/// of its last entry.
pub proof fn law_last_entry_of_a_key_counts<V>(entries: Seq<(Seq<char>, V)>)
    ensures
        forall|key: Seq<char>|
            map_of(entries).contains_key(key) <==> exists|i: int|
                0 <= i < entries.len() && #[trigger] entries[i].0 == key,
        forall|i: int|
            0 <= i < entries.len() && (forall|j: int|
                i < j < entries.len() ==> #[trigger] entries[j].0 != entries[i].0) ==> map_of(
                entries,
            )[(#[trigger] entries[i]).0] == entries[i].1,
{
    lemma_map_of_keys(entries);
    assert forall|i: int|
        0 <= i < entries.len() && (forall|j: int|
            i < j < entries.len() ==> #[trigger] entries[j].0 != entries[i].0) implies map_of(
        entries,
    )[(#[trigger] entries[i]).0] == entries[i].1 by {
        lemma_map_of_last(entries, i);
    }
}

/// Only one list has these names in order, so a list in order is the same wherever it is made.
pub proof fn law_names_have_one_order(
    names: Seq<Seq<char>>,
    other: Seq<Seq<char>>,
    keys: Set<Seq<char>>,
)
    requires
        lists(names, keys),
        lists(other, keys),
    ensures
        names == other,
{
    lemma_same_start(names, other, keys, names.len() as int);
    lemma_same_start(other, names, keys, other.len() as int);
}

} // verus!
