//! A dissector's nested fields as nested JSON.

use vstd::prelude::*;
use vstd::string::*;
use crate::ek_output::json::{
    json_string, short_name, short_of, underscored, with_underscores, write_json_string,
};
use crate::lua::tree::{entries_model, FieldValue, FieldsModel, FrameFields, ValueModel};
use crate::text::{dec, hex_encode, hex_of, push_dec, text_equal};

verus! {

/// Entries by name, in order.
pub type Entries = Seq<(Seq<char>, ValueModel)>;

/// How many of the first `n` entries are named `name`.
pub open spec fn count_named(entries: Entries, name: Seq<char>, n: int) -> nat
    decreases n,
{
    if n <= 0 {
        0
    } else {
        count_named(entries, name, n - 1) + if entries[n - 1].0 == name {
            1nat
        } else {
            0nat
        }
    }
}

/// An entry of this name is a subtree.
pub open spec fn names_tree(entries: Entries, name: Seq<char>) -> bool {
    exists|i: int|
        0 <= i < entries.len() && (#[trigger] entries[i]).0 == name && entries[i].1 is Tree
}

/// A leaf: a number, a string, or bytes as a string of hexadecimal digits. A subtree is none, and
/// has no text of this kind.
pub open spec fn leaf_text(v: ValueModel) -> Seq<char> {
    match v {
        ValueModel::UInt(n) => dec(n as nat),
        ValueModel::Str(s) => json_string(s),
        ValueModel::Bytes(b) => json_string(hex_of(b)),
        ValueModel::Tree(_) => Seq::empty(),
    }
}

/// A value: a leaf, or a subtree as an object. Names inside a subtree lose `prefix`, the subtree's
/// own name.
pub open spec fn value_text(v: ValueModel, prefix: Seq<char>, maps: Set<Seq<char>>) -> Seq<char>
    decreases v, 0nat, 0int,
{
    match v {
        ValueModel::Tree(f) => seq!['{'] + members_text(
            f.entries,
            f.entries.len() as int,
            prefix,
            maps,
        ) + seq!['}'],
        _ => leaf_text(v),
    }
}

/// The values among the first `n` entries that are named `name`, with commas between them.
pub open spec fn items_text(
    entries: Entries,
    name: Seq<char>,
    n: int,
    prefix: Seq<char>,
    maps: Set<Seq<char>>,
) -> Seq<char>
    decreases entries, 0nat, n,
{
    if n <= 0 || n > entries.len() {
        Seq::empty()
    } else {
        let before = items_text(entries, name, n - 1, prefix, maps);
        if entries[n - 1].0 == name {
            before + if count_named(entries, name, n - 1) > 0 {
                seq![',']
            } else {
                Seq::empty()
            } + value_text(entries[n - 1].1, prefix, maps)
        } else {
            before
        }
    }
}

/// The values named `name`: the bare value if there is one and it is no subtree, an array
/// otherwise. A subtree stays an array whatever its number, since only subtrees repeat by their
/// nature.
pub open spec fn array_text(
    entries: Entries,
    name: Seq<char>,
    prefix: Seq<char>,
    maps: Set<Seq<char>>,
) -> Seq<char>
    decreases entries, 1nat, 0int,
{
    let items = items_text(entries, name, entries.len() as int, prefix, maps);
    if count_named(entries, name, entries.len() as int) == 1 && !names_tree(entries, name) {
        items
    } else {
        seq!['['] + items + seq![']']
    }
}

/// The last text among the first `n` entries whose name, without `prefix`, is `short`.
pub open spec fn last_text(entries: Entries, short: Seq<char>, prefix: Seq<char>, n: int) -> Option<
    Seq<char>,
>
    decreases n,
{
    if n <= 0 || n > entries.len() {
        None
    } else {
        match entries[n - 1].1 {
            ValueModel::Str(s) if short_of(entries[n - 1].0, prefix) == short => Some(s),
            _ => last_text(entries, short, prefix, n - 1),
        }
    }
}

/// The last leaf among the first `n` entries whose name, without `prefix`, is `short`.
pub open spec fn last_leaf(entries: Entries, short: Seq<char>, prefix: Seq<char>, n: int) -> Option<
    ValueModel,
>
    decreases n,
{
    if n <= 0 || n > entries.len() {
        None
    } else if !(entries[n - 1].1 is Tree) && short_of(entries[n - 1].0, prefix) == short {
        Some(entries[n - 1].1)
    } else {
        last_leaf(entries, short, prefix, n - 1)
    }
}

/// What a subtree adds to a map: the text of its `name` and its `value` leaf, of whatever kind. One
/// that has no such name, or nothing to set under it, adds nothing.
pub open spec fn map_entry(v: ValueModel, prefix: Seq<char>) -> Option<(Seq<char>, ValueModel)> {
    match v {
        ValueModel::Tree(f) => match (
            last_text(f.entries, "name"@, prefix, f.entries.len() as int),
            last_leaf(f.entries, "value"@, prefix, f.entries.len() as int),
        ) {
            (Some(key), Some(value)) => Some((key, value)),
            _ => None,
        },
        _ => None,
    }
}

/// The map members that the subtrees named `name` among the first `n` entries add.
pub open spec fn map_members(entries: Entries, name: Seq<char>, n: int, prefix: Seq<char>) -> Seq<
    char,
>
    decreases n,
{
    if n <= 0 || n > entries.len() {
        Seq::empty()
    } else {
        let before = map_members(entries, name, n - 1, prefix);
        match map_entry(entries[n - 1].1, prefix) {
            Some((key, value)) if entries[n - 1].0 == name => before + if before.len() > 0 {
                seq![',']
            } else {
                Seq::empty()
            } + json_string(key) + seq![':'] + leaf_text(value),
            _ => before,
        }
    }
}

/// The values named `name`, as a map where that is asked for under the short name.
pub open spec fn named_text(
    entries: Entries,
    name: Seq<char>,
    short: Seq<char>,
    maps: Set<Seq<char>>,
) -> Seq<char>
    decreases entries, 2nat, 0int,
{
    if maps.contains(short) {
        seq!['{'] + map_members(entries, name, entries.len() as int, name) + seq!['}']
    } else {
        array_text(entries, name, name, maps)
    }
}

/// The members of an object, one for each name among the first `n` entries, in the order of first
/// occurrence.
pub open spec fn members_text(
    entries: Entries,
    n: int,
    prefix: Seq<char>,
    maps: Set<Seq<char>>,
) -> Seq<char>
    decreases entries, 3nat, n,
{
    if n <= 0 || n > entries.len() {
        Seq::empty()
    } else {
        let before = members_text(entries, n - 1, prefix, maps);
        let name = entries[n - 1].0;
        if count_named(entries, name, n - 1) > 0 {
            before
        } else {
            let short = short_of(name, prefix);
            before + if n > 1 {
                seq![',']
            } else {
                Seq::empty()
            } + json_string(underscored(short)) + seq![':'] + named_text(
                entries,
                name,
                short,
                maps,
            )
        }
    }
}

/// The names in a list.
pub open spec fn name_set(names: Seq<String>) -> Set<Seq<char>> {
    Set::new(|n: Seq<char>| exists|i: int| 0 <= i < names.len() && (#[trigger] names[i])@ == n)
}

/// Whether a name is in a list.
pub fn contains_name(names: &Vec<String>, name: &str) -> (found: bool)
    ensures
        found == name_set(names@).contains(name@),
{
    let mut i: usize = 0;
    while i < names.len()
        invariant
            i <= names@.len(),
            forall|j: int| 0 <= j < i ==> (#[trigger] names@[j])@ != name@,
        decreases names@.len() - i,
    {
        if text_equal(names[i].as_str(), name) {
            return true;
        }
        i += 1;
    }
    false
}

/// How many of the first `n` entries have this name.
fn count_entries(entries: &Vec<(String, FieldValue)>, name: &str, n: usize) -> (count: usize)
    requires
        n <= entries@.len(),
    ensures
        count == count_named(entries_model(entries@), name@, n as int),
        count <= n,
{
    let ghost model = entries_model(entries@);
    let mut count: usize = 0;
    let mut i: usize = 0;
    while i < n
        invariant
            i <= n <= entries@.len(),
            count <= i,
            model == entries_model(entries@),
            count == count_named(model, name@, i as int),
        decreases n - i,
    {
        assert(model[i as int].0 == entries@[i as int].0@);
        if text_equal(entries[i].0.as_str(), name) {
            count += 1;
        }
        i += 1;
    }
    count
}

/// Appends a leaf; see `leaf_text`.
fn write_leaf(out: &mut String, v: &FieldValue)
    ensures
        final(out)@ == old(out)@ + leaf_text(v@),
{
    match v {
        FieldValue::UInt(n) => push_dec(out, *n as u128),
        FieldValue::Str(s) => write_json_string(out, s.as_str()),
        FieldValue::Bytes(b) => {
            let digits = hex_encode(b.as_slice());
            write_json_string(out, digits.as_str());
        },
        FieldValue::Tree(_) => {
            assert(out@ =~= old(out)@ + leaf_text(v@));
        },
    }
}

/// Appends a value; see `value_text`.
pub fn write_field_value(out: &mut String, v: &FieldValue, prefix: &str, maps: &Vec<String>)
    ensures
        final(out)@ == old(out)@ + value_text(v@, prefix@, name_set(maps@)),
    decreases v, 0nat,
{
    match v {
        FieldValue::Tree(child) => {
            out.push('{');
            write_members(out, child, prefix, maps);
            out.push('}');
            assert(out@ =~= old(out)@ + value_text(v@, prefix@, name_set(maps@)));
        },
        _ => write_leaf(out, v),
    }
}

/// Appends the members of a level as those of an object; see `members_text`.
fn write_members(out: &mut String, fields: &FrameFields, prefix: &str, maps: &Vec<String>)
    ensures
        final(out)@ == old(out)@ + members_text(
            fields@.entries,
            fields@.entries.len() as int,
            prefix@,
            name_set(maps@),
        ),
    decreases fields, 2nat,
{
    let ghost model = fields@.entries;
    let ghost set = name_set(maps@);
    let mut i: usize = 0;
    assert(out@ =~= old(out)@ + members_text(model, 0, prefix@, set));
    while i < fields.entries.len()
        invariant
            i <= fields.entries@.len(),
            model == fields@.entries,
            set == name_set(maps@),
            out@ == old(out)@ + members_text(model, i as int, prefix@, set),
        decreases fields.entries@.len() - i,
    {
        let name = fields.entries[i].0.as_str();
        assert(model[i as int].0 == name@);
        if count_entries(&fields.entries, name, i) == 0 {
            let ghost before = out@;
            if i > 0 {
                out.push(',');
            }
            let short = short_name(name, prefix);
            let key = with_underscores(short.as_str());
            write_json_string(out, key.as_str());
            out.push(':');
            write_named_value(out, &fields.entries, name, short.as_str(), maps);
            assert(out@ =~= old(out)@ + members_text(model, i + 1, prefix@, set));
        }
        i += 1;
    }
}

/// Appends the values of one name; see `named_text`.
pub fn write_named_value(
    out: &mut String,
    entries: &Vec<(String, FieldValue)>,
    name: &str,
    short: &str,
    maps: &Vec<String>,
)
    ensures
        final(out)@ == old(out)@ + named_text(
            entries_model(entries@),
            name@,
            short@,
            name_set(maps@),
        ),
    decreases entries, 1nat,
{
    if contains_name(maps, short) {
        write_map(out, entries, name);
    } else {
        write_value_or_array(out, entries, name, maps);
    }
}

/// Appends the values of one name as a bare value or as an array; see `array_text`.
fn write_value_or_array(
    out: &mut String,
    entries: &Vec<(String, FieldValue)>,
    name: &str,
    maps: &Vec<String>,
)
    ensures
        final(out)@ == old(out)@ + array_text(
            entries_model(entries@),
            name@,
            name@,
            name_set(maps@),
        ),
    decreases entries, 0nat,
{
    let ghost model = entries_model(entries@);
    let ghost set = name_set(maps@);
    let bare = count_entries(entries, name, entries.len()) == 1 && !has_tree(entries, name);
    if !bare {
        out.push('[');
    }
    let ghost opened = out@;
    let mut first = true;
    let mut i: usize = 0;
    assert(out@ =~= opened + items_text(model, name@, 0, name@, set));
    while i < entries.len()
        invariant
            i <= entries@.len(),
            model == entries_model(entries@),
            set == name_set(maps@),
            first == (count_named(model, name@, i as int) == 0),
            out@ == opened + items_text(model, name@, i as int, name@, set),
        decreases entries@.len() - i,
    {
        assert(model[i as int] == (entries@[i as int].0@, entries@[i as int].1@));
        if text_equal(entries[i].0.as_str(), name) {
            if !first {
                out.push(',');
            }
            first = false;
            write_field_value(out, &entries[i].1, name, maps);
            assert(out@ =~= opened + items_text(model, name@, i + 1, name@, set));
        }
        i += 1;
    }
    if !bare {
        out.push(']');
    }
    assert(out@ =~= old(out)@ + array_text(model, name@, name@, set));
}

/// Whether an entry of this name is a subtree.
fn has_tree(entries: &Vec<(String, FieldValue)>, name: &str) -> (found: bool)
    ensures
        found == names_tree(entries_model(entries@), name@),
{
    let ghost model = entries_model(entries@);
    let mut i: usize = 0;
    while i < entries.len()
        invariant
            i <= entries@.len(),
            model == entries_model(entries@),
            forall|j: int|
                0 <= j < i ==> !((#[trigger] model[j]).0 == name@ && model[j].1 is Tree),
        decreases entries@.len() - i,
    {
        assert(model[i as int] == (entries@[i as int].0@, entries@[i as int].1@));
        if text_equal(entries[i].0.as_str(), name) {
            if let FieldValue::Tree(_) = &entries[i].1 {
                return true;
            }
        }
        i += 1;
    }
    false
}

/// The last text at a level under a short name; see `last_text`.
fn find_text(fields: &FrameFields, short: &str, prefix: &str) -> (found: Option<String>)
    ensures
        match found {
            Some(text) => last_text(
                fields@.entries,
                short@,
                prefix@,
                fields@.entries.len() as int,
            ) == Some(text@),
            None => last_text(
                fields@.entries,
                short@,
                prefix@,
                fields@.entries.len() as int,
            ) is None,
        },
{
    let ghost model = fields@.entries;
    let mut i: usize = fields.entries.len();
    while i > 0
        invariant
            i <= fields.entries@.len(),
            model == fields@.entries,
            last_text(model, short@, prefix@, i as int) == last_text(
                model,
                short@,
                prefix@,
                model.len() as int,
            ),
        decreases i,
    {
        let entry = &fields.entries[i - 1];
        assert(model[i - 1] == (entry.0@, entry.1@));
        if let FieldValue::Str(s) = &entry.1 {
            let own = short_name(entry.0.as_str(), prefix);
            if text_equal(own.as_str(), short) {
                return Some(s.clone());
            }
        }
        i -= 1;
    }
    None
}

/// The last leaf at a level under a short name; see `last_leaf`.
fn find_leaf<'a>(fields: &'a FrameFields, short: &str, prefix: &str) -> (found: Option<
    &'a FieldValue,
>)
    ensures
        match found {
            Some(leaf) => last_leaf(
                fields@.entries,
                short@,
                prefix@,
                fields@.entries.len() as int,
            ) == Some(leaf@),
            None => last_leaf(
                fields@.entries,
                short@,
                prefix@,
                fields@.entries.len() as int,
            ) is None,
        },
{
    let ghost model = fields@.entries;
    let mut i: usize = fields.entries.len();
    while i > 0
        invariant
            i <= fields.entries@.len(),
            model == fields@.entries,
            last_leaf(model, short@, prefix@, i as int) == last_leaf(
                model,
                short@,
                prefix@,
                model.len() as int,
            ),
        decreases i,
    {
        let entry = &fields.entries[i - 1];
        assert(model[i - 1] == (entry.0@, entry.1@));
        let is_tree = match &entry.1 {
            FieldValue::Tree(_) => true,
            _ => false,
        };
        if !is_tree {
            let own = short_name(entry.0.as_str(), prefix);
            if text_equal(own.as_str(), short) {
                return Some(&entry.1);
            }
        }
        i -= 1;
    }
    None
}

/// Appends the subtrees of one name as a map; see `map_members`.
fn write_map(out: &mut String, entries: &Vec<(String, FieldValue)>, name: &str)
    ensures
        final(out)@ == old(out)@ + (seq!['{'] + map_members(
            entries_model(entries@),
            name@,
            entries@.len() as int,
            name@,
        ) + seq!['}']),
{
    let ghost model = entries_model(entries@);
    out.push('{');
    let ghost opened = out@;
    let mut first = true;
    let mut i: usize = 0;
    assert(out@ =~= opened + map_members(model, name@, 0, name@));
    while i < entries.len()
        invariant
            i <= entries@.len(),
            model == entries_model(entries@),
            first == (map_members(model, name@, i as int, name@).len() == 0),
            out@ == opened + map_members(model, name@, i as int, name@),
        decreases entries@.len() - i,
    {
        assert(model[i as int] == (entries@[i as int].0@, entries@[i as int].1@));
        if text_equal(entries[i].0.as_str(), name) {
            if let FieldValue::Tree(child) = &entries[i].1 {
                let key = find_text(child, "name", name);
                let value = find_leaf(child, "value", name);
                match (key, value) {
                    (Some(key), Some(value)) => {
                        if !first {
                            out.push(',');
                        }
                        first = false;
                        write_json_string(out, key.as_str());
                        out.push(':');
                        write_leaf(out, value);
                        assert(out@ =~= opened + map_members(model, name@, i + 1, name@));
                    },
                    _ => {},
                }
            }
        }
        i += 1;
    }
    out.push('}');
    assert(out@ =~= old(out)@ + (seq!['{'] + map_members(
        model,
        name@,
        entries@.len() as int,
        name@,
    ) + seq!['}']));
}

/// A subtree without a name adds nothing to a map.
pub proof fn law_nameless_is_skipped(
    entries: Entries,
    name: Seq<char>,
    n: int,
    prefix: Seq<char>,
    f: FieldsModel,
)
    requires
        0 < n <= entries.len(),
        entries[n - 1].1 == ValueModel::Tree(f),
        last_text(f.entries, "name"@, prefix, f.entries.len() as int) is None,
    ensures
        map_members(entries, name, n, prefix) == map_members(entries, name, n - 1, prefix),
{
}

/// A subtree with a name that is text and a value leaf of any kind adds its key, with that leaf as
/// the value.
pub proof fn law_named_value_is_kept(
    entries: Entries,
    name: Seq<char>,
    n: int,
    prefix: Seq<char>,
    f: FieldsModel,
    key: Seq<char>,
    value: int,
)
    requires
        0 < n <= entries.len(),
        entries[n - 1] == (name, ValueModel::Tree(f)),
        last_text(f.entries, "name"@, prefix, f.entries.len() as int) == Some(key),
        0 <= value < f.entries.len(),
        short_of(f.entries[value].0, prefix) == "value"@,
        !(f.entries[value].1 is Tree),
        forall|i: int|
            value < i < f.entries.len() && short_of((#[trigger] f.entries[i]).0, prefix)
                == "value"@ ==> f.entries[i].1 is Tree,
    ensures
        map_members(entries, name, n, prefix) == map_members(entries, name, n - 1, prefix) + (
        if map_members(entries, name, n - 1, prefix).len() > 0 {
            seq![',']
        } else {
            Seq::empty()
        }) + json_string(key) + seq![':'] + leaf_text(f.entries[value].1),
{
    lemma_last_leaf(f.entries, "value"@, prefix, value, f.entries.len() as int);
}

proof fn lemma_last_leaf(
    entries: Entries,
    short: Seq<char>,
    prefix: Seq<char>,
    at: int,
    n: int,
)
    requires
        0 <= at < n <= entries.len(),
        short_of(entries[at].0, prefix) == short,
        !(entries[at].1 is Tree),
        forall|i: int|
            at < i < n && short_of((#[trigger] entries[i]).0, prefix) == short
                ==> entries[i].1 is Tree,
    ensures
        last_leaf(entries, short, prefix, n) == Some(entries[at].1),
    decreases n,
{
    if at < n - 1 {
        lemma_last_leaf(entries, short, prefix, at, n - 1);
    }
}

} // verus!
