//! What nested fields read as once they are written as JSON.

use vstd::prelude::*;
use vstd::string::*;
use crate::ek_output::json::{json_string, short_of, underscored};
use crate::ek_output::joined;
use crate::ek_output::reading::{
    after_item, after_member, ends_value, is_digit, law_written_number_reads_back,
    law_written_string_reads_back, lemma_appended_member, lemma_dec_digits, lemma_item, lemma_list,
    lemma_member, lemma_object, read_items, read_members, read_value, Json,
};
use crate::ek_output::render::{
    array_text, count_named, items_text, last_leaf, last_text, leaf_text, map_entry, map_members,
    members_text, named_text, names_tree, value_text, Entries,
};
use crate::lua::tree::ValueModel;
use crate::text::{dec, hex_of};

verus! {

/// A list of texts.
pub open spec fn texts_json(values: Seq<Seq<char>>) -> Seq<Json> {
    Seq::new(values.len(), |i: int| Json::Text(values[i]))
}

/// One of the first `n` entries is named `name`.
pub open spec fn occurs(entries: Entries, name: Seq<char>, n: int) -> bool {
    exists|i: int| 0 <= i < n && (#[trigger] entries[i]).0 == name
}

/// A leaf: a number as a number, text as text, bytes as their hexadecimal digits.
pub open spec fn leaf_json(v: ValueModel) -> Json {
    match v {
        ValueModel::UInt(n) => Json::Number(n as nat),
        ValueModel::Str(s) => Json::Text(s),
        ValueModel::Bytes(b) => Json::Text(hex_of(b)),
        ValueModel::Tree(_) => Json::Object(Seq::empty()),
    }
}

/// A value: a leaf, or a subtree as the object of its fields.
pub open spec fn value_json(v: ValueModel, prefix: Seq<char>, maps: Set<Seq<char>>) -> Json
    decreases v, 0nat, 0int,
{
    match v {
        ValueModel::Tree(f) => Json::Object(
            members_json(f.entries, f.entries.len() as int, prefix, maps),
        ),
        _ => leaf_json(v),
    }
}

/// The values among the first `n` entries that are named `name`, in order.
pub open spec fn items_json(
    entries: Entries,
    name: Seq<char>,
    n: int,
    prefix: Seq<char>,
    maps: Set<Seq<char>>,
) -> Seq<Json>
    decreases entries, 0nat, n,
{
    if n <= 0 || n > entries.len() {
        Seq::empty()
    } else if entries[n - 1].0 == name {
        items_json(entries, name, n - 1, prefix, maps).push(
            value_json(entries[n - 1].1, prefix, maps),
        )
    } else {
        items_json(entries, name, n - 1, prefix, maps)
    }
}

/// The members of the map that the subtrees named `name` among the first `n` entries make.
pub open spec fn map_json(entries: Entries, name: Seq<char>, n: int, prefix: Seq<char>) -> Seq<
    (Seq<char>, Json),
>
    decreases n,
{
    if n <= 0 || n > entries.len() {
        Seq::empty()
    } else {
        match map_entry(entries[n - 1].1, prefix) {
            Some((key, value)) if entries[n - 1].0 == name => map_json(
                entries,
                name,
                n - 1,
                prefix,
            ).push((key, leaf_json(value))),
            _ => map_json(entries, name, n - 1, prefix),
        }
    }
}

/// All values of one name: a map where one is asked for; else a lone leaf as it is; else a list.
pub open spec fn named_json(
    entries: Entries,
    name: Seq<char>,
    short: Seq<char>,
    maps: Set<Seq<char>>,
) -> Json
    decreases entries, 2nat, 0int,
{
    let items = items_json(entries, name, entries.len() as int, name, maps);
    if maps.contains(short) {
        Json::Object(map_json(entries, name, entries.len() as int, name))
    } else if items.len() == 1 && (forall|i: int|
        0 <= i < entries.len() && (#[trigger] entries[i]).0 == name ==> !(entries[i].1 is Tree)) {
        items[0]
    } else {
        Json::List(items)
    }
}

/// The members of an object: one for each name among the first `n` entries.
pub open spec fn members_json(
    entries: Entries,
    n: int,
    prefix: Seq<char>,
    maps: Set<Seq<char>>,
) -> Seq<(Seq<char>, Json)>
    decreases entries, 3nat, n,
{
    if n <= 0 || n > entries.len() {
        Seq::empty()
    } else if occurs(entries, entries[n - 1].0, n - 1) {
        members_json(entries, n - 1, prefix, maps)
    } else {
        let name = entries[n - 1].0;
        let short = short_of(name, prefix);
        members_json(entries, n - 1, prefix, maps).push(
            (underscored(short), named_json(entries, name, short, maps)),
        )
    }
}

proof fn lemma_joined_reads(values: Seq<Seq<char>>, n: int, tail: Seq<char>)
    requires
        0 < n <= values.len(),
    ensures
        joined(values, n).len() > 0,
        joined(values, n)[0] == '"',
        read_items(joined(values, n) + tail, Seq::empty()) == after_item(
            tail,
            texts_json(values.take(n)),
        ),
    decreases n,
{
    let item = json_string(values[n - 1]);
    law_written_string_reads_back(values[n - 1], tail);
    let before = joined(values, n - 1);
    if n == 1 {
        assert(before =~= Seq::empty());
        assert(joined(values, n) + tail =~= item + tail);
        lemma_item(item, Json::Text(values[0]), tail, Seq::empty());
        assert(Seq::<Json>::empty().push(Json::Text(values[0])) =~= texts_json(values.take(1)));
    } else {
        let more = seq![','] + item + tail;
        lemma_joined_reads(values, n - 1, more);
        assert(joined(values, n) + tail =~= before + more);
        lemma_item(item, Json::Text(values[n - 1]), tail, texts_json(values.take(n - 1)));
        assert(texts_json(values.take(n - 1)).push(Json::Text(values[n - 1])) =~= texts_json(
            values.take(n),
        ));
    }
}

/// An array of strings reads back as exactly the strings that were put in, in order, however many
/// there are and whatever they hold.
pub proof fn law_array_of_strings_reads_back(values: Seq<Seq<char>>, tail: Seq<char>)
    ensures
        read_value(seq!['['] + joined(values, values.len() as int) + seq![']'] + tail) == Some(
            (Json::List(texts_json(values)), tail),
        ),
{
    if values.len() > 0 {
        lemma_joined_reads(values, values.len() as int, seq![']'] + tail);
    }
    assert(values.take(values.len() as int) =~= values);
    lemma_list(joined(values, values.len() as int), texts_json(values), tail);
}

pub(crate) proof fn lemma_occurs(
    entries: Entries,
    name: Seq<char>,
    n: int,
    prefix: Seq<char>,
    maps: Set<Seq<char>>,
)
    requires
        0 <= n <= entries.len(),
    ensures
        count_named(entries, name, n) == items_json(entries, name, n, prefix, maps).len(),
        count_named(entries, name, n) > 0 <==> occurs(entries, name, n),
    decreases n,
{
    if n > 0 {
        lemma_occurs(entries, name, n - 1, prefix, maps);
        if occurs(entries, name, n - 1) {
            let i = choose|i: int| 0 <= i < n - 1 && (#[trigger] entries[i]).0 == name;
            assert(entries[i].0 == name);
        }
        if occurs(entries, name, n) && entries[n - 1].0 != name {
            let i = choose|i: int| 0 <= i < n && (#[trigger] entries[i]).0 == name;
            assert(i < n - 1 && entries[i].0 == name);
        }
    }
}

proof fn lemma_leaf_reads(v: ValueModel, tail: Seq<char>)
    requires
        !(v is Tree),
        ends_value(tail),
    ensures
        leaf_text(v).len() > 0,
        leaf_text(v)[0] != ']',
        read_value(leaf_text(v) + tail) == Some((leaf_json(v), tail)),
{
    match v {
        ValueModel::UInt(n) => {
            law_written_number_reads_back(n as nat, tail);
            lemma_dec_digits(n as nat);
            assert(is_digit(dec(n as nat)[0]));
        },
        ValueModel::Str(s) => law_written_string_reads_back(s, tail),
        ValueModel::Bytes(b) => law_written_string_reads_back(hex_of(b), tail),
        ValueModel::Tree(_) => {},
    }
}

proof fn lemma_last_leaf(entries: Entries, short: Seq<char>, prefix: Seq<char>, n: int)
    ensures
        last_leaf(entries, short, prefix, n) is Some ==> !(last_leaf(entries, short, prefix, n)->0
            is Tree),
    decreases n,
{
    if 0 < n <= entries.len() {
        lemma_last_leaf(entries, short, prefix, n - 1);
    }
}

proof fn lemma_map_reads(entries: Entries, name: Seq<char>, n: int, prefix: Seq<char>, tail: Seq<
    char,
>)
    requires
        0 <= n <= entries.len(),
        ends_value(tail),
    ensures
        map_members(entries, name, n, prefix).len() == 0 <==> map_json(
            entries,
            name,
            n,
            prefix,
        ).len() == 0,
        map_members(entries, name, n, prefix).len() > 0 ==> {
            &&& map_members(entries, name, n, prefix)[0] == '"'
            &&& read_members(map_members(entries, name, n, prefix) + tail, Seq::empty())
                == after_member(tail, map_json(entries, name, n, prefix))
        },
    decreases n,
{
    if n > 0 {
        let before = map_members(entries, name, n - 1, prefix);
        match map_entry(entries[n - 1].1, prefix) {
            Some((key, value)) if entries[n - 1].0 == name => {
                let f = entries[n - 1].1->Tree_0;
                lemma_last_leaf(f.entries, "value"@, prefix, f.entries.len() as int);
                lemma_leaf_reads(value, tail);
                let read = map_json(entries, name, n - 1, prefix);
                lemma_member(key, leaf_text(value), leaf_json(value), tail, read);
                let more = seq![','] + json_string(key) + seq![':'] + leaf_text(value) + tail;
                lemma_map_reads(entries, name, n - 1, prefix, more);
                let text = map_members(entries, name, n, prefix);
                if before.len() == 0 {
                    assert(read =~= Seq::empty());
                    assert(text + tail =~= json_string(key) + seq![':'] + leaf_text(value) + tail);
                } else {
                    assert(text + tail =~= before + more);
                }
            },
            _ => lemma_map_reads(entries, name, n - 1, prefix, tail),
        }
    }
}

/// A value reads back as itself, whatever follows it.
pub proof fn law_value_reads_back(
    v: ValueModel,
    prefix: Seq<char>,
    maps: Set<Seq<char>>,
    tail: Seq<char>,
)
    requires
        ends_value(tail),
    ensures
        value_text(v, prefix, maps).len() > 0,
        value_text(v, prefix, maps)[0] != ']',
        read_value(value_text(v, prefix, maps) + tail) == Some(
            (value_json(v, prefix, maps), tail),
        ),
    decreases v, 0nat, 0int,
{
    match v {
        ValueModel::Tree(f) => {
            let n = f.entries.len() as int;
            lemma_members_read(f.entries, n, prefix, maps, seq!['}'] + tail);
            let text = members_text(f.entries, n, prefix, maps);
            lemma_object(text, members_json(f.entries, n, prefix, maps), tail);
            assert(value_text(v, prefix, maps) + tail =~= seq!['{'] + text + seq!['}'] + tail);
        },
        _ => lemma_leaf_reads(v, tail),
    }
}

proof fn lemma_items_read(
    entries: Entries,
    name: Seq<char>,
    n: int,
    prefix: Seq<char>,
    maps: Set<Seq<char>>,
    tail: Seq<char>,
)
    requires
        0 <= n <= entries.len(),
        ends_value(tail),
    ensures
        items_json(entries, name, n, prefix, maps).len() == 0 ==> items_text(
            entries,
            name,
            n,
            prefix,
            maps,
        ).len() == 0,
        items_json(entries, name, n, prefix, maps).len() > 0 ==> {
            &&& items_text(entries, name, n, prefix, maps).len() > 0
            &&& items_text(entries, name, n, prefix, maps)[0] != ']'
            &&& read_items(items_text(entries, name, n, prefix, maps) + tail, Seq::empty())
                == after_item(tail, items_json(entries, name, n, prefix, maps))
        },
    decreases entries, 0nat, n,
{
    if n > 0 {
        lemma_occurs(entries, name, n - 1, prefix, maps);
        if entries[n - 1].0 == name {
            let v = entries[n - 1].1;
            let item = value_text(v, prefix, maps);
            let before = items_text(entries, name, n - 1, prefix, maps);
            let read = items_json(entries, name, n - 1, prefix, maps);
            let text = items_text(entries, name, n, prefix, maps);
            law_value_reads_back(v, prefix, maps, tail);
            let more = seq![','] + item + tail;
            lemma_items_read(entries, name, n - 1, prefix, maps, more);
            lemma_item(item, value_json(v, prefix, maps), tail, read);
            if read.len() == 0 {
                assert(before =~= Seq::empty());
                assert(read =~= Seq::empty());
                assert(text =~= item);
            } else {
                assert(text + tail =~= before + more);
                assert(text[0] == before[0]);
            }
        } else {
            lemma_items_read(entries, name, n - 1, prefix, maps, tail);
        }
    }
}

proof fn lemma_named_reads(
    entries: Entries,
    name: Seq<char>,
    short: Seq<char>,
    maps: Set<Seq<char>>,
    tail: Seq<char>,
)
    requires
        ends_value(tail),
    ensures
        read_value(named_text(entries, name, short, maps) + tail) == Some(
            (named_json(entries, name, short, maps), tail),
        ),
    decreases entries, 2nat, 0int,
{
    let n = entries.len() as int;
    if maps.contains(short) {
        let text = map_members(entries, name, n, name);
        lemma_map_reads(entries, name, n, name, seq!['}'] + tail);
        lemma_object(text, map_json(entries, name, n, name), tail);
    } else {
        let text = items_text(entries, name, n, name, maps);
        let read = items_json(entries, name, n, name, maps);
        lemma_occurs(entries, name, n, name, maps);
        lemma_items_read(entries, name, n, name, maps, seq![']'] + tail);
        lemma_list(text, read, tail);
        assert(named_text(entries, name, short, maps) == array_text(entries, name, name, maps));
        if read.len() == 1 && !names_tree(entries, name) {
            let i = choose|i: int| 0 <= i < n && (#[trigger] entries[i]).0 == name;
            lemma_lone_item(entries, name, n, name, maps, i);
            assert(entries[i].1 is Tree ==> names_tree(entries, name));
            law_value_reads_back(entries[i].1, name, maps, tail);
        }
    }
}

proof fn lemma_lone_item(
    entries: Entries,
    name: Seq<char>,
    n: int,
    prefix: Seq<char>,
    maps: Set<Seq<char>>,
    i: int,
)
    requires
        0 <= i < n <= entries.len(),
        entries[i].0 == name,
        items_json(entries, name, n, prefix, maps).len() == 1,
    ensures
        items_json(entries, name, n, prefix, maps)[0] == value_json(entries[i].1, prefix, maps),
        items_text(entries, name, n, prefix, maps) == value_text(entries[i].1, prefix, maps),
    decreases n,
{
    lemma_occurs(entries, name, n - 1, prefix, maps);
    if i == n - 1 {
        lemma_no_items(entries, name, n - 1, prefix, maps);
        assert(items_text(entries, name, n, prefix, maps) =~= value_text(
            entries[i].1,
            prefix,
            maps,
        ));
    } else {
        assert(occurs(entries, name, n - 1));
        lemma_lone_item(entries, name, n - 1, prefix, maps, i);
    }
}

proof fn lemma_no_items(
    entries: Entries,
    name: Seq<char>,
    n: int,
    prefix: Seq<char>,
    maps: Set<Seq<char>>,
)
    requires
        0 <= n <= entries.len(),
        items_json(entries, name, n, prefix, maps).len() == 0,
    ensures
        items_text(entries, name, n, prefix, maps) == Seq::<char>::empty(),
    decreases n,
{
    if n > 0 {
        lemma_no_items(entries, name, n - 1, prefix, maps);
    }
}

proof fn lemma_members_read(
    entries: Entries,
    n: int,
    prefix: Seq<char>,
    maps: Set<Seq<char>>,
    tail: Seq<char>,
)
    requires
        0 <= n <= entries.len(),
        ends_value(tail),
    ensures
        n == 0 ==> members_text(entries, n, prefix, maps).len() == 0 && members_json(
            entries,
            n,
            prefix,
            maps,
        ).len() == 0,
        n > 0 ==> {
            &&& members_json(entries, n, prefix, maps).len() > 0
            &&& members_text(entries, n, prefix, maps).len() > 0
            &&& members_text(entries, n, prefix, maps)[0] == '"'
            &&& read_members(members_text(entries, n, prefix, maps) + tail, Seq::empty())
                == after_member(tail, members_json(entries, n, prefix, maps))
        },
    decreases entries, 3nat, n,
{
    if n > 0 {
        let name = entries[n - 1].0;
        lemma_occurs(entries, name, n - 1, prefix, maps);
        if occurs(entries, name, n - 1) {
            lemma_members_read(entries, n - 1, prefix, maps, tail);
        } else {
            let short = short_of(name, prefix);
            let key = underscored(short);
            let item = named_text(entries, name, short, maps);
            let before = members_text(entries, n - 1, prefix, maps);
            let read = members_json(entries, n - 1, prefix, maps);
            let text = members_text(entries, n, prefix, maps);
            lemma_named_reads(entries, name, short, maps, tail);
            let value = named_json(entries, name, short, maps);
            let more = seq![','] + json_string(key) + seq![':'] + item + tail;
            lemma_members_read(entries, n - 1, prefix, maps, more);
            lemma_appended_member(before, read, key, item, value, tail);
            assert(members_json(entries, n, prefix, maps) == read.push((key, value)));
            if n == 1 {
                assert(text =~= json_string(key) + seq![':'] + item);
            } else {
                assert(text =~= before + seq![','] + json_string(key) + seq![':'] + item);
                assert(text[0] == before[0]);
            }
        }
    }
}

/// All values of a name read back as they are: the map, the lone leaf or the list of them.
pub proof fn law_named_values_read_back(
    entries: Entries,
    name: Seq<char>,
    short: Seq<char>,
    maps: Set<Seq<char>>,
    tail: Seq<char>,
)
    requires
        ends_value(tail),
    ensures
        read_value(named_text(entries, name, short, maps) + tail) == Some(
            (named_json(entries, name, short, maps), tail),
        ),
{
    lemma_named_reads(entries, name, short, maps, tail);
}

/// The list of a name holds the values of all entries of that name and no others, in order.
pub proof fn law_list_holds_what_is_named(
    entries: Entries,
    name: Seq<char>,
    prefix: Seq<char>,
    maps: Set<Seq<char>>,
)
    ensures
        items_json(entries, name, entries.len() as int, prefix, maps) == entries.filter(
            |e: (Seq<char>, ValueModel)| e.0 == name,
        ).map_values(|e: (Seq<char>, ValueModel)| value_json(e.1, prefix, maps)),
{
    lemma_items_filter(entries, name, entries.len() as int, prefix, maps);
    assert(entries.take(entries.len() as int) =~= entries);
}

proof fn lemma_items_filter(
    entries: Entries,
    name: Seq<char>,
    n: int,
    prefix: Seq<char>,
    maps: Set<Seq<char>>,
)
    requires
        0 <= n <= entries.len(),
    ensures
        items_json(entries, name, n, prefix, maps) == entries.take(n).filter(
            |e: (Seq<char>, ValueModel)| e.0 == name,
        ).map_values(|e: (Seq<char>, ValueModel)| value_json(e.1, prefix, maps)),
    decreases n,
{
    reveal(Seq::filter);
    let all = entries.take(n);
    let named = |e: (Seq<char>, ValueModel)| e.0 == name;
    let read = |e: (Seq<char>, ValueModel)| value_json(e.1, prefix, maps);
    if n > 0 {
        lemma_items_filter(entries, name, n - 1, prefix, maps);
        assert(all.drop_last() =~= entries.take(n - 1));
        assert(all.last() == entries[n - 1]);
        let before = entries.take(n - 1).filter(named);
        assert(before.push(entries[n - 1]).map_values(read) =~= before.map_values(read).push(
            read(entries[n - 1]),
        ));
    }
    assert(items_json(entries, name, n, prefix, maps) =~= all.filter(named).map_values(read));
}

/// An object has one member for each name, in the order of first occurrence: `firsts` are the
/// places where a name occurs first.
pub proof fn law_each_name_is_one_member(
    entries: Entries,
    prefix: Seq<char>,
    maps: Set<Seq<char>>,
) -> (firsts: Seq<int>)
    ensures
        forall|k: int|
            0 <= k < firsts.len() ==> 0 <= #[trigger] firsts[k] < entries.len() && !occurs(
                entries,
                entries[firsts[k]].0,
                firsts[k],
            ),
        forall|k: int, l: int| 0 <= k < l < firsts.len() ==> firsts[k] < firsts[l],
        forall|i: int|
            0 <= i < entries.len() && !occurs(entries, #[trigger] entries[i].0, i)
                ==> firsts.contains(i),
        members_json(entries, entries.len() as int, prefix, maps) == Seq::new(
            firsts.len(),
            |k: int|
                {
                    let name = entries[firsts[k]].0;
                    let short = short_of(name, prefix);
                    (underscored(short), named_json(entries, name, short, maps))
                },
        ),
{
    lemma_firsts(entries, entries.len() as int, prefix, maps)
}

proof fn lemma_firsts(entries: Entries, n: int, prefix: Seq<char>, maps: Set<Seq<char>>) -> (firsts:
    Seq<int>)
    requires
        0 <= n <= entries.len(),
    ensures
        forall|k: int|
            0 <= k < firsts.len() ==> 0 <= #[trigger] firsts[k] < n && !occurs(
                entries,
                entries[firsts[k]].0,
                firsts[k],
            ),
        forall|k: int, l: int| 0 <= k < l < firsts.len() ==> firsts[k] < firsts[l],
        forall|i: int|
            0 <= i < n && !occurs(entries, #[trigger] entries[i].0, i) ==> firsts.contains(i),
        members_json(entries, n, prefix, maps) == Seq::new(
            firsts.len(),
            |k: int|
                {
                    let name = entries[firsts[k]].0;
                    let short = short_of(name, prefix);
                    (underscored(short), named_json(entries, name, short, maps))
                },
        ),
    decreases n,
{
    if n == 0 {
        Seq::empty()
    } else {
        let before = lemma_firsts(entries, n - 1, prefix, maps);
        if occurs(entries, entries[n - 1].0, n - 1) {
            before
        } else {
            let firsts = before.push(n - 1);
            assert forall|i: int|
                0 <= i < n && !occurs(entries, #[trigger] entries[i].0, i) implies firsts.contains(
                i,
            ) by {
                if i == n - 1 {
                    assert(firsts[firsts.len() - 1] == i);
                } else {
                    let k = choose|k: int| 0 <= k < before.len() && before[k] == i;
                    assert(firsts[k] == i);
                }
            }
            firsts
        }
    }
}

/// `name` is `short` within a subtree called `prefix`: with the subtree's name in front, or bare.
pub open spec fn is_called(name: Seq<char>, short: Seq<char>, prefix: Seq<char>) -> bool {
    name == short || name == prefix + seq!['.'] + short
}

proof fn lemma_called(name: Seq<char>, short: Seq<char>, prefix: Seq<char>)
    requires
        !short.contains('.'),
    ensures
        is_called(name, short, prefix) <==> short_of(name, prefix) == short,
{
    let full = prefix.push('.');
    if full.is_prefix_of(name) {
        assert(name.subrange(0, full.len() as int)[prefix.len() as int] == '.');
        assert(name[prefix.len() as int] == '.');
        assert(name.contains('.'));
        assert(name =~= full + name.skip(full.len() as int)) by {
            assert(name.subrange(0, full.len() as int) =~= full);
            assert forall|i: int| 0 <= i < full.len() implies name[i] == full[i] by {
                assert(name.subrange(0, full.len() as int)[i] == full[i]);
            }
        }
        assert(full + name.skip(full.len() as int) =~= prefix + seq!['.'] + name.skip(
            full.len() as int,
        ));
        if is_called(name, short, prefix) {
            assert(name.skip(full.len() as int) =~= short);
        }
    } else if name == prefix + seq!['.'] + short {
        assert(full.is_prefix_of(name));
    }
}

/// What a subtree adds to a map: under the last text that is called `name`, the last leaf that is
/// called `value`. `i` and `j` are where these stand.
pub proof fn law_map_entry_is_name_and_value(
    tree: ValueModel,
    entries: Entries,
    prefix: Seq<char>,
    i: int,
    j: int,
)
    requires
        tree is Tree,
        tree->Tree_0.entries == entries,
        0 <= i < entries.len(),
        0 <= j < entries.len(),
        is_called(entries[i].0, "name"@, prefix) && entries[i].1 is Str,
        is_called(entries[j].0, "value"@, prefix) && !(entries[j].1 is Tree),
        forall|k: int|
            i < k < entries.len() ==> !(is_called((#[trigger] entries[k]).0, "name"@, prefix)
                && entries[k].1 is Str),
        forall|k: int|
            j < k < entries.len() ==> !(is_called((#[trigger] entries[k]).0, "value"@, prefix)
                && !(entries[k].1 is Tree)),
    ensures
        map_entry(tree, prefix) == Some((entries[i].1->Str_0, entries[j].1)),
{
    reveal_strlit("name");
    reveal_strlit("value");
    lemma_last_text_at(entries, "name"@, prefix, entries.len() as int, i);
    lemma_last_leaf_at(entries, "value"@, prefix, entries.len() as int, j);
}

proof fn lemma_last_text_at(
    entries: Entries,
    short: Seq<char>,
    prefix: Seq<char>,
    n: int,
    i: int,
)
    requires
        !short.contains('.'),
        0 <= i < n <= entries.len(),
        is_called(entries[i].0, short, prefix) && entries[i].1 is Str,
        forall|k: int|
            i < k < n ==> !(is_called((#[trigger] entries[k]).0, short, prefix) && entries[k].1 is
                Str),
    ensures
        last_text(entries, short, prefix, n) == Some(entries[i].1->Str_0),
    decreases n,
{
    lemma_called(entries[n - 1].0, short, prefix);
    if i < n - 1 {
        assert(!(is_called(entries[n - 1].0, short, prefix) && entries[n - 1].1 is Str));
        lemma_last_text_at(entries, short, prefix, n - 1, i);
    }
}

proof fn lemma_last_leaf_at(
    entries: Entries,
    short: Seq<char>,
    prefix: Seq<char>,
    n: int,
    i: int,
)
    requires
        !short.contains('.'),
        0 <= i < n <= entries.len(),
        is_called(entries[i].0, short, prefix) && !(entries[i].1 is Tree),
        forall|k: int|
            i < k < n ==> !(is_called((#[trigger] entries[k]).0, short, prefix) && !(entries[k].1 is
                Tree)),
    ensures
        last_leaf(entries, short, prefix, n) == Some(entries[i].1),
    decreases n,
{
    lemma_called(entries[n - 1].0, short, prefix);
    if i < n - 1 {
        assert(!(is_called(entries[n - 1].0, short, prefix) && !(entries[n - 1].1 is Tree)));
        lemma_last_leaf_at(entries, short, prefix, n - 1, i);
    }
}

/// A map has one member for each entry of the name that has a name and a value of its own, in
/// order.
pub proof fn law_map_holds_what_has_a_name(entries: Entries, name: Seq<char>, prefix: Seq<char>)
    ensures
        map_json(entries, name, entries.len() as int, prefix) == entries.filter(
            |e: (Seq<char>, ValueModel)| e.0 == name && map_entry(e.1, prefix) is Some,
        ).map_values(
            |e: (Seq<char>, ValueModel)|
                ((map_entry(e.1, prefix)->0).0, leaf_json((map_entry(e.1, prefix)->0).1)),
        ),
{
    lemma_map_filter(entries, name, entries.len() as int, prefix);
    assert(entries.take(entries.len() as int) =~= entries);
}

proof fn lemma_map_filter(entries: Entries, name: Seq<char>, n: int, prefix: Seq<char>)
    requires
        0 <= n <= entries.len(),
    ensures
        map_json(entries, name, n, prefix) == entries.take(n).filter(
            |e: (Seq<char>, ValueModel)| e.0 == name && map_entry(e.1, prefix) is Some,
        ).map_values(
            |e: (Seq<char>, ValueModel)|
                ((map_entry(e.1, prefix)->0).0, leaf_json((map_entry(e.1, prefix)->0).1)),
        ),
    decreases n,
{
    reveal(Seq::filter);
    let all = entries.take(n);
    let kept = |e: (Seq<char>, ValueModel)| e.0 == name && map_entry(e.1, prefix) is Some;
    let read = |e: (Seq<char>, ValueModel)|
        ((map_entry(e.1, prefix)->0).0, leaf_json((map_entry(e.1, prefix)->0).1));
    if n > 0 {
        lemma_map_filter(entries, name, n - 1, prefix);
        assert(all.drop_last() =~= entries.take(n - 1));
        assert(all.last() == entries[n - 1]);
        let before = entries.take(n - 1).filter(kept);
        assert(before.push(entries[n - 1]).map_values(read) =~= before.map_values(read).push(
            read(entries[n - 1]),
        ));
    }
    assert(map_json(entries, name, n, prefix) =~= all.filter(kept).map_values(read));
}

/// How the values of a name read once they are written. Where a map is asked for they are an
/// object. Else a single number, text or run of bytes stands as it is; a subtree, and whatever
/// occurs more than once, is in a list, in order.
pub proof fn law_how_the_values_of_a_name_read(
    entries: Entries,
    name: Seq<char>,
    short: Seq<char>,
    maps: Set<Seq<char>>,
    tail: Seq<char>,
)
    requires
        ends_value(tail),
    ensures
        ({
            let named = entries.filter(|e: (Seq<char>, ValueModel)| e.0 == name);
            let values = named.map_values(
                |e: (Seq<char>, ValueModel)| value_json(e.1, name, maps),
            );
            let read = read_value(named_text(entries, name, short, maps) + tail);
            &&& maps.contains(short) ==> read == Some(
                (
                    Json::Object(
                        entries.filter(
                            |e: (Seq<char>, ValueModel)|
                                e.0 == name && map_entry(e.1, name) is Some,
                        ).map_values(
                            |e: (Seq<char>, ValueModel)|
                                (
                                    (map_entry(e.1, name)->0).0,
                                    leaf_json((map_entry(e.1, name)->0).1),
                                ),
                        ),
                    ),
                    tail,
                ),
            )
            &&& !maps.contains(short) && named.len() != 1 ==> read == Some(
                (Json::List(values), tail),
            )
            &&& !maps.contains(short) && named.len() == 1 && named[0].1 is Tree ==> read == Some(
                (Json::List(values), tail),
            )
            &&& !maps.contains(short) && named.len() == 1 ==> (named[0].1 matches ValueModel::UInt(
                n,
            ) ==> read == Some((Json::Number(n as nat), tail)))
            &&& !maps.contains(short) && named.len() == 1 ==> (named[0].1 matches ValueModel::Str(
                s,
            ) ==> read == Some((Json::Text(s), tail)))
            &&& !maps.contains(short) && named.len() == 1 ==> (named[0].1 matches ValueModel::Bytes(
                b,
            ) ==> read == Some((Json::Text(hex_of(b)), tail)))
        }),
{
    let is_named = |e: (Seq<char>, ValueModel)| e.0 == name;
    let named = entries.filter(is_named);
    lemma_named_reads(entries, name, short, maps, tail);
    law_list_holds_what_is_named(entries, name, name, maps);
    law_map_holds_what_has_a_name(entries, name, name);
    entries.filter_lemma(is_named);
    if named.len() == 1 {
        assert forall|i: int| 0 <= i < entries.len() && (#[trigger] entries[i]).0 == name implies
            entries[i] == named[0] by {
            assert(is_named(entries[i]));
            assert(named.contains(entries[i]));
        }
        lemma_filter_comes_from(entries, is_named, 0);
    }
}

/// What a filter keeps stands among what it was given.
proof fn lemma_filter_comes_from(
    entries: Entries,
    keep: spec_fn((Seq<char>, ValueModel)) -> bool,
    k: int,
)
    requires
        0 <= k < entries.filter(keep).len(),
    ensures
        keep(entries.filter(keep)[k]),
        exists|i: int| 0 <= i < entries.len() && #[trigger] entries[i] == entries.filter(keep)[k],
    decreases entries.len(),
{
    reveal(Seq::filter);
    if entries.len() > 0 {
        let fewer = entries.drop_last();
        if k < fewer.filter(keep).len() {
            lemma_filter_comes_from(fewer, keep, k);
            let i = choose|i: int|
                0 <= i < fewer.len() && #[trigger] fewer[i] == fewer.filter(keep)[k];
            assert(entries[i] == fewer[i]);
        } else {
            assert(entries[entries.len() - 1] == entries.filter(keep)[k]);
        }
    }
}

} // verus!
