//! What holds of every line written.

use vstd::prelude::*;
use vstd::string::*;
use crate::ek_output::json::{escape, json_string, law_json_string_is_clean, short_of, underscored};
use crate::ek_output::calendar::{is_date, law_every_day_has_a_date, lemma_epoch_years};
use crate::ek_output::{
    date_of, date_text, ek_text, is_index_date, joined, layers_text, lemma_date_is_unique,
    selected_values, SECS_PER_DAY,
};
use crate::ek_output::ndjson::{ip_part, tcp_part, tls_part, NdjsonModel};
use crate::ek_output::render::{
    count_named, items_text, leaf_text, map_entry, map_members, members_text, named_text,
    value_text, Entries,
};
use crate::lua::tree::ValueModel;
use crate::net::{ip_text, IpAddr};
use crate::orchestrator::model::{texts, MessageModel};
use crate::orchestrator::PacketEvent;
use crate::text::{dec, dec_padded, digit, hex_of};
use crate::time::{NANOS_PER_MICRO, NANOS_PER_MILLI, NANOS_PER_SEC};

verus! {

/// No control character.
pub open spec fn clean(s: Seq<char>) -> bool {
    forall|i: int| 0 <= i < s.len() ==> (#[trigger] s[i]) as u32 >= 0x20
}

/// One line: no control character but the line feed that ends it.
pub open spec fn one_line(s: Seq<char>) -> bool {
    s.len() > 0 && s.last() == '\n' && clean(s.drop_last())
}

proof fn lemma_clean_two(a: Seq<char>, b: Seq<char>)
    requires
        clean(a),
        clean(b),
    ensures
        clean(a + b),
{
    assert forall|i: int| 0 <= i < (a + b).len() implies (#[trigger] (a + b)[i]) as u32 >= 0x20 by {
        if i < a.len() {
            assert((a + b)[i] == a[i]);
        } else {
            assert((a + b)[i] == b[i - a.len()]);
        }
    }
}

proof fn lemma_clean_dec(n: nat)
    ensures
        clean(dec(n)),
    decreases n,
{
    let d = n % 10;
    assert(digit(d) as u32 >= 0x20);
    assert(clean(seq![digit(d)]));
    if n >= 10 {
        lemma_clean_dec(n / 10);
        lemma_clean_two(dec(n / 10), seq![digit(d)]);
        assert(dec(n) =~= dec(n / 10) + seq![digit(d)]);
    }
}

proof fn lemma_clean_json(s: Seq<char>)
    ensures
        clean(json_string(s)),
{
    assert forall|i: int| 0 <= i < escape(s).len() implies (#[trigger] escape(s)[i]) as u32
        >= 0x20 by {
        law_json_string_is_clean(s, i);
    }
    assert(clean(seq!['"']));
    lemma_clean_two(seq!['"'], escape(s));
    lemma_clean_two(seq!['"'] + escape(s), seq!['"']);
}

proof fn lemma_clean_punctuation()
    ensures
        clean(seq!['{']),
        clean(seq!['}']),
        clean(seq!['[']),
        clean(seq![']']),
        clean(seq![',']),
        clean(seq![':']),
        clean(Seq::empty()),
{
}

proof fn lemma_clean_leaf(v: ValueModel)
    ensures
        clean(leaf_text(v)),
{
    match v {
        ValueModel::UInt(n) => lemma_clean_dec(n as nat),
        ValueModel::Str(s) => lemma_clean_json(s),
        ValueModel::Bytes(b) => lemma_clean_json(hex_of(b)),
        ValueModel::Tree(_) => {},
    }
}

proof fn lemma_clean_value(v: ValueModel, prefix: Seq<char>, maps: Set<Seq<char>>)
    ensures
        clean(value_text(v, prefix, maps)),
    decreases v, 0nat, 0int,
{
    match v {
        ValueModel::Tree(f) => {
            let n = f.entries.len() as int;
            lemma_clean_punctuation();
            lemma_clean_members(f.entries, n, prefix, maps);
            lemma_clean_two(seq!['{'], members_text(f.entries, n, prefix, maps));
            lemma_clean_two(
                seq!['{'] + members_text(f.entries, n, prefix, maps),
                seq!['}'],
            );
        },
        _ => lemma_clean_leaf(v),
    }
}

proof fn lemma_clean_items(
    entries: Entries,
    name: Seq<char>,
    n: int,
    prefix: Seq<char>,
    maps: Set<Seq<char>>,
)
    ensures
        clean(items_text(entries, name, n, prefix, maps)),
    decreases entries, 0nat, n,
{
    if 0 < n <= entries.len() {
        let before = items_text(entries, name, n - 1, prefix, maps);
        let comma = if count_named(entries, name, n - 1) > 0 {
            seq![',']
        } else {
            Seq::empty()
        };
        let value = value_text(entries[n - 1].1, prefix, maps);
        lemma_clean_punctuation();
        lemma_clean_items(entries, name, n - 1, prefix, maps);
        lemma_clean_value(entries[n - 1].1, prefix, maps);
        lemma_clean_two(before, comma);
        lemma_clean_two(before + comma, value);
    }
}

proof fn lemma_clean_map(entries: Entries, name: Seq<char>, n: int, prefix: Seq<char>)
    ensures
        clean(map_members(entries, name, n, prefix)),
    decreases n,
{
    if 0 < n <= entries.len() {
        let before = map_members(entries, name, n - 1, prefix);
        lemma_clean_map(entries, name, n - 1, prefix);
        lemma_clean_punctuation();
        if let Some((key, value)) = map_entry(entries[n - 1].1, prefix) {
            let comma = if before.len() > 0 {
                seq![',']
            } else {
                Seq::empty()
            };
            lemma_clean_json(key);
            lemma_clean_leaf(value);
            lemma_clean_two(before, comma);
            lemma_clean_two(before + comma, json_string(key));
            lemma_clean_two(before + comma + json_string(key), seq![':']);
            lemma_clean_two(
                before + comma + json_string(key) + seq![':'],
                leaf_text(value),
            );
        }
    }
}

proof fn lemma_clean_named(
    entries: Entries,
    name: Seq<char>,
    short: Seq<char>,
    maps: Set<Seq<char>>,
)
    ensures
        clean(named_text(entries, name, short, maps)),
    decreases entries, 2nat, 0int,
{
    let n = entries.len() as int;
    lemma_clean_punctuation();
    if maps.contains(short) {
        let members = map_members(entries, name, n, name);
        lemma_clean_map(entries, name, n, name);
        lemma_clean_two(seq!['{'], members);
        lemma_clean_two(seq!['{'] + members, seq!['}']);
    } else {
        let items = items_text(entries, name, n, name, maps);
        lemma_clean_items(entries, name, n, name, maps);
        lemma_clean_two(seq!['['], items);
        lemma_clean_two(seq!['['] + items, seq![']']);
    }
}

proof fn lemma_clean_members(entries: Entries, n: int, prefix: Seq<char>, maps: Set<Seq<char>>)
    ensures
        clean(members_text(entries, n, prefix, maps)),
    decreases entries, 3nat, n,
{
    if 0 < n <= entries.len() {
        let before = members_text(entries, n - 1, prefix, maps);
        let name = entries[n - 1].0;
        let short = short_of(name, prefix);
        let comma = if n > 1 {
            seq![',']
        } else {
            Seq::empty()
        };
        let key = json_string(underscored(short));
        lemma_clean_punctuation();
        lemma_clean_members(entries, n - 1, prefix, maps);
        lemma_clean_json(underscored(short));
        lemma_clean_named(entries, name, short, maps);
        lemma_clean_two(before, comma);
        lemma_clean_two(before + comma, key);
        lemma_clean_two(before + comma + key, seq![':']);
        lemma_clean_two(before + comma + key + seq![':'], named_text(entries, name, short, maps));
    }
}

proof fn lemma_clean_joined(values: Seq<Seq<char>>, n: int)
    ensures
        clean(joined(values, n)),
    decreases n,
{
    if 0 < n <= values.len() {
        let comma = if n > 1 {
            seq![',']
        } else {
            Seq::empty()
        };
        lemma_clean_punctuation();
        lemma_clean_joined(values, n - 1);
        lemma_clean_json(values[n - 1]);
        lemma_clean_two(joined(values, n - 1), comma);
        lemma_clean_two(joined(values, n - 1) + comma, json_string(values[n - 1]));
    }
}

proof fn lemma_clean_groups(w: NdjsonModel, entries: Entries, exploded: Option<int>, n: int)
    ensures
        clean(w.group_parts(entries, exploded, n)),
    decreases n,
{
    if 0 < n <= w.groups.len() {
        let group = w.groups[n - 1];
        let before = w.group_parts(entries, exploded, n - 1);
        lemma_clean_groups(w, entries, exploded, n - 1);
        lemma_clean_punctuation();
        lemma_clean_json(group);
        let head = seq![','] + json_string(group) + seq![':'];
        lemma_clean_two(seq![','], json_string(group));
        lemma_clean_two(seq![','] + json_string(group), seq![':']);
        if exploded is Some {
            let value = value_text(entries[exploded->0].1, group, w.maps);
            lemma_clean_value(entries[exploded->0].1, group, w.maps);
            lemma_clean_two(head, value);
        }
        lemma_clean_named(entries, group, group, w.maps);
        lemma_clean_two(head, named_text(entries, group, group, w.maps));
        lemma_clean_two(before, w.group_part(entries, exploded, group));
    }
}

proof fn lemma_clean_ip(selected: bool, src: IpAddr, dst: IpAddr)
    ensures
        clean(ip_part(selected, src, dst)),
{
    if selected {
        reveal_strlit(",\"ip\":{\"src\":");
        reveal_strlit(",\"dst\":");
        reveal_strlit("}");
        let a = ",\"ip\":{\"src\":"@;
        let b = json_string(ip_text(src));
        let c = ",\"dst\":"@;
        let d = json_string(ip_text(dst));
        lemma_clean_json(ip_text(src));
        lemma_clean_json(ip_text(dst));
        lemma_clean_two(a, b);
        lemma_clean_two(a + b, c);
        lemma_clean_two(a + b + c, d);
        lemma_clean_two(a + b + c + d, "}"@);
    }
}

proof fn lemma_clean_tcp(selected: bool, src_port: u16, dst_port: u16)
    ensures
        clean(tcp_part(selected, src_port, dst_port)),
{
    if selected {
        reveal_strlit(",\"tcp\":{\"srcport\":");
        reveal_strlit(",\"dstport\":");
        reveal_strlit("}");
        let a = ",\"tcp\":{\"srcport\":"@;
        let b = dec(src_port as nat);
        let c = ",\"dstport\":"@;
        let d = dec(dst_port as nat);
        lemma_clean_dec(src_port as nat);
        lemma_clean_dec(dst_port as nat);
        lemma_clean_two(a, b);
        lemma_clean_two(a + b, c);
        lemma_clean_two(a + b + c, d);
        lemma_clean_two(a + b + c + d, "}"@);
    }
}

proof fn lemma_clean_tls(selected: bool, app_data: Seq<u8>)
    ensures
        clean(tls_part(selected, app_data)),
{
    if selected {
        reveal_strlit(",\"tls\":{\"app_data\":");
        reveal_strlit("}");
        let a = ",\"tls\":{\"app_data\":"@;
        let b = json_string(hex_of(app_data));
        lemma_clean_json(hex_of(app_data));
        lemma_clean_two(a, b);
        lemma_clean_two(a + b, "}"@);
    }
}

proof fn lemma_ends_line(s: Seq<char>)
    requires
        clean(s),
    ensures
        one_line(s + "}\n"@),
{
    reveal_strlit("}\n");
    let line = s + "}\n"@;
    lemma_clean_punctuation();
    lemma_clean_two(s, seq!['}']);
    assert(line.drop_last() =~= s + seq!['}']);
}

/// Every record line is one line, whatever a dissector put into it.
pub proof fn law_record_is_one_line(w: NdjsonModel, msg: MessageModel, exploded: Option<int>)
    ensures
        one_line(w.record_line(msg, exploded)),
{
    reveal_strlit("{\"kind\":\"tls_record\",\"tstamp\":");
    let kind = "{\"kind\":\"tls_record\",\"tstamp\":"@;
    let stamp = dec(msg.timestamp / NANOS_PER_MICRO as nat);
    let ip = ip_part(w.ip, msg.src_ip, msg.dst_ip);
    let tcp = tcp_part(w.tcp, msg.src_port, msg.dst_port);
    let tls = tls_part(w.tls, msg.tls_app_data);
    let groups = w.group_parts(msg.fields.entries, exploded, w.groups.len() as int);
    assert(clean(kind));
    lemma_clean_dec(msg.timestamp / NANOS_PER_MICRO as nat);
    lemma_clean_ip(w.ip, msg.src_ip, msg.dst_ip);
    lemma_clean_tcp(w.tcp, msg.src_port, msg.dst_port);
    lemma_clean_tls(w.tls, msg.tls_app_data);
    lemma_clean_groups(w, msg.fields.entries, exploded, w.groups.len() as int);
    lemma_clean_two(kind, stamp);
    lemma_clean_two(kind + stamp, ip);
    lemma_clean_two(kind + stamp + ip, tcp);
    lemma_clean_two(kind + stamp + ip + tcp, tls);
    lemma_clean_two(kind + stamp + ip + tcp + tls, groups);
    lemma_ends_line(kind + stamp + ip + tcp + tls + groups);
}

/// Every packet event's line is one line.
pub proof fn law_packet_is_one_line(w: NdjsonModel, evt: PacketEvent)
    ensures
        one_line(w.packet_line(evt)),
{
    reveal_strlit("{\"kind\":\"packet\",\"tstamp\":");
    let kind = "{\"kind\":\"packet\",\"tstamp\":"@;
    let stamp = dec(evt.timestamp@ / NANOS_PER_MICRO as nat);
    let ip = ip_part(w.ip, evt.src_ip, evt.dst_ip);
    assert(clean(kind));
    lemma_clean_dec(evt.timestamp@ / NANOS_PER_MICRO as nat);
    lemma_clean_ip(w.ip, evt.src_ip, evt.dst_ip);
    lemma_clean_two(kind, stamp);
    lemma_clean_two(kind + stamp, ip);
    lemma_clean_punctuation();
    if w.tcp {
        reveal_strlit(",\"tcp\":{\"srcport\":");
        reveal_strlit(",\"dstport\":");
        reveal_strlit(",\"seq\":");
        reveal_strlit(",\"ack\":");
        reveal_strlit(",\"flags\":[");
        reveal_strlit("],\"payload_len\":");
        reveal_strlit("}");
        let a = ",\"tcp\":{\"srcport\":"@ + dec(evt.src_port as nat);
        let b = a + ",\"dstport\":"@ + dec(evt.dst_port as nat);
        let c = b + ",\"seq\":"@ + dec(evt.seq as nat);
        let d = c + ",\"ack\":"@ + dec(evt.ack as nat);
        let flags = joined(texts(evt.flags@), evt.flags@.len() as int);
        let e = d + ",\"flags\":["@ + flags;
        let f = e + "],\"payload_len\":"@ + dec(evt.payload_len as nat);
        lemma_clean_dec(evt.src_port as nat);
        lemma_clean_dec(evt.dst_port as nat);
        lemma_clean_dec(evt.seq as nat);
        lemma_clean_dec(evt.ack as nat);
        lemma_clean_dec(evt.payload_len as nat);
        lemma_clean_joined(texts(evt.flags@), evt.flags@.len() as int);
        lemma_clean_two(",\"tcp\":{\"srcport\":"@, dec(evt.src_port as nat));
        lemma_clean_two(a, ",\"dstport\":"@);
        lemma_clean_two(a + ",\"dstport\":"@, dec(evt.dst_port as nat));
        lemma_clean_two(b, ",\"seq\":"@);
        lemma_clean_two(b + ",\"seq\":"@, dec(evt.seq as nat));
        lemma_clean_two(c, ",\"ack\":"@);
        lemma_clean_two(c + ",\"ack\":"@, dec(evt.ack as nat));
        lemma_clean_two(d, ",\"flags\":["@);
        lemma_clean_two(d + ",\"flags\":["@, flags);
        lemma_clean_two(e, "],\"payload_len\":"@);
        lemma_clean_two(e + "],\"payload_len\":"@, dec(evt.payload_len as nat));
        lemma_clean_two(f, "}"@);
        lemma_clean_two(kind + stamp + ip, f + "}"@);
        lemma_ends_line(kind + stamp + ip + (f + "}"@));
    } else {
        lemma_clean_two(kind + stamp + ip, Seq::empty());
        lemma_ends_line(kind + stamp + ip + Seq::<char>::empty());
    }
}

proof fn lemma_clean_padded(n: nat, width: nat)
    ensures
        clean(dec_padded(n, width)),
{
    lemma_clean_dec(n);
    let digits = dec(n);
    if digits.len() < width {
        let zeros = Seq::new((width - digits.len()) as nat, |i: int| '0');
        assert(clean(zeros));
        lemma_clean_two(zeros, digits);
    }
}

pub(crate) proof fn lemma_clean_date(nanos: nat)
    ensures
        clean(date_of(nanos)),
        is_index_date(date_of(nanos), nanos),
{
    let days = nanos / NANOS_PER_SEC as nat / SECS_PER_DAY as nat;
    let (y, m, d) = law_every_day_has_a_date(days as int);
    lemma_epoch_years(y, m, d);
    let text = date_text(y as nat, m as nat, d as nat);
    assert(is_date(y as nat as int, m as nat as int, d as nat as int));
    assert(is_index_date(text, nanos));
    lemma_date_is_unique(text, nanos);
    lemma_clean_padded(y as nat, 4);
    lemma_clean_padded(m as nat, 2);
    lemma_clean_padded(d as nat, 2);
    assert(clean(seq!['-']));
    let a = dec_padded(y as nat, 4);
    let b = dec_padded(m as nat, 2);
    lemma_clean_two(a, seq!['-']);
    lemma_clean_two(a + seq!['-'], b);
    lemma_clean_two(a + seq!['-'] + b, seq!['-']);
    lemma_clean_two(a + seq!['-'] + b + seq!['-'], dec_padded(d as nat, 2));
}

proof fn lemma_clean_layers(fields: Seq<Seq<char>>, msg: MessageModel, n: int)
    ensures
        clean(layers_text(fields, msg, n)),
    decreases n,
{
    if 0 < n <= fields.len() {
        let before = layers_text(fields, msg, n - 1);
        let values = selected_values(fields[n - 1], msg);
        let comma = if before.len() > 0 {
            seq![',']
        } else {
            Seq::empty()
        };
        let key = json_string(underscored(fields[n - 1]));
        let list = joined(values, values.len() as int);
        lemma_clean_punctuation();
        assert(clean(seq![':', '[']));
        lemma_clean_layers(fields, msg, n - 1);
        lemma_clean_json(underscored(fields[n - 1]));
        lemma_clean_joined(values, values.len() as int);
        lemma_clean_two(before, comma);
        lemma_clean_two(before + comma, key);
        lemma_clean_two(before + comma + key, seq![':', '[']);
        lemma_clean_two(before + comma + key + seq![':', '['], list);
        lemma_clean_two(before + comma + key + seq![':', '['] + list, seq![']']);
    }
}

/// In the bulk format every message is two lines, whatever a dissector put into it, as long as the
/// index prefix, which is written as it is, holds no control character.
pub proof fn law_ek_message_is_two_lines(
    fields: Seq<Seq<char>>,
    index_prefix: Seq<char>,
    msg: MessageModel,
)
    requires
        clean(index_prefix),
    ensures
        ({
            let action = "{\"index\":{\"_index\":\""@ + index_prefix + "-"@ + date_of(
                msg.timestamp,
            ) + "\"}}\n"@;
            let data = "{\"timestamp\":\""@ + dec(msg.timestamp / NANOS_PER_MILLI as nat)
                + "\",\"layers\":{"@ + layers_text(fields, msg, fields.len() as int) + "}}\n"@;
            &&& ek_text(fields, index_prefix, msg) == action + data
            &&& one_line(action)
            &&& one_line(data)
        }),
{
    reveal_strlit("{\"index\":{\"_index\":\"");
    reveal_strlit("-");
    reveal_strlit("\"}}\n");
    reveal_strlit("{\"timestamp\":\"");
    reveal_strlit("\",\"layers\":{");
    reveal_strlit("}}\n");
    let a = "{\"index\":{\"_index\":\""@;
    let date = date_of(msg.timestamp);
    lemma_clean_date(msg.timestamp);
    assert(clean(a));
    lemma_clean_two(a, index_prefix);
    lemma_clean_two(a + index_prefix, "-"@);
    lemma_clean_two(a + index_prefix + "-"@, date);
    let head = a + index_prefix + "-"@ + date;
    let action = head + "\"}}\n"@;
    assert(clean(seq!['"', '}', '}']));
    lemma_clean_two(head, seq!['"', '}', '}']);
    assert(action.drop_last() =~= head + seq!['"', '}', '}']);
    let b = "{\"timestamp\":\""@;
    let stamp = dec(msg.timestamp / NANOS_PER_MILLI as nat);
    let layers = layers_text(fields, msg, fields.len() as int);
    lemma_clean_dec(msg.timestamp / NANOS_PER_MILLI as nat);
    lemma_clean_layers(fields, msg, fields.len() as int);
    lemma_clean_two(b, stamp);
    lemma_clean_two(b + stamp, "\",\"layers\":{"@);
    lemma_clean_two(b + stamp + "\",\"layers\":{"@, layers);
    let body = b + stamp + "\",\"layers\":{"@ + layers;
    let data = body + "}}\n"@;
    assert(clean(seq!['}', '}']));
    lemma_clean_two(body, seq!['}', '}']);
    assert(data.drop_last() =~= body + seq!['}', '}']);
    assert(ek_text(fields, index_prefix, msg) =~= action + data);
}

/// A record gives one line, or as many as the group to explode occurs times, if it occurs: never
/// none.
pub proof fn law_one_line_per_occurrence(w: NdjsonModel, msg: MessageModel)
    ensures
        w.record_lines(msg).len() == match w.explode {
            Some(name) if count_named(
                msg.fields.entries,
                name,
                msg.fields.entries.len() as int,
            ) > 0 => count_named(msg.fields.entries, name, msg.fields.entries.len() as int),
            _ => 1,
        },
        w.record_lines(msg).len() >= 1,
        forall|i: int|
            0 <= i < w.record_lines(msg).len() ==> one_line(#[trigger] w.record_lines(msg)[i]),
{
    match w.explode {
        Some(name) => lemma_exploded_lines(w, msg, name, msg.fields.entries.len() as int),
        None => {},
    }
    law_record_is_one_line(w, msg, None);
}

proof fn lemma_exploded_lines(w: NdjsonModel, msg: MessageModel, name: Seq<char>, n: int)
    requires
        0 <= n <= msg.fields.entries.len(),
    ensures
        w.exploded_lines(msg, name, n).len() == count_named(msg.fields.entries, name, n),
        forall|i: int|
            0 <= i < w.exploded_lines(msg, name, n).len() ==> one_line(
                #[trigger] w.exploded_lines(msg, name, n)[i],
            ),
    decreases n,
{
    if n > 0 {
        lemma_exploded_lines(w, msg, name, n - 1);
        law_record_is_one_line(w, msg, Some(n - 1));
    }
}

} // verus!
