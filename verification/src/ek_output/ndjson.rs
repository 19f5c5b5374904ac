//! One JSON object per line, for messages and for packet events.
//!
//! Fields are selected by group, the part of their name before the first dot: `ip`, `tcp` and
//! `tls` are objects of their own, and any other group is what the dissector recorded under that
//! name. Two transforms can be asked for: one group's occurrences written as a line each, and
//! groups of named values collapsed into maps.

use vstd::prelude::*;
use vstd::string::*;
use vstd::utf8::encode_utf8;
use crate::ek_output::json::{group_name, group_of, json_string, write_json_string};
use crate::ek_output::render::{
    contains_name, count_named, name_set, named_text, value_text, write_field_value,
    write_named_value, Entries,
};
use crate::ek_output::{append_text, ip_string, joined, strings};
use crate::lua::tree::{entries_model, FieldValue};
use crate::net::{ip_text, IpAddr};
use crate::orchestrator::model::{texts, MessageModel};
use crate::orchestrator::{DecodedMessage, PacketEvent};
use crate::text::{dec, hex_encode, hex_of, push_dec, text_equal};
use crate::time::NANOS_PER_MICRO;

verus! {

/// Writes messages and packet events as lines of JSON.
pub struct NdjsonWriter {
    has_ip: bool,
    has_tcp: bool,
    has_tls: bool,
    generic_group_order: Vec<String>,
    explode: Option<String>,
    map_fields: Vec<String>,
}

/// What an `NdjsonWriter` was told to write: whether the groups `ip`, `tcp` and `tls` are
/// selected, the other groups in order, the group to write one line per occurrence of, and the
/// names to write as maps.
pub struct NdjsonModel {
    pub ip: bool,
    pub tcp: bool,
    pub tls: bool,
    pub groups: Seq<Seq<char>>,
    pub explode: Option<Seq<char>>,
    pub maps: Set<Seq<char>>,
}

impl View for NdjsonWriter {
    type V = NdjsonModel;

    closed spec fn view(&self) -> NdjsonModel {
        NdjsonModel {
            ip: self.has_ip,
            tcp: self.has_tcp,
            tls: self.has_tls,
            groups: strings(self.generic_group_order@),
            explode: match self.explode {
                Some(name) => Some(name@),
                None => None,
            },
            maps: name_set(self.map_fields@),
        }
    }
}

/// One of the fields belongs to the group.
pub open spec fn selects(fields: Seq<Seq<char>>, group: Seq<char>) -> bool {
    exists|i: int| 0 <= i < fields.len() && group_of(#[trigger] fields[i]) == group
}

pub open spec fn is_envelope(group: Seq<char>) -> bool {
    group == "ip"@ || group == "tcp"@ || group == "tls"@
}

/// The groups of the first `n` fields but `ip`, `tcp` and `tls`, each once, in the order of first
/// selection.
pub open spec fn generic_groups(fields: Seq<Seq<char>>, n: int) -> Seq<Seq<char>>
    decreases n,
{
    if n <= 0 || n > fields.len() {
        Seq::empty()
    } else {
        let before = generic_groups(fields, n - 1);
        let group = group_of(fields[n - 1]);
        if is_envelope(group) || before.contains(group) {
            before
        } else {
            before.push(group)
        }
    }
}

/// The `ip` object.
pub open spec fn ip_part(selected: bool, src: IpAddr, dst: IpAddr) -> Seq<char> {
    if selected {
        ",\"ip\":{\"src\":"@ + json_string(ip_text(src)) + ",\"dst\":"@ + json_string(ip_text(dst))
            + "}"@
    } else {
        Seq::empty()
    }
}

/// The `tcp` object of a message.
pub open spec fn tcp_part(selected: bool, src_port: u16, dst_port: u16) -> Seq<char> {
    if selected {
        ",\"tcp\":{\"srcport\":"@ + dec(src_port as nat) + ",\"dstport\":"@ + dec(dst_port as nat)
            + "}"@
    } else {
        Seq::empty()
    }
}

/// The `tls` object.
pub open spec fn tls_part(selected: bool, app_data: Seq<u8>) -> Seq<char> {
    if selected {
        ",\"tls\":{\"app_data\":"@ + json_string(hex_of(app_data)) + "}"@
    } else {
        Seq::empty()
    }
}

impl NdjsonModel {
    /// The member of one group: the single occurrence `exploded` where that is set and the group
    /// is the one to explode, all its occurrences otherwise; nothing where there is none.
    pub open spec fn group_part(
        self,
        entries: Entries,
        exploded: Option<int>,
        group: Seq<char>,
    ) -> Seq<char> {
        if exploded is Some && self.explode == Some(group) {
            seq![','] + json_string(group) + seq![':'] + value_text(
                entries[exploded->0].1,
                group,
                self.maps,
            )
        } else if count_named(entries, group, entries.len() as int) == 0 {
            Seq::empty()
        } else {
            seq![','] + json_string(group) + seq![':'] + named_text(
                entries,
                group,
                group,
                self.maps,
            )
        }
    }

    /// The members of the first `n` groups.
    pub open spec fn group_parts(self, entries: Entries, exploded: Option<int>, n: int) -> Seq<char>
        decreases n,
    {
        if n <= 0 || n > self.groups.len() {
            Seq::empty()
        } else {
            self.group_parts(entries, exploded, n - 1) + self.group_part(
                entries,
                exploded,
                self.groups[n - 1],
            )
        }
    }

    /// A record's line.
    pub open spec fn record_line(self, msg: MessageModel, exploded: Option<int>) -> Seq<char> {
        "{\"kind\":\"tls_record\",\"tstamp\":"@ + dec(msg.timestamp / NANOS_PER_MICRO as nat)
            + ip_part(self.ip, msg.src_ip, msg.dst_ip) + tcp_part(
            self.tcp,
            msg.src_port,
            msg.dst_port,
        ) + tls_part(self.tls, msg.tls_app_data) + self.group_parts(
            msg.fields.entries,
            exploded,
            self.groups.len() as int,
        ) + "}\n"@
    }

    /// One line for each of the first `n` entries that is an occurrence of the group to explode.
    pub open spec fn exploded_lines(self, msg: MessageModel, name: Seq<char>, n: int) -> Seq<
        Seq<char>,
    >
        decreases n,
    {
        if n <= 0 || n > msg.fields.entries.len() {
            Seq::empty()
        } else {
            let before = self.exploded_lines(msg, name, n - 1);
            if msg.fields.entries[n - 1].0 == name {
                before.push(self.record_line(msg, Some(n - 1)))
            } else {
                before
            }
        }
    }

    /// A record's lines: one for each occurrence of the group to explode, and a single one where
    /// there is no such group or it does not occur.
    pub open spec fn record_lines(self, msg: MessageModel) -> Seq<Seq<char>> {
        let entries = msg.fields.entries;
        match self.explode {
            Some(name) if count_named(entries, name, entries.len() as int) > 0 => {
                self.exploded_lines(msg, name, entries.len() as int)
            },
            _ => seq![self.record_line(msg, None)],
        }
    }

    /// A packet event's line.
    pub open spec fn packet_line(self, evt: PacketEvent) -> Seq<char> {
        "{\"kind\":\"packet\",\"tstamp\":"@ + dec(evt.timestamp@ / NANOS_PER_MICRO as nat)
            + ip_part(self.ip, evt.src_ip, evt.dst_ip) + if self.tcp {
            ",\"tcp\":{\"srcport\":"@ + dec(evt.src_port as nat) + ",\"dstport\":"@ + dec(
                evt.dst_port as nat,
            ) + ",\"seq\":"@ + dec(evt.seq as nat) + ",\"ack\":"@ + dec(evt.ack as nat)
                + ",\"flags\":["@ + joined(texts(evt.flags@), evt.flags@.len() as int)
                + "],\"payload_len\":"@ + dec(evt.payload_len as nat) + "}"@
        } else {
            Seq::empty()
        } + "}\n"@
    }
}

/// Lines one after the other.
pub open spec fn concat(lines: Seq<Seq<char>>) -> Seq<char>
    decreases lines.len(),
{
    if lines.len() == 0 {
        Seq::empty()
    } else {
        concat(lines.drop_last()) + lines.last()
    }
}

impl NdjsonWriter {
    /// `fields` are the names of the fields to select, which counts by group; `explode` and
    /// `map_fields` ask for the transforms.
    pub fn new(fields: Vec<String>, explode: Option<String>, map_fields: Vec<String>) -> (w:
        NdjsonWriter)
        ensures
            w@.ip == selects(strings(fields@), "ip"@),
            w@.tcp == selects(strings(fields@), "tcp"@),
            w@.tls == selects(strings(fields@), "tls"@),
            w@.groups == generic_groups(strings(fields@), fields@.len() as int),
            w@.explode == match explode {
                Some(name) => Some(name@),
                None => None,
            },
            w@.maps == name_set(map_fields@),
    {
        let ghost all = strings(fields@);
        let mut has_ip = false;
        let mut has_tcp = false;
        let mut has_tls = false;
        let mut generic_group_order: Vec<String> = Vec::new();
        let mut i: usize = 0;
        assert(strings(generic_group_order@) =~= generic_groups(all, 0));
        proof {
            lemma_envelope_names();
        }
        while i < fields.len()
            invariant
                i <= fields@.len(),
                all == strings(fields@),
                has_ip == selects(all.take(i as int), "ip"@),
                has_tcp == selects(all.take(i as int), "tcp"@),
                has_tls == selects(all.take(i as int), "tls"@),
                strings(generic_group_order@) == generic_groups(all, i as int),
                "ip"@ != "tcp"@,
                "ip"@ != "tls"@,
                "tcp"@ != "tls"@,
            decreases fields@.len() - i,
        {
            assert(all[i as int] == fields@[i as int]@);
            let group = group_name(fields[i].as_str());
            proof {
                lemma_selects_one_more(all, i as int, "ip"@);
                lemma_selects_one_more(all, i as int, "tcp"@);
                lemma_selects_one_more(all, i as int, "tls"@);
            }
            if text_equal(group.as_str(), "ip") {
                has_ip = true;
            } else if text_equal(group.as_str(), "tcp") {
                has_tcp = true;
            } else if text_equal(group.as_str(), "tls") {
                has_tls = true;
            } else {
                let known = contains_name(&generic_group_order, group.as_str());
                let ghost before = generic_group_order@;
                proof {
                    let names = strings(before);
                    if known {
                        let j = choose|j: int|
                            0 <= j < before.len() && (#[trigger] before[j])@ == group@;
                        assert(names[j] == group@);
                    }
                    if names.contains(group@) {
                        let j = choose|j: int| 0 <= j < names.len() && names[j] == group@;
                        assert(before[j]@ == group@);
                    }
                }
                if !known {
                    let ghost g = group@;
                    generic_group_order.push(group);
                    assert(strings(generic_group_order@) =~= strings(before).push(g));
                }
            }
            i += 1;
        }
        assert(all.take(all.len() as int) =~= all);
        NdjsonWriter { has_ip, has_tcp, has_tls, generic_group_order, explode, map_fields }
    }

    fn write_ip(&self, text: &mut String, src: &IpAddr, dst: &IpAddr)
        ensures
            final(text)@ == old(text)@ + ip_part(self@.ip, *src, *dst),
    {
        if self.has_ip {
            text.append(",\"ip\":{\"src\":");
            let src_text = ip_string(src);
            write_json_string(text, src_text.as_str());
            text.append(",\"dst\":");
            let dst_text = ip_string(dst);
            write_json_string(text, dst_text.as_str());
            text.append("}");
        }
        assert(text@ =~= old(text)@ + ip_part(self@.ip, *src, *dst));
    }

    fn write_tcp(&self, text: &mut String, src_port: u16, dst_port: u16)
        ensures
            final(text)@ == old(text)@ + tcp_part(self@.tcp, src_port, dst_port),
    {
        if self.has_tcp {
            text.append(",\"tcp\":{\"srcport\":");
            push_dec(text, src_port as u128);
            text.append(",\"dstport\":");
            push_dec(text, dst_port as u128);
            text.append("}");
        }
        assert(text@ =~= old(text)@ + tcp_part(self@.tcp, src_port, dst_port));
    }

    fn write_tls(&self, text: &mut String, app_data: &[u8])
        ensures
            final(text)@ == old(text)@ + tls_part(self@.tls, app_data@),
    {
        if self.has_tls {
            text.append(",\"tls\":{\"app_data\":");
            let digits = hex_encode(app_data);
            write_json_string(text, digits.as_str());
            text.append("}");
        }
        assert(text@ =~= old(text)@ + tls_part(self@.tls, app_data@));
    }

    /// Writes one decrypted record: one line, or one for each occurrence of the group to explode.
    /// Returns the number of bytes written.
    pub fn write_tls_record(&self, out: &mut Vec<u8>, msg: &DecodedMessage) -> (n: usize)
        ensures
            final(out)@ == old(out)@ + encode_utf8(concat(self@.record_lines(msg@))),
            n == encode_utf8(concat(self@.record_lines(msg@))).len(),
    {
        let mut text = String::new();
        let entries = &msg.fields.entries;
        let ghost model = msg@.fields.entries;
        let mut found = false;
        if let Some(name) = &self.explode {
            let ghost lines = self@.exploded_lines(msg@, name@, 0);
            let mut i: usize = 0;
            assert(concat(self@.exploded_lines(msg@, name@, 0)) =~= Seq::empty());
            while i < entries.len()
                invariant
                    i <= entries@.len(),
                    model == msg@.fields.entries,
                    model == entries_model(entries@),
                    self@.explode == Some(name@),
                    found == (count_named(model, name@, i as int) > 0),
                    text@ == concat(self@.exploded_lines(msg@, name@, i as int)),
                decreases entries@.len() - i,
            {
                assert(model[i as int] == (entries@[i as int].0@, entries@[i as int].1@));
                if text_equal(entries[i].0.as_str(), name.as_str()) {
                    found = true;
                    self.write_one_tls_record(&mut text, msg, Some(i));
                    proof {
                        let before = self@.exploded_lines(msg@, name@, i as int);
                        let after = self@.exploded_lines(msg@, name@, i + 1);
                        assert(after.drop_last() =~= before);
                    }
                }
                i += 1;
            }
        }
        if !found {
            let ghost before = text@;
            proof {
                if let Some(name) = self@.explode {
                    lemma_no_occurrence_no_line(self@, msg@, name, model.len() as int);
                }
                assert(text@ =~= Seq::empty());
            }
            self.write_one_tls_record(&mut text, msg, None);
            proof {
                let lines = seq![self@.record_line(msg@, None)];
                assert(lines.drop_last() =~= Seq::empty());
                assert(concat(Seq::<Seq<char>>::empty()) =~= Seq::empty());
                assert(text@ =~= concat(lines));
            }
        }
        append_text(out, &text)
    }

    /// Appends one line. `exploded` is the place of the single occurrence to write of the group to
    /// explode.
    fn write_one_tls_record(&self, text: &mut String, msg: &DecodedMessage, exploded: Option<usize>)
        requires
            exploded matches Some(i) ==> i < msg.fields.entries@.len(),
        ensures
            final(text)@ == old(text)@ + self@.record_line(
                msg@,
                match exploded {
                    Some(i) => Some(i as int),
                    None => None,
                },
            ),
    {
        let ghost place = match exploded {
            Some(i) => Some(i as int),
            None => None,
        };
        let ghost start = text@;
        text.append("{\"kind\":\"tls_record\",\"tstamp\":");
        push_dec(text, msg.timestamp.as_micros());
        self.write_ip(text, &msg.src_ip, &msg.dst_ip);
        self.write_tcp(text, msg.src_port, msg.dst_port);
        self.write_tls(text, msg.tls_app_data.as_slice());
        let ghost envelope = text@;
        self.write_groups(text, msg, exploded);
        text.append("}\n");
        proof {
            let stamp = dec(msg@.timestamp / NANOS_PER_MICRO as nat);
            let ip = ip_part(self@.ip, msg.src_ip, msg.dst_ip);
            let tcp = tcp_part(self@.tcp, msg.src_port, msg.dst_port);
            let tls = tls_part(self@.tls, msg.tls_app_data@);
            let groups = self@.group_parts(
                msg@.fields.entries,
                place,
                self@.groups.len() as int,
            );
            let kind = "{\"kind\":\"tls_record\",\"tstamp\":"@;
            assert(envelope =~= start + (kind + stamp + ip + tcp + tls));
            assert(text@ =~= start + (kind + stamp + ip + tcp + tls + groups + "}\n"@));
        }
    }

    fn write_groups(&self, text: &mut String, msg: &DecodedMessage, exploded: Option<usize>)
        requires
            exploded matches Some(i) ==> i < msg.fields.entries@.len(),
        ensures
            final(text)@ == old(text)@ + self@.group_parts(
                msg@.fields.entries,
                match exploded {
                    Some(i) => Some(i as int),
                    None => None,
                },
                self@.groups.len() as int,
            ),
    {
        let ghost place = match exploded {
            Some(i) => Some(i as int),
            None => None,
        };
        let entries = &msg.fields.entries;
        let ghost model = msg@.fields.entries;
        let mut i: usize = 0;
        assert(text@ =~= old(text)@ + self@.group_parts(model, place, 0));
        while i < self.generic_group_order.len()
            invariant
                i <= self.generic_group_order@.len(),
                model == entries_model(entries@),
                place == match exploded {
                    Some(i) => Some(i as int),
                    None => None,
                },
                exploded matches Some(i) ==> i < entries@.len(),
                text@ == old(text)@ + self@.group_parts(model, place, i as int),
            decreases self.generic_group_order@.len() - i,
        {
            let group = self.generic_group_order[i].as_str();
            assert(self@.groups[i as int] == group@);
            let ghost before = text@;
            let chosen = match (&self.explode, exploded) {
                (Some(name), Some(place)) => if text_equal(name.as_str(), group) {
                    Some(place)
                } else {
                    None
                },
                _ => None,
            };
            match chosen {
                Some(at) => {
                    assert(model[at as int] == (entries@[at as int].0@, entries@[at as int].1@));
                    text.push(',');
                    write_json_string(text, group);
                    text.push(':');
                    write_field_value(text, &entries[at].1, group, &self.map_fields);
                },
                None => {
                    if count_in(entries, group) {
                        text.push(',');
                        write_json_string(text, group);
                        text.push(':');
                        write_named_value(text, entries, group, group, &self.map_fields);
                    }
                },
            }
            assert(text@ =~= before + self@.group_part(model, place, group@));
            i += 1;
            assert(text@ =~= old(text)@ + self@.group_parts(model, place, i as int));
        }
    }

    /// Writes one packet event's line. Returns the number of bytes written.
    pub fn write_packet_event(&self, out: &mut Vec<u8>, evt: &PacketEvent) -> (n: usize)
        ensures
            final(out)@ == old(out)@ + encode_utf8(self@.packet_line(*evt)),
            n == encode_utf8(self@.packet_line(*evt)).len(),
    {
        let mut text = String::new();
        text.append("{\"kind\":\"packet\",\"tstamp\":");
        push_dec(&mut text, evt.timestamp.as_micros());
        self.write_ip(&mut text, &evt.src_ip, &evt.dst_ip);
        if self.has_tcp {
            text.append(",\"tcp\":{\"srcport\":");
            push_dec(&mut text, evt.src_port as u128);
            text.append(",\"dstport\":");
            push_dec(&mut text, evt.dst_port as u128);
            text.append(",\"seq\":");
            push_dec(&mut text, evt.seq as u128);
            text.append(",\"ack\":");
            push_dec(&mut text, evt.ack as u128);
            text.append(",\"flags\":[");
            write_flags(&mut text, &evt.flags);
            text.append("],\"payload_len\":");
            push_dec(&mut text, evt.payload_len as u128);
            text.append("}");
        }
        text.append("}\n");
        assert(text@ =~= self@.packet_line(*evt));
        append_text(out, &text)
    }
}

fn write_flags(text: &mut String, flags: &Vec<&'static str>)
    ensures
        final(text)@ == old(text)@ + joined(texts(flags@), flags@.len() as int),
{
    let ghost all = texts(flags@);
    let mut i: usize = 0;
    assert(text@ =~= old(text)@ + joined(all, 0));
    while i < flags.len()
        invariant
            i <= flags@.len(),
            all == texts(flags@),
            text@ == old(text)@ + joined(all, i as int),
        decreases flags@.len() - i,
    {
        if i > 0 {
            text.push(',');
        }
        assert(all[i as int] == flags@[i as int]@);
        write_json_string(text, flags[i]);
        i += 1;
        assert(text@ =~= old(text)@ + joined(all, i as int));
    }
}

/// Whether an entry of this name is there.
fn count_in(entries: &Vec<(String, FieldValue)>, name: &str) -> (found: bool)
    ensures
        found == (count_named(entries_model(entries@), name@, entries@.len() as int) > 0),
{
    let ghost model = entries_model(entries@);
    let mut found = false;
    let mut i: usize = 0;
    while i < entries.len()
        invariant
            i <= entries@.len(),
            model == entries_model(entries@),
            found == (count_named(model, name@, i as int) > 0),
        decreases entries@.len() - i,
    {
        assert(model[i as int].0 == entries@[i as int].0@);
        if text_equal(entries[i].0.as_str(), name) {
            found = true;
        }
        i += 1;
    }
    found
}

proof fn lemma_envelope_names()
    ensures
        "ip"@ != "tcp"@,
        "ip"@ != "tls"@,
        "tcp"@ != "tls"@,
{
    reveal_strlit("ip");
    reveal_strlit("tcp");
    reveal_strlit("tls");
    assert("ip"@.len() == 2);
    assert("tcp"@.len() == 3);
    assert("tls"@.len() == 3);
    assert("tcp"@[1] == 'c');
    assert("tls"@[1] == 'l');
}

proof fn lemma_selects_one_more(all: Seq<Seq<char>>, i: int, group: Seq<char>)
    requires
        0 <= i < all.len(),
    ensures
        selects(all.take(i + 1), group) == (selects(all.take(i), group) || group_of(all[i])
            == group),
{
    let before = all.take(i);
    let after = all.take(i + 1);
    if selects(before, group) {
        let j = choose|j: int| 0 <= j < before.len() && group_of(#[trigger] before[j]) == group;
        assert(after[j] == before[j]);
    }
    if group_of(all[i]) == group {
        assert(after[i] == all[i]);
    }
    if selects(after, group) {
        let j = choose|j: int| 0 <= j < after.len() && group_of(#[trigger] after[j]) == group;
        if j < i {
            assert(before[j] == after[j]);
        }
    }
}

proof fn lemma_no_occurrence_no_line(w: NdjsonModel, msg: MessageModel, name: Seq<char>, n: int)
    requires
        0 <= n <= msg.fields.entries.len(),
        count_named(msg.fields.entries, name, n) == 0,
    ensures
        w.exploded_lines(msg, name, n) == Seq::<Seq<char>>::empty(),
        concat(w.exploded_lines(msg, name, n)) == Seq::<char>::empty(),
    decreases n,
{
    if n > 0 {
        lemma_no_occurrence_no_line(w, msg, name, n - 1);
    }
    assert(w.exploded_lines(msg, name, n) =~= Seq::empty());
}

} // verus!
