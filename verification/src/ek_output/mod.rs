//! Writes messages and packet events out as text, in two formats.
//!
//! `EkWriter` writes what `tshark -T ek` would: per message an Elasticsearch bulk action line and
//! a data line whose layers hold the selected fields, each as an array of strings. A field that
//! did not occur is left out.
//!
//! `NdjsonWriter` writes one JSON object per line, with numbers as numbers and nested subtrees as
//! nested objects.

pub mod calendar;
pub mod json;
pub mod laws;
pub mod lines;
pub mod ndjson;
pub mod reading;
pub mod render;
pub mod values;

use vstd::prelude::*;
use vstd::string::*;
use vstd::utf8::encode_utf8;
use crate::bytes::append_bytes;
use crate::ek_output::calendar::{days_from_civil, is_date};
use crate::ek_output::json::{json_string, underscored, with_underscores, write_json_string};
use crate::ek_output::render::{contains_name, name_set};
use crate::lua::tree::{output_text, values_model, values_named, ValueModel};
use crate::net::{ip_text, IpAddr};
use crate::orchestrator::model::MessageModel;
use crate::orchestrator::DecodedMessage;
use crate::text::{dec, dec_padded, hex_encode, hex_of, push_dec, push_dec_padded, text_equal};
use crate::time::{Duration, NANOS_PER_MILLI, NANOS_PER_SEC};

pub use crate::ek_output::calendar::civil_from_days;
pub use crate::ek_output::ndjson::NdjsonWriter;

verus! {

/// Seconds of a day.
pub const SECS_PER_DAY: u64 = 86400;

/// The date that a time since the epoch falls on, as `YYYY-MM-DD`.
pub open spec fn is_index_date(text: Seq<char>, nanos: nat) -> bool {
    exists|y: nat, m: nat, d: nat|
        #![trigger is_date(y as int, m as int, d as int)]
        {
            &&& is_date(y as int, m as int, d as int)
            &&& days_from_civil(y as int, m as int, d as int) == nanos / NANOS_PER_SEC as nat
                / SECS_PER_DAY as nat
            &&& text == date_text(y, m, d)
        }
}

pub open spec fn date_text(y: nat, m: nat, d: nat) -> Seq<char> {
    dec_padded(y, 4) + seq!['-'] + dec_padded(m, 2) + seq!['-'] + dec_padded(d, 2)
}

/// The date of a time since the epoch.
pub open spec fn date_of(nanos: nat) -> Seq<char> {
    choose|text: Seq<char>| is_index_date(text, nanos)
}

pub(crate) proof fn lemma_date_is_unique(text: Seq<char>, nanos: nat)
    requires
        is_index_date(text, nanos),
    ensures
        text == date_of(nanos),
{
    let other = date_of(nanos);
    assert(is_index_date(other, nanos));
    let (y, m, d) = choose|y: nat, m: nat, d: nat|
        #![trigger is_date(y as int, m as int, d as int)]
        is_date(y as int, m as int, d as int) && days_from_civil(y as int, m as int, d as int)
            == nanos / NANOS_PER_SEC as nat / SECS_PER_DAY as nat && text == date_text(y, m, d);
    let (y2, m2, d2) = choose|y: nat, m: nat, d: nat|
        #![trigger is_date(y as int, m as int, d as int)]
        is_date(y as int, m as int, d as int) && days_from_civil(y as int, m as int, d as int)
            == nanos / NANOS_PER_SEC as nat / SECS_PER_DAY as nat && other == date_text(y, m, d);
    crate::ek_output::calendar::law_dates_are_distinct(
        y as int,
        m as int,
        d as int,
        y2 as int,
        m2 as int,
        d2 as int,
    );
}

/// The date of a message's capture time, as `YYYY-MM-DD`.
pub fn index_date(timestamp: Duration) -> (text: String)
    ensures
        text@ == date_of(timestamp@),
        is_index_date(text@, timestamp@),
{
    let days: i64 = (timestamp.as_secs() / SECS_PER_DAY) as i64;
    let (y, m, d) = civil_from_days(days);
    proof {
        crate::ek_output::calendar::lemma_epoch_years(y as int, m as int, d as int);
    }
    let mut out = String::new();
    push_dec_padded(&mut out, y as u128, 4);
    out.push('-');
    push_dec_padded(&mut out, m as u128, 2);
    out.push('-');
    push_dec_padded(&mut out, d as u128, 2);
    proof {
        assert(out@ =~= date_text(y as nat, m as nat, d as nat));
        assert(is_date(y as nat as int, m as nat as int, d as nat as int));
        assert(is_index_date(out@, timestamp@));
        lemma_date_is_unique(out@, timestamp@);
    }
    out
}

/// The texts of a run of strings.
pub open spec fn strings(s: Seq<String>) -> Seq<Seq<char>> {
    s.map_values(|t: String| t@)
}

/// The first `n` texts as JSON strings with commas between them.
pub open spec fn joined(values: Seq<Seq<char>>, n: int) -> Seq<char>
    decreases n,
{
    if n <= 0 || n > values.len() {
        Seq::empty()
    } else {
        joined(values, n - 1) + if n > 1 {
            seq![',']
        } else {
            Seq::empty()
        } + json_string(values[n - 1])
    }
}

/// The values of a selected field: one for each of the fields that every message has, and
/// whatever the dissector recorded under any other name.
pub open spec fn selected_values(field: Seq<char>, msg: MessageModel) -> Seq<Seq<char>> {
    if field == "ip.src"@ {
        seq![ip_text(msg.src_ip)]
    } else if field == "ip.dst"@ {
        seq![ip_text(msg.dst_ip)]
    } else if field == "tcp.srcport"@ {
        seq![dec(msg.src_port as nat)]
    } else if field == "tcp.dstport"@ {
        seq![dec(msg.dst_port as nat)]
    } else if field == "tls.app_data"@ {
        seq![hex_of(msg.tls_app_data)]
    } else {
        values_named(msg.fields.entries, field).map_values(|v: ValueModel| output_text(v))
    }
}

/// The values of a field, if the field is recognised: every message has it, this one does, or its
/// name is among those `known`. A field that is known and did not occur has no values, which is
/// not the same as a name that nothing knows.
pub open spec fn recognised_values(
    field: Seq<char>,
    known: Set<Seq<char>>,
    msg: MessageModel,
) -> Option<Seq<Seq<char>>> {
    let values = selected_values(field, msg);
    if values.len() > 0 || known.contains(field) {
        Some(values)
    } else {
        None
    }
}

/// The first `n` selected fields as members of the layers object. A field without values is left
/// out.
pub open spec fn layers_text(fields: Seq<Seq<char>>, msg: MessageModel, n: int) -> Seq<char>
    decreases n,
{
    if n <= 0 || n > fields.len() {
        Seq::empty()
    } else {
        let before = layers_text(fields, msg, n - 1);
        let values = selected_values(fields[n - 1], msg);
        if values.len() == 0 {
            before
        } else {
            before + if before.len() > 0 {
                seq![',']
            } else {
                Seq::empty()
            } + json_string(underscored(fields[n - 1])) + seq![':', '['] + joined(
                values,
                values.len() as int,
            ) + seq![']']
        }
    }
}

/// A message's two lines: the bulk action with the index of its day, and its layers.
pub open spec fn ek_text(fields: Seq<Seq<char>>, index_prefix: Seq<char>, msg: MessageModel) -> Seq<
    char,
> {
    "{\"index\":{\"_index\":\""@ + index_prefix + "-"@ + date_of(msg.timestamp) + "\"}}\n"@
        + "{\"timestamp\":\""@ + dec(msg.timestamp / NANOS_PER_MILLI as nat)
        + "\",\"layers\":{"@ + layers_text(fields, msg, fields.len() as int) + "}}\n"@
}

fn dec_string(n: u128) -> (text: String)
    ensures
        text@ == dec(n as nat),
{
    let mut out = String::new();
    push_dec(&mut out, n);
    assert(out@ =~= dec(n as nat));
    out
}

pub(crate) fn ip_string(ip: &IpAddr) -> (text: String)
    ensures
        text@ == ip_text(*ip),
{
    let mut out = String::new();
    ip.push_text(&mut out);
    assert(out@ =~= ip_text(*ip));
    out
}

fn singleton(text: String) -> (values: Vec<String>)
    ensures
        strings(values@) == seq![text@],
{
    let mut values: Vec<String> = Vec::new();
    let ghost t = text@;
    values.push(text);
    assert(strings(values@) =~= seq![t]);
    values
}

/// Appends text to bytes. Returns how many bytes it took.
pub(crate) fn append_text(out: &mut Vec<u8>, text: &String) -> (n: usize)
    ensures
        final(out)@ == old(out)@ + encode_utf8(text@),
        n == encode_utf8(text@).len(),
{
    let bytes = text.as_str().as_bytes();
    append_bytes(out, bytes);
    bytes.len()
}

/// Writes messages in the format of `tshark -T ek`.
pub struct EkWriter {
    fields: Vec<String>,
    index_prefix: String,
    known: Vec<String>,
}

impl EkWriter {
    /// The names of the fields selected, in order.
    pub closed spec fn selection(&self) -> Seq<Seq<char>> {
        strings(self.fields@)
    }

    pub closed spec fn prefix(&self) -> Seq<char> {
        self.index_prefix@
    }

    /// The names of the fields that dissectors have registered, as far as the writer was told.
    pub closed spec fn known(&self) -> Set<Seq<char>> {
        name_set(self.known@)
    }

    /// `fields` are the names of the fields to select, in the order of the output. No field of a
    /// dissector is known.
    pub fn new(fields: Vec<String>, index_prefix: String) -> (w: EkWriter)
        ensures
            w.selection() == strings(fields@),
            w.prefix() == index_prefix@,
            w.known() == Set::<Seq<char>>::empty(),
    {
        let w = EkWriter::with_known_fields(fields, index_prefix, Vec::new());
        assert(w.known() =~= Set::empty());
        w
    }

    /// `known` are the names of the fields that dissectors have registered.
    pub fn with_known_fields(fields: Vec<String>, index_prefix: String, known: Vec<String>) -> (w:
        EkWriter)
        ensures
            w.selection() == strings(fields@),
            w.prefix() == index_prefix@,
            w.known() == name_set(known@),
    {
        EkWriter { fields, index_prefix, known }
    }

    /// Writes one message's two lines. Returns the number of bytes written.
    pub fn write_message(&self, out: &mut Vec<u8>, msg: &DecodedMessage) -> (n: usize)
        ensures
            final(out)@ == old(out)@ + encode_utf8(ek_text(self.selection(), self.prefix(), msg@)),
            n == encode_utf8(ek_text(self.selection(), self.prefix(), msg@)).len(),
    {
        let mut text = String::new();
        text.append("{\"index\":{\"_index\":\"");
        text.append(self.index_prefix.as_str());
        text.append("-");
        let date = index_date(msg.timestamp);
        text.append(date.as_str());
        text.append("\"}}\n");
        text.append("{\"timestamp\":\"");
        push_dec(&mut text, msg.timestamp.as_millis());
        text.append("\",\"layers\":{");
        let ghost head = text@;
        self.write_layers(&mut text, msg);
        text.append("}}\n");
        assert(text@ =~= ek_text(self.selection(), self.prefix(), msg@));
        append_text(out, &text)
    }

    fn write_layers(&self, text: &mut String, msg: &DecodedMessage)
        ensures
            final(text)@ == old(text)@ + layers_text(
                self.selection(),
                msg@,
                self.selection().len() as int,
            ),
    {
        let ghost head = text@;
        let ghost fields = self.selection();
        let mut first = true;
        let mut i: usize = 0;
        assert(text@ =~= head + layers_text(fields, msg@, 0));
        while i < self.fields.len()
            invariant
                i <= self.fields@.len(),
                fields == self.selection(),
                first == (layers_text(fields, msg@, i as int).len() == 0),
                text@ == head + layers_text(fields, msg@, i as int),
            decreases self.fields@.len() - i,
        {
            let field = self.fields[i].as_str();
            assert(fields[i as int] == field@);
            let values = match self.values_for(field, msg) {
                Some(values) => values,
                None => Vec::new(),
            };
            assert(strings(values@).len() == values@.len());
            if values.len() > 0 {
                if !first {
                    text.push(',');
                }
                first = false;
                let key = with_underscores(field);
                write_json_string(text, key.as_str());
                text.append(":[");
                proof {
                    reveal_strlit(":[");
                }
                write_joined(text, &values);
                text.push(']');
                assert(text@ =~= head + layers_text(fields, msg@, i + 1));
            }
            i += 1;
        }
    }

    /// The values of a field; `None` for a name that is not recognised at all. See
    /// `recognised_values`.
    pub fn values_for(&self, field: &str, msg: &DecodedMessage) -> (values: Option<Vec<String>>)
        ensures
            match values {
                Some(values) => recognised_values(field@, self.known(), msg@) == Some(
                    strings(values@),
                ),
                None => recognised_values(field@, self.known(), msg@) is None,
            },
    {
        let values = EkWriter::occurrences(field, msg);
        assert(strings(values@).len() == values@.len());
        if values.len() > 0 || contains_name(&self.known, field) {
            Some(values)
        } else {
            None
        }
    }

    /// The values that a message has for a field.
    fn occurrences(field: &str, msg: &DecodedMessage) -> (values: Vec<String>)
        ensures
            strings(values@) == selected_values(field@, msg@),
    {
        if text_equal(field, "ip.src") {
            singleton(ip_string(&msg.src_ip))
        } else if text_equal(field, "ip.dst") {
            singleton(ip_string(&msg.dst_ip))
        } else if text_equal(field, "tcp.srcport") {
            singleton(dec_string(msg.src_port as u128))
        } else if text_equal(field, "tcp.dstport") {
            singleton(dec_string(msg.dst_port as u128))
        } else if text_equal(field, "tls.app_data") {
            singleton(hex_encode(msg.tls_app_data.as_slice()))
        } else {
            let found = msg.fields.values_for(field);
            let mut values: Vec<String> = Vec::new();
            let mut i: usize = 0;
            while i < found.len()
                invariant
                    i <= found@.len(),
                    values@.len() == i,
                    forall|j: int|
                        0 <= j < i ==> (#[trigger] values@[j])@ == output_text(found@[j]@),
                decreases found@.len() - i,
            {
                values.push(found[i].to_output_string());
                i += 1;
            }
            proof {
                assert(values_model(found@).len() == found@.len());
                assert(strings(values@) =~= values_named(msg@.fields.entries, field@).map_values(
                    |v: ValueModel| output_text(v),
                ));
            }
            values
        }
    }
}

fn write_joined(text: &mut String, values: &Vec<String>)
    ensures
        final(text)@ == old(text)@ + joined(strings(values@), values@.len() as int),
{
    let ghost all = strings(values@);
    let mut i: usize = 0;
    assert(text@ =~= old(text)@ + joined(all, 0));
    while i < values.len()
        invariant
            i <= values@.len(),
            all == strings(values@),
            text@ == old(text)@ + joined(all, i as int),
        decreases values@.len() - i,
    {
        if i > 0 {
            text.push(',');
        }
        assert(all[i as int] == values@[i as int]@);
        write_json_string(text, values[i].as_str());
        i += 1;
        assert(text@ =~= old(text)@ + joined(all, i as int));
    }
}

/// A field that did not occur leaves no trace in the layers.
pub proof fn law_absent_field_is_omitted(fields: Seq<Seq<char>>, msg: MessageModel, n: int)
    requires
        0 < n <= fields.len(),
        selected_values(fields[n - 1], msg).len() == 0,
    ensures
        layers_text(fields, msg, n) == layers_text(fields, msg, n - 1),
{
}

} // verus!
