//! What whole lines read as.

use vstd::prelude::*;
use vstd::string::*;
use crate::ek_output::json::{escape, group_of, json_string, underscored};
use crate::ek_output::ndjson::{
    concat, generic_groups, ip_part, is_envelope, tcp_part, tls_part, NdjsonModel,
};
use crate::ek_output::reading::{
    after_member, digits_value, ends_value, is_digit, law_written_number_reads_back,
    law_written_string_reads_back, lemma_appended_member, lemma_closed, lemma_dec_digits,
    lemma_member, lemma_member_at, lemma_object, lemma_opened, read_members, read_value, Json,
};
use crate::ek_output::render::{named_text, value_text, Entries};
use crate::ek_output::values::{
    law_array_of_strings_reads_back, law_named_values_read_back, law_value_reads_back, lemma_occurs,
    named_json, occurs, texts_json, value_json,
};
use crate::ek_output::calendar::{days_from_civil, is_date};
use crate::ek_output::laws::lemma_clean_date;
use crate::ek_output::{
    date_of, date_text, ek_text, is_index_date, joined, layers_text, lemma_date_is_unique,
    recognised_values, selected_values, SECS_PER_DAY,
};
use crate::lua::tree::{values_named, ValueModel};
use crate::net::{ip_text, IpAddr};
use crate::orchestrator::model::{texts, MessageModel, PacketEvent};
use crate::text::{dec, dec_padded, hex_of};
use crate::time::NANOS_PER_SEC;

verus! {

/// The members of an object.
pub type Members = Seq<(Seq<char>, Json)>;

/// Text that stands for itself in a JSON string.
pub open spec fn is_plain(s: Seq<char>) -> bool {
    forall|i: int|
        0 <= i < s.len() ==> (#[trigger] s[i]) != '"' && s[i] != '\\' && s[i] as u32 >= 0x20
}

proof fn lemma_plain(s: Seq<char>)
    requires
        is_plain(s),
    ensures
        escape(s) == s,
        json_string(s) == seq!['"'] + s + seq!['"'],
    decreases s.len(),
{
    if s.len() > 0 {
        let more = s.drop_first();
        assert forall|i: int| 0 <= i < more.len() implies (#[trigger] more[i]) != '"' && more[i]
            != '\\' && more[i] as u32 >= 0x20 by {
            assert(more[i] == s[i + 1]);
        }
        lemma_plain(more);
        assert(s[0] as u32 >= 0x20);
        assert(seq![s[0]] + more =~= s);
    } else {
        assert(escape(s) =~= s);
    }
}

/// A member's text.
pub open spec fn member(key: Seq<char>, text: Seq<char>) -> Seq<char> {
    json_string(key) + seq![':'] + text
}

proof fn lemma_record_head()
    ensures
        "{\"kind\":\"tls_record\",\"tstamp\":"@ == seq!['{']
            + member("kind"@, json_string("tls_record"@)) + seq![','] + json_string("tstamp"@)
            + seq![':'],
{
    assert("{\"kind\":\"tls_record\",\"tstamp\":"@ == seq!['{']
        + member("kind"@, json_string("tls_record"@)) + seq![','] + json_string("tstamp"@)
        + seq![':']) by {
        reveal_strlit("{\"kind\":\"tls_record\",\"tstamp\":");
        reveal_strlit("kind");
        lemma_plain("kind"@);
        reveal_strlit("tls_record");
        lemma_plain("tls_record"@);
        reveal_strlit("tstamp");
        lemma_plain("tstamp"@);
        let spelled = seq![
            '{', '"', 'k', 'i', 'n', 'd', '"', ':', '"', 't', 'l', 's', '_', 'r', 'e', 'c', 'o',
            'r', 'd', '"', ',', '"', 't', 's', 't', 'a', 'm', 'p', '"', ':',
        ];
        assert("{\"kind\":\"tls_record\",\"tstamp\":"@ =~= spelled);
        assert(seq!['{'] + member("kind"@, json_string("tls_record"@)) + seq![',']
            + json_string("tstamp"@) + seq![':'] =~= spelled);
    }
}

proof fn lemma_packet_head()
    ensures
        "{\"kind\":\"packet\",\"tstamp\":"@ == seq!['{'] + member("kind"@, json_string("packet"@))
            + seq![','] + json_string("tstamp"@) + seq![':'],
{
    assert("{\"kind\":\"packet\",\"tstamp\":"@ == seq!['{']
        + member("kind"@, json_string("packet"@)) + seq![','] + json_string("tstamp"@)
        + seq![':']) by {
        reveal_strlit("{\"kind\":\"packet\",\"tstamp\":");
        reveal_strlit("kind");
        lemma_plain("kind"@);
        reveal_strlit("packet");
        lemma_plain("packet"@);
        reveal_strlit("tstamp");
        lemma_plain("tstamp"@);
        let spelled = seq![
            '{', '"', 'k', 'i', 'n', 'd', '"', ':', '"', 'p', 'a', 'c', 'k', 'e', 't', '"', ',',
            '"', 't', 's', 't', 'a', 'm', 'p', '"', ':',
        ];
        assert("{\"kind\":\"packet\",\"tstamp\":"@ =~= spelled);
        assert(seq!['{'] + member("kind"@, json_string("packet"@)) + seq![',']
            + json_string("tstamp"@) + seq![':'] =~= spelled);
    }
}

proof fn lemma_ip_pieces()
    ensures
        ",\"ip\":{\"src\":"@ == seq![','] + json_string("ip"@) + seq![':', '{']
            + json_string("src"@) + seq![':'],
        ",\"dst\":"@ == seq![','] + json_string("dst"@) + seq![':'],
{
    assert(",\"ip\":{\"src\":"@ == seq![','] + json_string("ip"@) + seq![':', '{']
        + json_string("src"@) + seq![':']) by {
        reveal_strlit(",\"ip\":{\"src\":");
        reveal_strlit("ip");
        lemma_plain("ip"@);
        reveal_strlit("src");
        lemma_plain("src"@);
        let spelled = seq![
            ',', '"', 'i', 'p', '"', ':', '{', '"', 's', 'r', 'c', '"', ':',
        ];
        assert(",\"ip\":{\"src\":"@ =~= spelled);
        assert(seq![','] + json_string("ip"@) + seq![':', '{'] + json_string("src"@)
            + seq![':'] =~= spelled);
    }
    assert(",\"dst\":"@ == seq![','] + json_string("dst"@) + seq![':']) by {
        reveal_strlit(",\"dst\":");
        reveal_strlit("dst");
        lemma_plain("dst"@);
        let spelled = seq![
            ',', '"', 'd', 's', 't', '"', ':',
        ];
        assert(",\"dst\":"@ =~= spelled);
        assert(seq![','] + json_string("dst"@) + seq![':'] =~= spelled);
    }
}

proof fn lemma_tcp_pieces()
    ensures
        ",\"tcp\":{\"srcport\":"@ == seq![','] + json_string("tcp"@) + seq![':', '{']
            + json_string("srcport"@) + seq![':'],
        ",\"dstport\":"@ == seq![','] + json_string("dstport"@) + seq![':'],
{
    assert(",\"tcp\":{\"srcport\":"@ == seq![','] + json_string("tcp"@) + seq![':', '{']
        + json_string("srcport"@) + seq![':']) by {
        reveal_strlit(",\"tcp\":{\"srcport\":");
        reveal_strlit("tcp");
        lemma_plain("tcp"@);
        reveal_strlit("srcport");
        lemma_plain("srcport"@);
        let spelled = seq![
            ',', '"', 't', 'c', 'p', '"', ':', '{', '"', 's', 'r', 'c', 'p', 'o', 'r', 't', '"',
            ':',
        ];
        assert(",\"tcp\":{\"srcport\":"@ =~= spelled);
        assert(seq![','] + json_string("tcp"@) + seq![':', '{'] + json_string("srcport"@)
            + seq![':'] =~= spelled);
    }
    assert(",\"dstport\":"@ == seq![','] + json_string("dstport"@) + seq![':']) by {
        reveal_strlit(",\"dstport\":");
        reveal_strlit("dstport");
        lemma_plain("dstport"@);
        let spelled = seq![
            ',', '"', 'd', 's', 't', 'p', 'o', 'r', 't', '"', ':',
        ];
        assert(",\"dstport\":"@ =~= spelled);
        assert(seq![','] + json_string("dstport"@) + seq![':'] =~= spelled);
    }
}

proof fn lemma_packet_pieces()
    ensures
        ",\"seq\":"@ == seq![','] + json_string("seq"@) + seq![':'],
        ",\"ack\":"@ == seq![','] + json_string("ack"@) + seq![':'],
        ",\"flags\":["@ == seq![','] + json_string("flags"@) + seq![':', '['],
        "],\"payload_len\":"@ == seq![']', ','] + json_string("payload_len"@) + seq![':'],
{
    assert(",\"seq\":"@ == seq![','] + json_string("seq"@) + seq![':']) by {
        reveal_strlit(",\"seq\":");
        reveal_strlit("seq");
        lemma_plain("seq"@);
        let spelled = seq![
            ',', '"', 's', 'e', 'q', '"', ':',
        ];
        assert(",\"seq\":"@ =~= spelled);
        assert(seq![','] + json_string("seq"@) + seq![':'] =~= spelled);
    }
    assert(",\"ack\":"@ == seq![','] + json_string("ack"@) + seq![':']) by {
        reveal_strlit(",\"ack\":");
        reveal_strlit("ack");
        lemma_plain("ack"@);
        let spelled = seq![
            ',', '"', 'a', 'c', 'k', '"', ':',
        ];
        assert(",\"ack\":"@ =~= spelled);
        assert(seq![','] + json_string("ack"@) + seq![':'] =~= spelled);
    }
    assert(",\"flags\":["@ == seq![','] + json_string("flags"@) + seq![':', '[']) by {
        reveal_strlit(",\"flags\":[");
        reveal_strlit("flags");
        lemma_plain("flags"@);
        let spelled = seq![
            ',', '"', 'f', 'l', 'a', 'g', 's', '"', ':', '[',
        ];
        assert(",\"flags\":["@ =~= spelled);
        assert(seq![','] + json_string("flags"@) + seq![':', '['] =~= spelled);
    }
    assert("],\"payload_len\":"@ == seq![']', ','] + json_string("payload_len"@) + seq![':']) by {
        reveal_strlit("],\"payload_len\":");
        reveal_strlit("payload_len");
        lemma_plain("payload_len"@);
        let spelled = seq![
            ']', ',', '"', 'p', 'a', 'y', 'l', 'o', 'a', 'd', '_', 'l', 'e', 'n', '"', ':',
        ];
        assert("],\"payload_len\":"@ =~= spelled);
        assert(seq![']', ','] + json_string("payload_len"@) + seq![':'] =~= spelled);
    }
}

proof fn lemma_tls_piece()
    ensures
        ",\"tls\":{\"app_data\":"@ == seq![','] + json_string("tls"@) + seq![':', '{']
            + json_string("app_data"@) + seq![':'],
{
    assert(",\"tls\":{\"app_data\":"@ == seq![','] + json_string("tls"@) + seq![':', '{']
        + json_string("app_data"@) + seq![':']) by {
        reveal_strlit(",\"tls\":{\"app_data\":");
        reveal_strlit("tls");
        lemma_plain("tls"@);
        reveal_strlit("app_data");
        lemma_plain("app_data"@);
        let spelled = seq![
            ',', '"', 't', 'l', 's', '"', ':', '{', '"', 'a', 'p', 'p', '_', 'd', 'a', 't', 'a',
            '"', ':',
        ];
        assert(",\"tls\":{\"app_data\":"@ =~= spelled);
        assert(seq![','] + json_string("tls"@) + seq![':', '{'] + json_string("app_data"@)
            + seq![':'] =~= spelled);
    }
}

proof fn lemma_ends()
    ensures
        "}"@ == seq!['}'],
        "}\n"@ == seq!['}', '\n'],
        "-"@ == seq!['-'],
        "\"}}\n"@ == seq!['"', '}', '}', '\n'],
        "}}\n"@ == seq!['}', '}', '\n'],
{
    reveal_strlit("}");
    assert("}"@ =~= seq!['}']);
    reveal_strlit("}\n");
    assert("}\n"@ =~= seq!['}', '\n']);
    reveal_strlit("-");
    assert("-"@ =~= seq!['-']);
    reveal_strlit("\"}}\n");
    assert("\"}}\n"@ =~= seq!['"', '}', '}', '\n']);
    reveal_strlit("}}\n");
    assert("}}\n"@ =~= seq!['}', '}', '\n']);
}

proof fn lemma_index_piece()
    ensures
        "{\"index\":{\"_index\":\""@ == seq!['{'] + json_string("index"@) + seq![':', '{']
            + json_string("_index"@) + seq![':', '"'],
{
    assert("{\"index\":{\"_index\":\""@ == seq!['{'] + json_string("index"@) + seq![':', '{']
        + json_string("_index"@) + seq![':', '"']) by {
        reveal_strlit("{\"index\":{\"_index\":\"");
        reveal_strlit("index");
        lemma_plain("index"@);
        reveal_strlit("_index");
        lemma_plain("_index"@);
        let spelled = seq![
            '{', '"', 'i', 'n', 'd', 'e', 'x', '"', ':', '{', '"', '_', 'i', 'n', 'd', 'e', 'x',
            '"', ':', '"',
        ];
        assert("{\"index\":{\"_index\":\""@ =~= spelled);
        assert(seq!['{'] + json_string("index"@) + seq![':', '{'] + json_string("_index"@)
            + seq![':', '"'] =~= spelled);
    }
}

proof fn lemma_data_pieces()
    ensures
        "{\"timestamp\":\""@ == seq!['{'] + json_string("timestamp"@) + seq![':', '"'],
        "\",\"layers\":{"@ == seq!['"', ','] + json_string("layers"@) + seq![':', '{'],
{
    assert("{\"timestamp\":\""@ == seq!['{'] + json_string("timestamp"@) + seq![':', '"']) by {
        reveal_strlit("{\"timestamp\":\"");
        reveal_strlit("timestamp");
        lemma_plain("timestamp"@);
        let spelled = seq![
            '{', '"', 't', 'i', 'm', 'e', 's', 't', 'a', 'm', 'p', '"', ':', '"',
        ];
        assert("{\"timestamp\":\""@ =~= spelled);
        assert(seq!['{'] + json_string("timestamp"@) + seq![':', '"'] =~= spelled);
    }
    assert("\",\"layers\":{"@ == seq!['"', ','] + json_string("layers"@) + seq![':', '{']) by {
        reveal_strlit("\",\"layers\":{");
        reveal_strlit("layers");
        lemma_plain("layers"@);
        let spelled = seq![
            '"', ',', '"', 'l', 'a', 'y', 'e', 'r', 's', '"', ':', '{',
        ];
        assert("\",\"layers\":{"@ =~= spelled);
        assert(seq!['"', ','] + json_string("layers"@) + seq![':', '{'] =~= spelled);
    }
}

/// The `ip` member: an object of the two addresses.
pub open spec fn ip_json(selected: bool, src: IpAddr, dst: IpAddr) -> Members {
    if selected {
        seq![
            (
                "ip"@,
                Json::Object(
                    seq![
                        ("src"@, Json::Text(ip_text(src))),
                        ("dst"@, Json::Text(ip_text(dst))),
                    ],
                ),
            ),
        ]
    } else {
        Seq::empty()
    }
}

/// The `tcp` member of a record: an object of the two ports.
pub open spec fn tcp_json(selected: bool, src_port: u16, dst_port: u16) -> Members {
    if selected {
        seq![
            (
                "tcp"@,
                Json::Object(
                    seq![
                        ("srcport"@, Json::Number(src_port as nat)),
                        ("dstport"@, Json::Number(dst_port as nat)),
                    ],
                ),
            ),
        ]
    } else {
        Seq::empty()
    }
}

/// The `tcp` member of a packet.
pub open spec fn packet_tcp_json(selected: bool, evt: PacketEvent) -> Members {
    if selected {
        seq![
            (
                "tcp"@,
                Json::Object(
                    seq![
                        ("srcport"@, Json::Number(evt.src_port as nat)),
                        ("dstport"@, Json::Number(evt.dst_port as nat)),
                        ("seq"@, Json::Number(evt.seq as nat)),
                        ("ack"@, Json::Number(evt.ack as nat)),
                        ("flags"@, Json::List(texts_json(texts(evt.flags@)))),
                        ("payload_len"@, Json::Number(evt.payload_len as nat)),
                    ],
                ),
            ),
        ]
    } else {
        Seq::empty()
    }
}

/// The `tls` member: an object of the plaintext's hexadecimal digits.
pub open spec fn tls_json(selected: bool, app_data: Seq<u8>) -> Members {
    if selected {
        seq![
            ("tls"@, Json::Object(seq![("app_data"@, Json::Text(hex_of(app_data)))])),
        ]
    } else {
        Seq::empty()
    }
}

/// The members of the first `n` groups: each that occurs, with the one occurrence that the line is
/// about where the group is the one to explode.
pub open spec fn groups_json(
    w: NdjsonModel,
    entries: Entries,
    exploded: Option<int>,
    n: int,
) -> Members
    decreases n,
{
    if n <= 0 || n > w.groups.len() {
        Seq::empty()
    } else {
        let before = groups_json(w, entries, exploded, n - 1);
        let group = w.groups[n - 1];
        match exploded {
            Some(i) if w.explode == Some(group) => before.push(
                (group, value_json(entries[i].1, group, w.maps)),
            ),
            _ => if occurs(entries, group, entries.len() as int) {
                before.push((group, named_json(entries, group, group, w.maps)))
            } else {
                before
            },
        }
    }
}

/// A record as an object; times are in microseconds.
pub open spec fn record_json(w: NdjsonModel, msg: MessageModel, exploded: Option<int>) -> Json {
    Json::Object(
        seq![
            ("kind"@, Json::Text("tls_record"@)),
            ("tstamp"@, Json::Number(msg.timestamp / 1000)),
        ] + ip_json(w.ip, msg.src_ip, msg.dst_ip) + tcp_json(w.tcp, msg.src_port, msg.dst_port)
            + tls_json(w.tls, msg.tls_app_data) + groups_json(
            w,
            msg.fields.entries,
            exploded,
            w.groups.len() as int,
        ),
    )
}

/// A packet as an object.
pub open spec fn packet_json(w: NdjsonModel, evt: PacketEvent) -> Json {
    Json::Object(
        seq![
            ("kind"@, Json::Text("packet"@)),
            ("tstamp"@, Json::Number(evt.timestamp@ / 1000)),
        ] + ip_json(w.ip, evt.src_ip, evt.dst_ip) + packet_tcp_json(w.tcp, evt),
    )
}

/// Reading a member that is an object of one member.
proof fn lemma_object_of_one(
    key: Seq<char>,
    k1: Seq<char>,
    a: Seq<char>,
    va: Json,
    tail: Seq<char>,
    before: Members,
)
    requires
        read_value(a + (seq!['}'] + tail)) == Some((va, seq!['}'] + tail)),
    ensures
        after_member(
            seq![','] + json_string(key) + seq![':', '{'] + json_string(k1) + seq![':'] + a
                + seq!['}'] + tail,
            before,
        ) == after_member(tail, before.push((key, Json::Object(seq![(k1, va)])))),
{
    let none: Members = Seq::empty();
    let one: Members = none.push((k1, va));
    let t1 = seq!['}'] + tail;
    lemma_closed(tail, one);
    lemma_member(k1, a, va, t1, none);
    let inner = json_string(k1) + seq![':'] + a + t1;
    lemma_opened(inner);
    let object = seq!['{'] + json_string(k1) + seq![':'] + a + seq!['}'];
    assert(object + tail =~= seq!['{'] + inner);
    lemma_member(key, object, Json::Object(one), tail, before);
    assert(seq![','] + json_string(key) + seq![':', '{'] + json_string(k1) + seq![':'] + a
        + seq!['}'] + tail =~= seq![','] + json_string(key) + seq![':'] + object + tail);
    assert(one =~= seq![(k1, va)]);
}

/// Reading a member that is an object of two members.
proof fn lemma_object_of_two(
    key: Seq<char>,
    k1: Seq<char>,
    a: Seq<char>,
    va: Json,
    k2: Seq<char>,
    b: Seq<char>,
    vb: Json,
    tail: Seq<char>,
    before: Members,
)
    requires
        read_value(a + (seq![','] + json_string(k2) + seq![':'] + b + (seq!['}'] + tail))) == Some(
            (va, seq![','] + json_string(k2) + seq![':'] + b + (seq!['}'] + tail)),
        ),
        read_value(b + (seq!['}'] + tail)) == Some((vb, seq!['}'] + tail)),
    ensures
        after_member(
            seq![','] + json_string(key) + seq![':', '{'] + json_string(k1) + seq![':'] + a
                + seq![','] + json_string(k2) + seq![':'] + b + seq!['}'] + tail,
            before,
        ) == after_member(tail, before.push((key, Json::Object(seq![(k1, va), (k2, vb)])))),
{
    let none: Members = Seq::empty();
    let one: Members = none.push((k1, va));
    let two = one.push((k2, vb));
    let t2 = seq!['}'] + tail;
    let t1 = seq![','] + json_string(k2) + seq![':'] + b + t2;
    lemma_closed(tail, two);
    lemma_member(k2, b, vb, t2, one);
    lemma_member(k1, a, va, t1, none);
    let inner = json_string(k1) + seq![':'] + a + t1;
    lemma_opened(inner);
    let object = seq!['{'] + json_string(k1) + seq![':'] + a + seq![','] + json_string(k2)
        + seq![':'] + b + seq!['}'];
    assert(object + tail =~= seq!['{'] + inner);
    lemma_member(key, object, Json::Object(two), tail, before);
    assert(seq![','] + json_string(key) + seq![':', '{'] + json_string(k1) + seq![':'] + a
        + seq![','] + json_string(k2) + seq![':'] + b + seq!['}'] + tail =~= seq![',']
        + json_string(key) + seq![':'] + object + tail);
    assert(two =~= seq![(k1, va), (k2, vb)]);
}

proof fn lemma_ip_reads(selected: bool, src: IpAddr, dst: IpAddr, tail: Seq<char>, before: Members)
    requires
        ends_value(tail),
    ensures
        ends_value(ip_part(selected, src, dst) + tail),
        after_member(ip_part(selected, src, dst) + tail, before) == after_member(
            tail,
            before + ip_json(selected, src, dst),
        ),
{
    let text = ip_part(selected, src, dst);
    if selected {
        lemma_ip_pieces();
        lemma_ends();
        let a = json_string(ip_text(src));
        let b = json_string(ip_text(dst));
        let t2 = seq!['}'] + tail;
        let t1 = seq![','] + json_string("dst"@) + seq![':'] + b + t2;
        law_written_string_reads_back(ip_text(dst), t2);
        law_written_string_reads_back(ip_text(src), t1);
        lemma_object_of_two(
            "ip"@,
            "src"@,
            a,
            Json::Text(ip_text(src)),
            "dst"@,
            b,
            Json::Text(ip_text(dst)),
            tail,
            before,
        );
        assert(text + tail =~= seq![','] + json_string("ip"@) + seq![':', '{'] + json_string("src"@)
            + seq![':'] + a + seq![','] + json_string("dst"@) + seq![':'] + b + seq!['}'] + tail);
        assert(before.push(ip_json(selected, src, dst)[0]) =~= before + ip_json(
            selected,
            src,
            dst,
        ));
    } else {
        assert(text + tail =~= tail);
        assert(before + ip_json(selected, src, dst) =~= before);
    }
}

proof fn lemma_tcp_reads(
    selected: bool,
    src_port: u16,
    dst_port: u16,
    tail: Seq<char>,
    before: Members,
)
    requires
        ends_value(tail),
    ensures
        ends_value(tcp_part(selected, src_port, dst_port) + tail),
        after_member(tcp_part(selected, src_port, dst_port) + tail, before) == after_member(
            tail,
            before + tcp_json(selected, src_port, dst_port),
        ),
{
    let text = tcp_part(selected, src_port, dst_port);
    if selected {
        lemma_tcp_pieces();
        lemma_ends();
        let a = dec(src_port as nat);
        let b = dec(dst_port as nat);
        let t2 = seq!['}'] + tail;
        let t1 = seq![','] + json_string("dstport"@) + seq![':'] + b + t2;
        assert(t1[0] == ',');
        law_written_number_reads_back(dst_port as nat, t2);
        law_written_number_reads_back(src_port as nat, t1);
        lemma_object_of_two(
            "tcp"@,
            "srcport"@,
            a,
            Json::Number(src_port as nat),
            "dstport"@,
            b,
            Json::Number(dst_port as nat),
            tail,
            before,
        );
        assert(text + tail =~= seq![','] + json_string("tcp"@) + seq![':', '{'] + json_string(
            "srcport"@,
        ) + seq![':'] + a + seq![','] + json_string("dstport"@) + seq![':'] + b + seq!['}'] + tail);
        assert(before.push(tcp_json(selected, src_port, dst_port)[0]) =~= before + tcp_json(
            selected,
            src_port,
            dst_port,
        ));
    } else {
        assert(text + tail =~= tail);
        assert(before + tcp_json(selected, src_port, dst_port) =~= before);
    }
}

proof fn lemma_tls_reads(selected: bool, app_data: Seq<u8>, tail: Seq<char>, before: Members)
    requires
        ends_value(tail),
    ensures
        ends_value(tls_part(selected, app_data) + tail),
        after_member(tls_part(selected, app_data) + tail, before) == after_member(
            tail,
            before + tls_json(selected, app_data),
        ),
{
    let text = tls_part(selected, app_data);
    if selected {
        lemma_tls_piece();
        lemma_ends();
        let a = json_string(hex_of(app_data));
        law_written_string_reads_back(hex_of(app_data), seq!['}'] + tail);
        lemma_object_of_one(
            "tls"@,
            "app_data"@,
            a,
            Json::Text(hex_of(app_data)),
            tail,
            before,
        );
        assert(text + tail =~= seq![','] + json_string("tls"@) + seq![':', '{'] + json_string(
            "app_data"@,
        ) + seq![':'] + a + seq!['}'] + tail);
        assert(before.push(tls_json(selected, app_data)[0]) =~= before + tls_json(
            selected,
            app_data,
        ));
    } else {
        assert(text + tail =~= tail);
        assert(before + tls_json(selected, app_data) =~= before);
    }
}

proof fn lemma_groups_read(
    w: NdjsonModel,
    entries: Entries,
    exploded: Option<int>,
    n: int,
    tail: Seq<char>,
    before: Members,
)
    requires
        0 <= n <= w.groups.len(),
        ends_value(tail),
    ensures
        after_member(w.group_parts(entries, exploded, n) + tail, before) == after_member(
            tail,
            before + groups_json(w, entries, exploded, n),
        ),
    decreases n,
{
    if n == 0 {
        assert(w.group_parts(entries, exploded, n) + tail =~= tail);
        assert(before + groups_json(w, entries, exploded, n) =~= before);
    } else {
        let group = w.groups[n - 1];
        let part = w.group_part(entries, exploded, group);
        let earlier = w.group_parts(entries, exploded, n - 1);
        let read = before + groups_json(w, entries, exploded, n - 1);
        lemma_occurs(entries, group, entries.len() as int, group, w.maps);
        assert(w.group_parts(entries, exploded, n) + tail =~= earlier + (part + tail));
        if exploded is Some && w.explode == Some(group) {
            let v = entries[exploded->0].1;
            let item = value_text(v, group, w.maps);
            law_value_reads_back(v, group, w.maps, tail);
            lemma_member(group, item, value_json(v, group, w.maps), tail, read);
            lemma_groups_read(w, entries, exploded, n - 1, part + tail, before);
            assert(read.push((group, value_json(v, group, w.maps))) =~= before + groups_json(
                w,
                entries,
                exploded,
                n,
            ));
        } else if occurs(entries, group, entries.len() as int) {
            let item = named_text(entries, group, group, w.maps);
            let value = named_json(entries, group, group, w.maps);
            law_named_values_read_back(entries, group, group, w.maps, tail);
            lemma_member(group, item, value, tail, read);
            lemma_groups_read(w, entries, exploded, n - 1, part + tail, before);
            assert(read.push((group, value)) =~= before + groups_json(w, entries, exploded, n));
        } else {
            assert(part + tail =~= tail);
            lemma_groups_read(w, entries, exploded, n - 1, tail, before);
        }
    }
}

/// What every line begins with: its kind and its time.
proof fn lemma_head_reads(kind: Seq<char>, time: nat, tail: Seq<char>)
    requires
        ends_value(tail),
    ensures
        read_value(
            seq!['{'] + member("kind"@, json_string(kind)) + seq![','] + json_string("tstamp"@)
                + seq![':'] + dec(time) + tail,
        ) == after_member(
            tail,
            seq![("kind"@, Json::Text(kind)), ("tstamp"@, Json::Number(time))],
        ),
{
    let none: Members = Seq::empty();
    let one: Members = none.push(("kind"@, Json::Text(kind)));
    let two = one.push(("tstamp"@, Json::Number(time)));
    let t1 = seq![','] + json_string("tstamp"@) + seq![':'] + dec(time) + tail;
    law_written_number_reads_back(time, tail);
    lemma_member("tstamp"@, dec(time), Json::Number(time), tail, one);
    law_written_string_reads_back(kind, t1);
    lemma_member("kind"@, json_string(kind), Json::Text(kind), t1, none);
    let inner = json_string("kind"@) + seq![':'] + json_string(kind) + t1;
    lemma_opened(inner);
    assert(seq!['{'] + member("kind"@, json_string(kind)) + seq![','] + json_string("tstamp"@)
        + seq![':'] + dec(time) + tail =~= seq!['{'] + inner);
    assert(two =~= seq![("kind"@, Json::Text(kind)), ("tstamp"@, Json::Number(time))]);
}

/// A record's line is one JSON object and a line feed, and the object holds the record: its kind,
/// its time, its addresses, ports and plaintext as far as they are selected, and its groups.
pub proof fn law_record_line_reads_back(w: NdjsonModel, msg: MessageModel, exploded: Option<int>)
    ensures
        read_value(w.record_line(msg, exploded)) == Some(
            (record_json(w, msg, exploded), seq!['\n']),
        ),
{
    let n = w.groups.len() as int;
    let entries = msg.fields.entries;
    let time = msg.timestamp / 1000;
    let ip = ip_part(w.ip, msg.src_ip, msg.dst_ip);
    let tcp = tcp_part(w.tcp, msg.src_port, msg.dst_port);
    let tls = tls_part(w.tls, msg.tls_app_data);
    let groups = w.group_parts(entries, exploded, n);
    let head: Members = seq![
        ("kind"@, Json::Text("tls_record"@)),
        ("tstamp"@, Json::Number(time)),
    ];
    let m1 = head + ip_json(w.ip, msg.src_ip, msg.dst_ip);
    let m2 = m1 + tcp_json(w.tcp, msg.src_port, msg.dst_port);
    let m3 = m2 + tls_json(w.tls, msg.tls_app_data);
    let m4 = m3 + groups_json(w, entries, exploded, n);
    let t4 = seq!['}'] + seq!['\n'];
    let t3 = groups + t4;
    let t2 = tls + t3;
    let t1 = tcp + t2;
    let t0 = ip + t1;
    lemma_closed(seq!['\n'], m4);
    lemma_groups_start(w, entries, exploded, n, t4);
    lemma_groups_read(w, entries, exploded, n, t4, m3);
    lemma_tls_reads(w.tls, msg.tls_app_data, t3, m2);
    lemma_tcp_reads(w.tcp, msg.src_port, msg.dst_port, t2, m1);
    lemma_ip_reads(w.ip, msg.src_ip, msg.dst_ip, t1, head);
    lemma_head_reads("tls_record"@, time, t0);
    let start = seq!['{'] + member("kind"@, json_string("tls_record"@)) + seq![',']
        + json_string("tstamp"@) + seq![':'];
    assert(w.record_line(msg, exploded) == start + dec(time) + t0) by {
        lemma_record_head();
        lemma_ends();
        assert(seq!['}', '\n'] =~= t4);
        lemma_chained(start + dec(time), ip, tcp, tls, groups, t4);
    }
}

proof fn lemma_chained(
    a: Seq<char>,
    b: Seq<char>,
    c: Seq<char>,
    d: Seq<char>,
    e: Seq<char>,
    f: Seq<char>,
)
    ensures
        a + b + c + d + e + f == a + (b + (c + (d + (e + f)))),
{
    assert(a + b + c + d + e + f =~= a + (b + (c + (d + (e + f)))));
}

proof fn lemma_groups_start(
    w: NdjsonModel,
    entries: Entries,
    exploded: Option<int>,
    n: int,
    tail: Seq<char>,
)
    requires
        ends_value(tail),
    ensures
        ends_value(w.group_parts(entries, exploded, n) + tail),
    decreases n,
{
    let text = w.group_parts(entries, exploded, n);
    if n <= 0 || n > w.groups.len() {
        assert(text + tail =~= tail);
    } else {
        let part = w.group_part(entries, exploded, w.groups[n - 1]);
        assert(ends_value(part + tail)) by {
            if part.len() == 0 {
                assert(part + tail =~= tail);
            } else {
                assert(part[0] == ',');
            }
        }
        lemma_groups_start(w, entries, exploded, n - 1, part + tail);
        assert(text + tail =~= w.group_parts(entries, exploded, n - 1) + (part + tail));
    }
}

/// The `tcp` object of a packet and what follows it.
spec fn packet_tcp_text(evt: PacketEvent) -> Seq<char> {
    ",\"tcp\":{\"srcport\":"@ + dec(evt.src_port as nat) + ",\"dstport\":"@ + dec(
        evt.dst_port as nat,
    ) + ",\"seq\":"@ + dec(evt.seq as nat) + ",\"ack\":"@ + dec(evt.ack as nat) + ",\"flags\":["@
        + joined(texts(evt.flags@), evt.flags@.len() as int) + "],\"payload_len\":"@ + dec(
        evt.payload_len as nat,
    ) + "}"@
}

proof fn lemma_grouped(p: Seq<char>, l: Seq<char>, x: Seq<char>, t: Seq<char>)
    ensures
        p + l + x + t == p + (l + (x + t)),
{
    assert(p + l + x + t =~= p + (l + (x + t)));
}

proof fn lemma_packet_tcp_reads(evt: PacketEvent, tail: Seq<char>, before: Members)
    ensures
        ends_value(packet_tcp_text(evt) + tail),
        after_member(packet_tcp_text(evt) + tail, before) == after_member(
            tail,
            before + packet_tcp_json(true, evt),
        ),
{
    let flags = texts(evt.flags@);
    let a = dec(evt.src_port as nat);
    let b = dec(evt.dst_port as nat);
    let c = dec(evt.seq as nat);
    let d = dec(evt.ack as nat);
    let e = joined(flags, evt.flags@.len() as int);
    let f = dec(evt.payload_len as nat);
    let m0: Members = Seq::empty();
    let m1: Members = m0.push(("srcport"@, Json::Number(evt.src_port as nat)));
    let m2 = m1.push(("dstport"@, Json::Number(evt.dst_port as nat)));
    let m3 = m2.push(("seq"@, Json::Number(evt.seq as nat)));
    let m4 = m3.push(("ack"@, Json::Number(evt.ack as nat)));
    let m5 = m4.push(("flags"@, Json::List(texts_json(flags))));
    let m6 = m5.push(("payload_len"@, Json::Number(evt.payload_len as nat)));
    let k2 = seq![','] + json_string("dstport"@) + seq![':'];
    let k3 = seq![','] + json_string("seq"@) + seq![':'];
    let k4 = seq![','] + json_string("ack"@) + seq![':'];
    let k5 = seq![','] + json_string("flags"@) + seq![':'];
    let k6 = seq![','] + json_string("payload_len"@) + seq![':'];
    let t6 = seq!['}'] + tail;
    let t5 = k6 + (f + t6);
    let list = seq!['['] + e + seq![']'] + t5;
    let t4 = k5 + list;
    let t3 = k4 + (d + t4);
    let t2 = k3 + (c + t3);
    let t1 = k2 + (b + t2);
    assert(t5[0] == ',' && t4[0] == ',' && t3[0] == ',' && t2[0] == ',' && t1[0] == ',');
    lemma_closed(tail, m6);
    law_written_number_reads_back(evt.payload_len as nat, t6);
    lemma_member_at("payload_len"@, f + t6, Json::Number(evt.payload_len as nat), t6, m5);
    law_array_of_strings_reads_back(flags, t5);
    lemma_member_at("flags"@, list, Json::List(texts_json(flags)), t5, m4);
    law_written_number_reads_back(evt.ack as nat, t4);
    lemma_member_at("ack"@, d + t4, Json::Number(evt.ack as nat), t4, m3);
    law_written_number_reads_back(evt.seq as nat, t3);
    lemma_member_at("seq"@, c + t3, Json::Number(evt.seq as nat), t3, m2);
    law_written_number_reads_back(evt.dst_port as nat, t2);
    lemma_member_at("dstport"@, b + t2, Json::Number(evt.dst_port as nat), t2, m1);
    law_written_number_reads_back(evt.src_port as nat, t1);
    lemma_member_at("srcport"@, a + t1, Json::Number(evt.src_port as nat), t1, m0);
    let inner = json_string("srcport"@) + seq![':'] + (a + t1);
    lemma_opened(inner);
    let object = seq!['{'] + inner;
    lemma_member_at("tcp"@, object, Json::Object(m6), tail, before);
    lemma_packet_tcp_spelled(a, b, c, d, e, f, tail);
    assert(m6 =~= seq![
        ("srcport"@, Json::Number(evt.src_port as nat)),
        ("dstport"@, Json::Number(evt.dst_port as nat)),
        ("seq"@, Json::Number(evt.seq as nat)),
        ("ack"@, Json::Number(evt.ack as nat)),
        ("flags"@, Json::List(texts_json(flags))),
        ("payload_len"@, Json::Number(evt.payload_len as nat)),
    ]);
    assert(before.push(("tcp"@, Json::Object(m6))) =~= before + packet_tcp_json(true, evt));
}

proof fn lemma_packet_tcp_spelled(
    a: Seq<char>,
    b: Seq<char>,
    c: Seq<char>,
    d: Seq<char>,
    e: Seq<char>,
    f: Seq<char>,
    tail: Seq<char>,
)
    ensures
        ",\"tcp\":{\"srcport\":"@ + a + ",\"dstport\":"@ + b + ",\"seq\":"@ + c + ",\"ack\":"@ + d
            + ",\"flags\":["@ + e + "],\"payload_len\":"@ + f + "}"@ + tail == seq![',']
            + json_string("tcp"@) + seq![':'] + (seq!['{'] + (json_string("srcport"@) + seq![':']
            + (a + (seq![','] + json_string("dstport"@) + seq![':'] + (b + (seq![',']
            + json_string("seq"@) + seq![':'] + (c + (seq![','] + json_string("ack"@) + seq![':']
            + (d + (seq![','] + json_string("flags"@) + seq![':'] + (seq!['['] + e + seq![']'] + (
        seq![','] + json_string("payload_len"@) + seq![':'] + (f + (seq!['}'] + tail)))))))))))))),
{
    let l1 = ",\"tcp\":{\"srcport\":"@;
    let l2 = ",\"dstport\":"@;
    let l3 = ",\"seq\":"@;
    let l4 = ",\"ack\":"@;
    let l5 = ",\"flags\":["@;
    let l6 = "],\"payload_len\":"@;
    let p2 = l1 + a;
    let p3 = p2 + l2 + b;
    let p4 = p3 + l3 + c;
    let p5 = p4 + l4 + d;
    let p6 = p5 + l5 + e;
    let t6 = "}"@ + tail;
    let t5 = l6 + (f + t6);
    let t4 = l5 + (e + t5);
    let t3 = l4 + (d + t4);
    let t2 = l3 + (c + t3);
    let t1 = l2 + (b + t2);
    assert(p6 + l6 + f + "}"@ + tail =~= p6 + l6 + f + t6);
    lemma_grouped(p6, l6, f, t6);
    lemma_grouped(p5, l5, e, t5);
    lemma_grouped(p4, l4, d, t4);
    lemma_grouped(p3, l3, c, t3);
    lemma_grouped(p2, l2, b, t2);
    assert(l1 + a + t1 =~= l1 + (a + t1));
    lemma_tcp_pieces();
    lemma_packet_pieces();
    lemma_ends();
    let k6 = seq![','] + json_string("payload_len"@) + seq![':'];
    let k5 = seq![','] + json_string("flags"@) + seq![':'];
    assert(l6 =~= seq![']'] + k6);
    assert(l5 =~= k5 + seq!['[']);
    let s6 = f + t6;
    lemma_list_spelled(k5, e, k6, s6);
    let s1 = a + t1;
    lemma_object_spelled(json_string("tcp"@), json_string("srcport"@), s1);
}

proof fn lemma_list_spelled(k5: Seq<char>, e: Seq<char>, k6: Seq<char>, t: Seq<char>)
    ensures
        k5 + seq!['['] + (e + (seq![']'] + k6 + t)) == k5 + (seq!['['] + e + seq![']'] + (k6 + t)),
{
    assert(k5 + seq!['['] + (e + (seq![']'] + k6 + t)) =~= k5 + (seq!['['] + e + seq![']'] + (k6
        + t)));
}

proof fn lemma_object_spelled(k: Seq<char>, k1: Seq<char>, t: Seq<char>)
    ensures
        seq![','] + k + seq![':', '{'] + k1 + seq![':'] + t == seq![','] + k + seq![':'] + (
        seq!['{'] + (k1 + seq![':'] + t)),
{
    assert(seq![','] + k + seq![':', '{'] + k1 + seq![':'] + t =~= seq![','] + k + seq![':'] + (
    seq!['{'] + (k1 + seq![':'] + t)));
}

/// A packet's line is one JSON object and a line feed, and the object holds the packet: its kind,
/// its time, and as far as they are selected its addresses, and its ports, numbers, flags and
/// payload length.
pub proof fn law_packet_line_reads_back(w: NdjsonModel, evt: PacketEvent)
    ensures
        read_value(w.packet_line(evt)) == Some((packet_json(w, evt), seq!['\n'])),
{
    let time = evt.timestamp@ / 1000;
    let ip = ip_part(w.ip, evt.src_ip, evt.dst_ip);
    let tcp = if w.tcp {
        packet_tcp_text(evt)
    } else {
        Seq::empty()
    };
    let head: Members = seq![
        ("kind"@, Json::Text("packet"@)),
        ("tstamp"@, Json::Number(time)),
    ];
    let m1 = head + ip_json(w.ip, evt.src_ip, evt.dst_ip);
    let m2 = m1 + packet_tcp_json(w.tcp, evt);
    let t2 = seq!['}'] + seq!['\n'];
    let t1 = tcp + t2;
    let t0 = ip + t1;
    lemma_closed(seq!['\n'], m2);
    if w.tcp {
        lemma_packet_tcp_reads(evt, t2, m1);
    } else {
        assert(t1 =~= t2);
        assert(m2 =~= m1);
    }
    lemma_ip_reads(w.ip, evt.src_ip, evt.dst_ip, t1, head);
    lemma_head_reads("packet"@, time, t0);
    let start = seq!['{'] + member("kind"@, json_string("packet"@)) + seq![','] + json_string(
        "tstamp"@,
    ) + seq![':'];
    assert(w.packet_line(evt) == start + dec(time) + t0) by {
        lemma_packet_head();
        lemma_ends();
        assert(seq!['}', '\n'] =~= t2);
        lemma_grouped(start + dec(time), ip, tcp, t2);
    }
}

/// The first `n` selected fields as members: those that have values, each with all of them.
pub open spec fn layers_json(fields: Seq<Seq<char>>, msg: MessageModel, n: int) -> Members
    decreases n,
{
    if n <= 0 || n > fields.len() {
        Seq::empty()
    } else {
        let before = layers_json(fields, msg, n - 1);
        let values = selected_values(fields[n - 1], msg);
        if values.len() == 0 {
            before
        } else {
            before.push((underscored(fields[n - 1]), Json::List(texts_json(values))))
        }
    }
}

proof fn lemma_layers_read(fields: Seq<Seq<char>>, msg: MessageModel, n: int, tail: Seq<char>)
    requires
        0 <= n <= fields.len(),
    ensures
        layers_text(fields, msg, n).len() == 0 <==> layers_json(fields, msg, n).len() == 0,
        layers_text(fields, msg, n).len() > 0 ==> {
            &&& layers_text(fields, msg, n)[0] == '"'
            &&& read_members(layers_text(fields, msg, n) + tail, Seq::empty()) == after_member(
                tail,
                layers_json(fields, msg, n),
            )
        },
    decreases n,
{
    if n > 0 {
        let before = layers_text(fields, msg, n - 1);
        let read = layers_json(fields, msg, n - 1);
        let values = selected_values(fields[n - 1], msg);
        if values.len() == 0 {
            lemma_layers_read(fields, msg, n - 1, tail);
        } else {
            let key = underscored(fields[n - 1]);
            let list = joined(values, values.len() as int);
            let item = seq!['['] + list + seq![']'];
            let value = Json::List(texts_json(values));
            law_array_of_strings_reads_back(values, tail);
            let more = seq![','] + json_string(key) + seq![':'] + item + tail;
            lemma_layers_read(fields, msg, n - 1, more);
            lemma_appended_member(before, read, key, item, value, tail);
            let text = layers_text(fields, msg, n);
            let piece = json_string(key) + seq![':', '['] + list + seq![']'];
            assert(piece =~= json_string(key) + seq![':'] + item);
            if before.len() == 0 {
                assert(text =~= json_string(key) + seq![':'] + item);
            } else {
                assert(text =~= before + seq![','] + json_string(key) + seq![':'] + item);
                assert(text[0] == before[0]);
            }
        }
    }
}

/// The bulk action of a message: the index of its day.
pub open spec fn action_json(index_prefix: Seq<char>, msg: MessageModel) -> Json {
    let name = index_prefix + seq!['-'] + date_of(msg.timestamp);
    Json::Object(seq![("index"@, Json::Object(seq![("_index"@, Json::Text(name))]))])
}

/// The data of a message: its time in milliseconds, as text, and its layers.
pub open spec fn data_json(fields: Seq<Seq<char>>, msg: MessageModel) -> Json {
    Json::Object(
        seq![
            ("timestamp"@, Json::Text(dec(msg.timestamp / 1000000))),
            ("layers"@, Json::Object(layers_json(fields, msg, fields.len() as int))),
        ],
    )
}

/// The data line, in pieces.
spec fn data_line(fields: Seq<Seq<char>>, msg: MessageModel) -> Seq<char> {
    let layers = seq!['{'] + layers_text(fields, msg, fields.len() as int) + seq!['}'] + (seq!['}']
        + seq!['\n']);
    seq!['{'] + (json_string("timestamp"@) + seq![':'] + (json_string(
        dec(msg.timestamp / 1000000),
    ) + (seq![','] + json_string("layers"@) + seq![':'] + layers)))
}

/// The action line and what follows it, in pieces.
spec fn action_line(name: Seq<char>, rest: Seq<char>) -> Seq<char> {
    seq!['{'] + (json_string("index"@) + seq![':'] + (seq!['{'] + (json_string("_index"@)
        + seq![':'] + (json_string(name) + (seq!['}'] + (seq!['}'] + rest))))))
}

proof fn lemma_data_line_reads(fields: Seq<Seq<char>>, msg: MessageModel)
    ensures
        read_value(data_line(fields, msg)) == Some((data_json(fields, msg), seq!['\n'])),
{
    let n = fields.len() as int;
    let end: Seq<char> = seq!['\n'];
    let t2 = seq!['}'] + end;
    let text = layers_text(fields, msg, n);
    let read = layers_json(fields, msg, n);
    let stamp = dec(msg.timestamp / 1000000);
    let m0: Members = Seq::empty();
    let m1: Members = m0.push(("timestamp"@, Json::Text(stamp)));
    let m2 = m1.push(("layers"@, Json::Object(read)));
    lemma_closed(end, m2);
    lemma_layers_read(fields, msg, n, seq!['}'] + t2);
    lemma_object(text, read, t2);
    let layers = seq!['{'] + text + seq!['}'] + t2;
    lemma_member_at("layers"@, layers, Json::Object(read), t2, m1);
    let t1 = seq![','] + json_string("layers"@) + seq![':'] + layers;
    law_written_string_reads_back(stamp, t1);
    lemma_member_at("timestamp"@, json_string(stamp) + t1, Json::Text(stamp), t1, m0);
    lemma_opened(json_string("timestamp"@) + seq![':'] + (json_string(stamp) + t1));
    assert(m2 =~= seq![("timestamp"@, Json::Text(stamp)), ("layers"@, Json::Object(read))]);
}

proof fn lemma_action_line_reads(name: Seq<char>, rest: Seq<char>)
    ensures
        read_value(action_line(name, rest)) == Some(
            (
                Json::Object(seq![("index"@, Json::Object(seq![("_index"@, Json::Text(name))]))]),
                rest,
            ),
        ),
{
    let m0: Members = Seq::empty();
    let inner: Members = m0.push(("_index"@, Json::Text(name)));
    let outer: Members = m0.push(("index"@, Json::Object(inner)));
    let t2 = seq!['}'] + rest;
    let t1 = seq!['}'] + t2;
    lemma_closed(rest, outer);
    lemma_closed(t2, inner);
    law_written_string_reads_back(name, t1);
    lemma_member_at("_index"@, json_string(name) + t1, Json::Text(name), t1, m0);
    let inside = json_string("_index"@) + seq![':'] + (json_string(name) + t1);
    lemma_opened(inside);
    lemma_member_at("index"@, seq!['{'] + inside, Json::Object(inner), t2, m0);
    lemma_opened(json_string("index"@) + seq![':'] + (seq!['{'] + inside));
    assert(inner =~= seq![("_index"@, Json::Text(name))]);
    assert(outer =~= seq![("index"@, Json::Object(seq![("_index"@, Json::Text(name))]))]);
}

proof fn lemma_plain_dec(n: nat)
    ensures
        is_plain(dec(n)),
{
    lemma_dec_digits(n);
    assert forall|i: int| 0 <= i < dec(n).len() implies (#[trigger] dec(n)[i]) != '"' && dec(n)[i]
        != '\\' && dec(n)[i] as u32 >= 0x20 by {
        assert(is_digit(dec(n)[i]));
    }
}

proof fn lemma_plain_padded(n: nat, width: nat)
    ensures
        is_plain(dec_padded(n, width)),
{
    lemma_plain_dec(n);
    let t = dec_padded(n, width);
    let pad = t.len() - dec(n).len();
    assert forall|i: int| 0 <= i < t.len() implies (#[trigger] t[i]) != '"' && t[i] != '\\' && t[i]
        as u32 >= 0x20 by {
        if i >= pad {
            assert(t[i] == dec(n)[i - pad]);
        }
    }
}

proof fn lemma_plain_date(nanos: nat)
    ensures
        is_plain(date_of(nanos)),
{
    lemma_clean_date(nanos);
    let text = date_of(nanos);
    let (y, m, d) = choose|y: nat, m: nat, d: nat|
        #![trigger is_date(y as int, m as int, d as int)]
        is_date(y as int, m as int, d as int) && days_from_civil(y as int, m as int, d as int)
            == nanos / NANOS_PER_SEC as nat / SECS_PER_DAY as nat && text == date_text(y, m, d);
    lemma_plain_padded(y, 4);
    lemma_plain_padded(m, 2);
    lemma_plain_padded(d, 2);
}

/// A message's two lines are two JSON objects, each with a line feed behind it: the action that
/// names the index of the message's day, and the data. The index prefix is taken as it is, so it
/// has to stand for itself in a string.
pub proof fn law_bulk_lines_read_back(
    fields: Seq<Seq<char>>,
    index_prefix: Seq<char>,
    msg: MessageModel,
) -> (rest: Seq<char>)
    requires
        is_plain(index_prefix),
    ensures
        read_value(ek_text(fields, index_prefix, msg)) == Some(
            (action_json(index_prefix, msg), seq!['\n'] + rest),
        ),
        read_value(rest) == Some((data_json(fields, msg), seq!['\n'])),
{
    let date = date_of(msg.timestamp);
    let name = index_prefix + seq!['-'] + date;
    let rest = data_line(fields, msg);
    let stamp = dec(msg.timestamp / 1000000);
    let layers = layers_text(fields, msg, fields.len() as int);
    lemma_plain_date(msg.timestamp);
    lemma_plain_dec(msg.timestamp / 1000000);
    assert(is_plain(name));
    lemma_plain(name);
    lemma_plain(stamp);
    lemma_data_line_reads(fields, msg);
    lemma_action_line_reads(name, seq!['\n'] + rest);
    assert(ek_text(fields, index_prefix, msg) == action_line(name, seq!['\n'] + rest)) by {
        lemma_index_piece();
        lemma_data_pieces();
        lemma_ends();
        lemma_bulk_spelled(
            json_string("index"@),
            json_string("_index"@),
            index_prefix,
            date,
            json_string("timestamp"@),
            stamp,
            json_string("layers"@),
            layers,
        );
    }
    rest
}

proof fn lemma_bulk_spelled(
    k1: Seq<char>,
    k2: Seq<char>,
    prefix: Seq<char>,
    date: Seq<char>,
    k3: Seq<char>,
    stamp: Seq<char>,
    k4: Seq<char>,
    layers: Seq<char>,
)
    ensures
        (seq!['{'] + k1 + seq![':', '{'] + k2 + seq![':', '"']) + prefix + seq!['-'] + date
            + seq!['"', '}', '}', '\n'] + (seq!['{'] + k3 + seq![':', '"']) + stamp + (seq![
            '"',
            ',',
        ] + k4 + seq![':', '{']) + layers + seq!['}', '}', '\n'] == seq!['{'] + (k1 + seq![':'] + (
        seq!['{'] + (k2 + seq![':'] + (seq!['"'] + (prefix + seq!['-'] + date) + seq!['"'] + (
        seq!['}'] + (seq!['}'] + (seq!['\n'] + (seq!['{'] + (k3 + seq![':'] + (seq!['"'] + stamp
            + seq!['"'] + (seq![','] + k4 + seq![':'] + (seq!['{'] + layers + seq!['}'] + (
        seq!['}'] + seq!['\n']))))))))))))),
{
    let l1 = seq!['{'] + k1 + seq![':', '{'] + k2 + seq![':', '"'];
    let l2 = seq!['{'] + k3 + seq![':', '"'];
    let l3 = seq!['"', ','] + k4 + seq![':', '{'];
    let e1: Seq<char> = seq!['"', '}', '}', '\n'];
    let e2: Seq<char> = seq!['}', '}', '\n'];
    let inner = seq!['{'] + layers + seq!['}'] + (seq!['}'] + seq!['\n']);
    assert(inner =~= seq!['{'] + layers + e2);
    let data = seq!['{'] + (k3 + seq![':'] + (seq!['"'] + stamp + seq!['"'] + (seq![','] + k4
        + seq![':'] + inner)));
    assert(data =~= l2 + stamp + l3 + layers + e2);
    let name = prefix + seq!['-'] + date;
    let action = seq!['{'] + (k1 + seq![':'] + (seq!['{'] + (k2 + seq![':'] + (seq!['"'] + name
        + seq!['"'] + (seq!['}'] + (seq!['}'] + (seq!['\n'] + data)))))));
    assert(action =~= l1 + name + e1 + data);
    let p = l1 + prefix + seq!['-'] + date + e1;
    assert(p =~= l1 + name + e1);
    assert(p + l2 + stamp + l3 + layers + e2 =~= p + (l2 + stamp + l3 + layers + e2));
}

/// The date that a message is filed under is written as year, month and day with hyphens between:
/// four digits (more from the year ten thousand on), two and two, which spell the numbers.
pub proof fn law_date_spells_the_day(nanos: nat, y: nat, m: nat, d: nat) -> (parts: (
    Seq<char>,
    Seq<char>,
    Seq<char>,
))
    requires
        is_date(y as int, m as int, d as int),
        days_from_civil(y as int, m as int, d as int) == nanos / 86400000000000,
    ensures
        date_of(nanos) == parts.0 + seq!['-'] + parts.1 + seq!['-'] + parts.2,
        digits_value(parts.0) == y,
        digits_value(parts.1) == m,
        digits_value(parts.2) == d,
        y < 10000 ==> parts.0.len() == 4,
        parts.1.len() == 2,
        parts.2.len() == 2,
{
    assert(nanos / 86400000000000 == nanos / 1000000000 / 86400) by (nonlinear_arith);
    assert(is_index_date(date_text(y, m, d), nanos));
    lemma_date_is_unique(date_text(y, m, d), nanos);
    law_padded_number_reads_back(y, 4);
    law_padded_number_reads_back(m, 2);
    law_padded_number_reads_back(d, 2);
    (dec_padded(y, 4), dec_padded(m, 2), dec_padded(d, 2))
}

/// A number with leading zeros is made of digits alone, spells the number, and has the width asked
/// for where the number fits it.
pub proof fn law_padded_number_reads_back(n: nat, width: nat)
    ensures
        forall|i: int|
            0 <= i < dec_padded(n, width).len() ==> is_digit(#[trigger] dec_padded(n, width)[i]),
        digits_value(dec_padded(n, width)) == n,
        dec_padded(n, width).len() >= width,
        width == 2 && n < 100 ==> dec_padded(n, width).len() == 2,
        width == 4 && n < 10000 ==> dec_padded(n, width).len() == 4,
{
    lemma_dec_digits(n);
    let t = dec_padded(n, width);
    let pad = (t.len() - dec(n).len()) as nat;
    let zeros = Seq::new(pad, |i: int| '0');
    assert(t =~= zeros + dec(n));
    lemma_leading_zeros(dec(n), pad);
    reveal_with_fuel(dec, 5);
    assert forall|i: int| 0 <= i < t.len() implies is_digit(#[trigger] t[i]) by {
        if i >= pad {
            assert(t[i] == dec(n)[i - pad]);
        }
    }
}

proof fn lemma_leading_zeros(t: Seq<char>, pad: nat)
    ensures
        digits_value(Seq::new(pad, |i: int| '0') + t) == digits_value(t),
    decreases t.len() + pad,
{
    let zeros = Seq::new(pad, |i: int| '0');
    let all = zeros + t;
    if t.len() > 0 {
        lemma_leading_zeros(t.drop_last(), pad);
        assert(all.drop_last() =~= zeros + t.drop_last());
        assert(all.last() == t.last());
    } else if pad > 0 {
        lemma_leading_zeros(t, (pad - 1) as nat);
        assert(all.drop_last() =~= Seq::new((pad - 1) as nat, |i: int| '0') + t);
        assert(all.last() == '0');
    } else {
        assert(all =~= t);
    }
}

/// The layers hold the selected fields that have values and no others, in the order of the
/// selection, each with all its values.
pub proof fn law_layers_hold_what_has_values(fields: Seq<Seq<char>>, msg: MessageModel)
    ensures
        layers_json(fields, msg, fields.len() as int) == fields.filter(
            |f: Seq<char>| selected_values(f, msg).len() > 0,
        ).map_values(
            |f: Seq<char>| (underscored(f), Json::List(texts_json(selected_values(f, msg)))),
        ),
{
    lemma_layers_filter(fields, msg, fields.len() as int);
    assert(fields.take(fields.len() as int) =~= fields);
}

proof fn lemma_layers_filter(fields: Seq<Seq<char>>, msg: MessageModel, n: int)
    requires
        0 <= n <= fields.len(),
    ensures
        layers_json(fields, msg, n) == fields.take(n).filter(
            |f: Seq<char>| selected_values(f, msg).len() > 0,
        ).map_values(
            |f: Seq<char>| (underscored(f), Json::List(texts_json(selected_values(f, msg)))),
        ),
    decreases n,
{
    reveal(Seq::filter);
    let all = fields.take(n);
    let kept = |f: Seq<char>| selected_values(f, msg).len() > 0;
    let read = |f: Seq<char>| (underscored(f), Json::List(texts_json(selected_values(f, msg))));
    if n > 0 {
        lemma_layers_filter(fields, msg, n - 1);
        assert(all.drop_last() =~= fields.take(n - 1));
        assert(all.last() == fields[n - 1]);
        let before = fields.take(n - 1).filter(kept);
        assert(before.push(fields[n - 1]).map_values(read) =~= before.map_values(read).push(
            read(fields[n - 1]),
        ));
    }
    assert(layers_json(fields, msg, n) =~= all.filter(kept).map_values(read));
}

/// A record's line that is about no single occurrence holds every group that occurs and no other,
/// in the order of the groups, each with all its occurrences.
pub proof fn law_line_holds_the_groups_that_occur(w: NdjsonModel, entries: Entries)
    ensures
        groups_json(w, entries, None, w.groups.len() as int) == w.groups.filter(
            |g: Seq<char>| occurs(entries, g, entries.len() as int),
        ).map_values(|g: Seq<char>| (g, named_json(entries, g, g, w.maps))),
{
    lemma_groups_filter(w, entries, w.groups.len() as int);
    assert(w.groups.take(w.groups.len() as int) =~= w.groups);
}

proof fn lemma_groups_filter(w: NdjsonModel, entries: Entries, n: int)
    requires
        0 <= n <= w.groups.len(),
    ensures
        groups_json(w, entries, None, n) == w.groups.take(n).filter(
            |g: Seq<char>| occurs(entries, g, entries.len() as int),
        ).map_values(|g: Seq<char>| (g, named_json(entries, g, g, w.maps))),
    decreases n,
{
    reveal(Seq::filter);
    let all = w.groups.take(n);
    let kept = |g: Seq<char>| occurs(entries, g, entries.len() as int);
    let read = |g: Seq<char>| (g, named_json(entries, g, g, w.maps));
    if n > 0 {
        lemma_groups_filter(w, entries, n - 1);
        assert(all.drop_last() =~= w.groups.take(n - 1));
        assert(all.last() == w.groups[n - 1]);
        let before = w.groups.take(n - 1).filter(kept);
        assert(before.push(w.groups[n - 1]).map_values(read) =~= before.map_values(read).push(
            read(w.groups[n - 1]),
        ));
    }
    assert(groups_json(w, entries, None, n) =~= all.filter(kept).map_values(read));
}

/// A record's line that is about the occurrence `i` of the group to explode holds, beside the
/// other groups that occur, that group with this occurrence alone.
pub proof fn law_exploded_line_holds_one_occurrence(w: NdjsonModel, entries: Entries, i: int)
    requires
        w.explode is Some,
        0 <= i < entries.len(),
        entries[i].0 == w.explode->0,
    ensures
        groups_json(w, entries, Some(i), w.groups.len() as int) == w.groups.filter(
            |g: Seq<char>| occurs(entries, g, entries.len() as int),
        ).map_values(
            |g: Seq<char>|
                (
                    g,
                    if g == entries[i].0 {
                        value_json(entries[i].1, g, w.maps)
                    } else {
                        named_json(entries, g, g, w.maps)
                    },
                ),
        ),
{
    lemma_exploded_filter(w, entries, i, w.groups.len() as int);
    assert(w.groups.take(w.groups.len() as int) =~= w.groups);
}

proof fn lemma_exploded_filter(w: NdjsonModel, entries: Entries, i: int, n: int)
    requires
        w.explode is Some,
        0 <= i < entries.len(),
        entries[i].0 == w.explode->0,
        0 <= n <= w.groups.len(),
    ensures
        groups_json(w, entries, Some(i), n) == w.groups.take(n).filter(
            |g: Seq<char>| occurs(entries, g, entries.len() as int),
        ).map_values(
            |g: Seq<char>|
                (
                    g,
                    if g == entries[i].0 {
                        value_json(entries[i].1, g, w.maps)
                    } else {
                        named_json(entries, g, g, w.maps)
                    },
                ),
        ),
    decreases n,
{
    reveal(Seq::filter);
    let all = w.groups.take(n);
    let kept = |g: Seq<char>| occurs(entries, g, entries.len() as int);
    let read = |g: Seq<char>|
        (
            g,
            if g == entries[i].0 {
                value_json(entries[i].1, g, w.maps)
            } else {
                named_json(entries, g, g, w.maps)
            },
        );
    if n > 0 {
        lemma_exploded_filter(w, entries, i, n - 1);
        assert(occurs(entries, entries[i].0, entries.len() as int));
        assert(all.drop_last() =~= w.groups.take(n - 1));
        assert(all.last() == w.groups[n - 1]);
        let before = w.groups.take(n - 1).filter(kept);
        assert(before.push(w.groups[n - 1]).map_values(read) =~= before.map_values(read).push(
            read(w.groups[n - 1]),
        ));
    }
    assert(groups_json(w, entries, Some(i), n) =~= all.filter(kept).map_values(read));
}

/// The fields that every message has are single values: its addresses, its ports in decimal and
/// its plaintext in hexadecimal digits.
pub proof fn law_every_message_has_its_endpoints(msg: MessageModel)
    ensures
        selected_values("ip.src"@, msg) == seq![ip_text(msg.src_ip)],
        selected_values("ip.dst"@, msg) == seq![ip_text(msg.dst_ip)],
        selected_values("tcp.srcport"@, msg) == seq![dec(msg.src_port as nat)],
        selected_values("tcp.dstport"@, msg) == seq![dec(msg.dst_port as nat)],
        selected_values("tls.app_data"@, msg) == seq![hex_of(msg.tls_app_data)],
{
    reveal_strlit("ip.src");
    reveal_strlit("ip.dst");
    reveal_strlit("tcp.srcport");
    reveal_strlit("tcp.dstport");
    reveal_strlit("tls.app_data");
    assert("ip.src"@[3] == 's' && "ip.dst"@[3] == 'd');
    assert("ip.src"@.len() == 6 && "ip.dst"@.len() == 6);
    assert("tcp.srcport"@.len() == 11 && "tcp.dstport"@.len() == 11 && "tls.app_data"@.len() == 12);
    assert("tcp.srcport"@[4] == 's' && "tcp.dstport"@[4] == 'd');
}

/// Any other field has what the dissector recorded under its name.
pub proof fn law_other_fields_are_the_dissectors(field: Seq<char>, msg: MessageModel)
    requires
        field != "ip.src"@ && field != "ip.dst"@,
        field != "tcp.srcport"@ && field != "tcp.dstport"@ && field != "tls.app_data"@,
    ensures
        selected_values(field, msg) == values_named(msg.fields.entries, field).map_values(
            |v: ValueModel|
                match v {
                    ValueModel::UInt(n) => dec(n as nat),
                    ValueModel::Str(s) => s,
                    ValueModel::Bytes(b) => hex_of(b),
                    ValueModel::Tree(_) => Seq::empty(),
                },
        ),
{
    assert(selected_values(field, msg) =~= values_named(msg.fields.entries, field).map_values(
        |v: ValueModel|
            match v {
                ValueModel::UInt(n) => dec(n as nat),
                ValueModel::Str(s) => s,
                ValueModel::Bytes(b) => hex_of(b),
                ValueModel::Tree(_) => Seq::empty(),
            },
    ));
}

/// The groups of a selection: each group that a field belongs to, but for the envelope's, once and
/// in the order of first selection. `firsts` are the places where a group is selected first.
pub proof fn law_groups_follow_the_selection(fields: Seq<Seq<char>>) -> (firsts: Seq<int>)
    ensures
        forall|k: int|
            0 <= k < firsts.len() ==> 0 <= #[trigger] firsts[k] < fields.len() && (forall|j: int|
                0 <= j < firsts[k] ==> group_of(#[trigger] fields[j]) != group_of(
                    fields[firsts[k]],
                )),
        forall|k: int, l: int| 0 <= k < l < firsts.len() ==> firsts[k] < firsts[l],
        forall|i: int|
            0 <= i < fields.len() && group_of(fields[i]) != "ip"@ && group_of(fields[i]) != "tcp"@
                && group_of(fields[i]) != "tls"@ ==> #[trigger] generic_groups(
                fields,
                fields.len() as int,
            ).contains(group_of(fields[i])),
        generic_groups(fields, fields.len() as int) == Seq::new(
            firsts.len(),
            |k: int| group_of(fields[firsts[k]]),
        ),
        forall|k: int|
            0 <= k < firsts.len() ==> group_of(fields[#[trigger] firsts[k]]) != "ip"@ && group_of(
                fields[firsts[k]],
            ) != "tcp"@ && group_of(fields[firsts[k]]) != "tls"@,
{
    lemma_group_firsts(fields, fields.len() as int)
}

proof fn lemma_group_firsts(fields: Seq<Seq<char>>, n: int) -> (firsts: Seq<int>)
    requires
        0 <= n <= fields.len(),
    ensures
        forall|k: int|
            0 <= k < firsts.len() ==> 0 <= #[trigger] firsts[k] < n && (forall|j: int|
                0 <= j < firsts[k] ==> group_of(#[trigger] fields[j]) != group_of(
                    fields[firsts[k]],
                )),
        forall|k: int, l: int| 0 <= k < l < firsts.len() ==> firsts[k] < firsts[l],
        forall|i: int|
            0 <= i < n && !is_envelope(group_of(fields[i])) ==> #[trigger] generic_groups(
                fields,
                n,
            ).contains(group_of(fields[i])),
        generic_groups(fields, n) == Seq::new(firsts.len(), |k: int| group_of(fields[firsts[k]])),
        forall|k: int|
            0 <= k < firsts.len() ==> !is_envelope(group_of(fields[#[trigger] firsts[k]])),
    decreases n,
{
    if n == 0 {
        Seq::empty()
    } else {
        let before = lemma_group_firsts(fields, n - 1);
        let groups = generic_groups(fields, n - 1);
        let group = group_of(fields[n - 1]);
        if is_envelope(group) || groups.contains(group) {
            before
        } else {
            let firsts = before.push(n - 1);
            assert(groups.push(group) =~= Seq::new(
                firsts.len(),
                |k: int| group_of(fields[firsts[k]]),
            ));
            assert forall|i: int| 0 <= i < n && !is_envelope(group_of(fields[i])) implies (
            #[trigger] generic_groups(fields, n).contains(group_of(fields[i]))) by {
                if i == n - 1 {
                    assert(groups.push(group)[groups.len() as int] == group);
                } else {
                    let g = group_of(fields[i]);
                    assert(groups.contains(g));
                    let k = choose|k: int| 0 <= k < groups.len() && groups[k] == g;
                    assert(groups.push(group)[k] == g);
                }
            }
            assert forall|j: int| 0 <= j < n - 1 implies group_of(#[trigger] fields[j])
                != group by {
                if group_of(fields[j]) == group {
                    assert(groups.contains(group_of(fields[j])));
                }
            }
            firsts
        }
    }
}

/// A field is recognised if the message has values for it or its name is known, and then its values
/// are what it has.
pub proof fn law_known_fields_are_recognised(
    field: Seq<char>,
    known: Set<Seq<char>>,
    msg: MessageModel,
)
    ensures
        selected_values(field, msg).len() > 0 ==> recognised_values(field, known, msg) == Some(
            selected_values(field, msg),
        ),
        selected_values(field, msg).len() == 0 && known.contains(field) ==> recognised_values(
            field,
            known,
            msg,
        ) == Some(Seq::<Seq<char>>::empty()),
        selected_values(field, msg).len() == 0 && !known.contains(field) ==> recognised_values(
            field,
            known,
            msg,
        ) is None,
{
    if selected_values(field, msg).len() == 0 {
        assert(selected_values(field, msg) =~= Seq::empty());
    }
}

/// Where a group is to be exploded and occurs, a record has one line for each occurrence, in order,
/// and each is about its own: `places` are where the occurrences stand. Where it does not occur, or
/// none is to be exploded, there is one line, about all.
pub proof fn law_each_line_is_about_its_occurrence(w: NdjsonModel, msg: MessageModel) -> (places:
    Seq<int>)
    ensures
        w.explode is None ==> w.record_lines(msg) == seq![w.record_line(msg, None)],
        w.explode is Some && !occurs(
            msg.fields.entries,
            w.explode->0,
            msg.fields.entries.len() as int,
        ) ==> w.record_lines(msg) == seq![w.record_line(msg, None)],
        w.explode is Some ==> {
            let entries = msg.fields.entries;
            &&& forall|k: int|
                0 <= k < places.len() ==> 0 <= #[trigger] places[k] < entries.len()
                    && entries[places[k]].0 == w.explode->0
            &&& forall|k: int, l: int| 0 <= k < l < places.len() ==> places[k] < places[l]
            &&& forall|i: int|
                0 <= i < entries.len() && (#[trigger] entries[i]).0 == w.explode->0
                    ==> places.contains(i)
            &&& places.len() > 0 ==> w.record_lines(msg) == Seq::new(
                places.len(),
                |k: int| w.record_line(msg, Some(places[k])),
            )
        },
{
    let entries = msg.fields.entries;
    match w.explode {
        Some(name) => {
            lemma_occurs(entries, name, entries.len() as int, name, w.maps);
            let places = lemma_places(w, msg, name, entries.len() as int);
            if places.len() > 0 {
                assert(entries[places[0]].0 == name);
                assert(occurs(entries, name, entries.len() as int));
            }
            places
        },
        None => Seq::empty(),
    }
}

proof fn lemma_places(w: NdjsonModel, msg: MessageModel, name: Seq<char>, n: int) -> (places: Seq<
    int,
>)
    requires
        0 <= n <= msg.fields.entries.len(),
    ensures
        forall|k: int|
            0 <= k < places.len() ==> 0 <= #[trigger] places[k] < n
                && msg.fields.entries[places[k]].0 == name,
        forall|k: int, l: int| 0 <= k < l < places.len() ==> places[k] < places[l],
        forall|i: int|
            0 <= i < n && (#[trigger] msg.fields.entries[i]).0 == name ==> places.contains(i),
        w.exploded_lines(msg, name, n) == Seq::new(
            places.len(),
            |k: int| w.record_line(msg, Some(places[k])),
        ),
    decreases n,
{
    let entries = msg.fields.entries;
    if n == 0 {
        Seq::empty()
    } else {
        let before = lemma_places(w, msg, name, n - 1);
        if entries[n - 1].0 == name {
            let places = before.push(n - 1);
            assert forall|i: int|
                0 <= i < n && (#[trigger] entries[i]).0 == name implies places.contains(i) by {
                if i == n - 1 {
                    assert(places[places.len() - 1] == i);
                } else {
                    let k = choose|k: int| 0 <= k < before.len() && before[k] == i;
                    assert(places[k] == i);
                }
            }
            assert(w.exploded_lines(msg, name, n) =~= Seq::new(
                places.len(),
                |k: int| w.record_line(msg, Some(places[k])),
            ));
            places
        } else {
            before
        }
    }
}

/// Lines are written one after the other, with nothing between them.
pub proof fn law_lines_follow_each_other(a: Seq<Seq<char>>, line: Seq<char>)
    ensures
        concat(Seq::empty()) == Seq::<char>::empty(),
        concat(a.push(line)) == concat(a) + line,
{
    assert(a.push(line).drop_last() =~= a);
}

} // verus!
