//! Reading JSON (RFC 8259), and what the lines written here read as: whatever is written, a reader
//! that knows nothing of how gets back the values that were put in.

use vstd::prelude::*;
use crate::ek_output::json::{escape, escape_char, json_string};
use crate::text::{dec, digit};

verus! {

/// A JSON value, of the kinds that are written here.
pub enum Json {
    Number(nat),
    Text(Seq<char>),
    List(Seq<Json>),
    Object(Seq<(Seq<char>, Json)>),
}

pub open spec fn is_digit(c: char) -> bool {
    '0' <= c <= '9'
}

/// The value of a hexadecimal digit of either case.
pub open spec fn hex_digit(c: char) -> Option<nat> {
    if '0' <= c <= '9' {
        Some((c as nat - '0' as nat) as nat)
    } else if 'a' <= c <= 'f' {
        Some((c as nat - 'a' as nat + 10) as nat)
    } else if 'A' <= c <= 'F' {
        Some((c as nat - 'A' as nat + 10) as nat)
    } else {
        None
    }
}

/// The character that stands behind a backslash, but for `u`.
pub open spec fn escaped_as(c: char) -> Option<char> {
    if c == '"' || c == '\\' || c == '/' {
        Some(c)
    } else if c == 'n' {
        Some('\n')
    } else if c == 'r' {
        Some('\r')
    } else if c == 't' {
        Some('\t')
    } else if c == 'b' {
        Some('\x08')
    } else if c == 'f' {
        Some('\x0c')
    } else {
        None
    }
}

/// The character with the code that four hexadecimal digits spell.
pub open spec fn coded(a: char, b: char, c: char, d: char) -> Option<char> {
    match (hex_digit(a), hex_digit(b), hex_digit(c), hex_digit(d)) {
        (Some(a), Some(b), Some(c), Some(d)) => {
            let n = a * 4096 + b * 256 + c * 16 + d;
            if 0xd800 <= n <= 0xdfff {
                None
            } else {
                Some(n as char)
            }
        },
        _ => None,
    }
}

/// The first character of a string's inside, and how many characters spell it.
pub open spec fn read_char(t: Seq<char>) -> Option<(char, int)> {
    if t.len() == 0 || (t[0] as u32) < 0x20 || t[0] == '"' {
        None
    } else if t[0] != '\\' {
        Some((t[0], 1))
    } else if t.len() >= 6 && t[1] == 'u' {
        match coded(t[2], t[3], t[4], t[5]) {
            Some(c) => Some((c, 6)),
            None => None,
        }
    } else if t.len() >= 2 {
        match escaped_as(t[1]) {
            Some(c) => Some((c, 2)),
            None => None,
        }
    } else {
        None
    }
}

/// The rest of a string, from behind its opening quote, and what follows it.
pub open spec fn read_string(t: Seq<char>) -> Option<(Seq<char>, Seq<char>)>
    decreases t.len(),
{
    if t.len() > 0 && t[0] == '"' {
        Some((Seq::empty(), t.skip(1)))
    } else {
        match read_char(t) {
            Some((c, n)) => match read_string(t.skip(n)) {
                Some((s, rest)) => Some((seq![c] + s, rest)),
                None => None,
            },
            None => None,
        }
    }
}

/// How many digits the text begins with.
pub open spec fn digits_len(t: Seq<char>) -> int
    decreases t.len(),
{
    if t.len() > 0 && is_digit(t[0]) {
        1 + digits_len(t.skip(1))
    } else {
        0
    }
}

/// The number that decimal digits spell.
pub open spec fn digits_value(t: Seq<char>) -> nat
    decreases t.len(),
{
    if t.len() == 0 {
        0
    } else {
        digits_value(t.drop_last()) * 10 + (t.last() as nat - '0' as nat) as nat
    }
}

/// A number, which has no needless zero in front, and what follows it.
pub open spec fn read_number(t: Seq<char>) -> Option<(nat, Seq<char>)> {
    let n = digits_len(t);
    if n == 0 || (n > 1 && t[0] == '0') {
        None
    } else {
        Some((digits_value(t.take(n)), t.skip(n)))
    }
}

/// A value, and what follows it.
#[verifier::opaque]
pub open spec fn read_value(t: Seq<char>) -> Option<(Json, Seq<char>)>
    decreases t.len(), 1nat,
{
    if t.len() == 0 {
        None
    } else if t[0] == '"' {
        match read_string(t.skip(1)) {
            Some((s, rest)) => Some((Json::Text(s), rest)),
            None => None,
        }
    } else if t[0] == '[' {
        if t.len() > 1 && t[1] == ']' {
            Some((Json::List(Seq::empty()), t.skip(2)))
        } else {
            read_items(t.skip(1), Seq::empty())
        }
    } else if t[0] == '{' {
        if t.len() > 1 && t[1] == '}' {
            Some((Json::Object(Seq::empty()), t.skip(2)))
        } else {
            read_members(t.skip(1), Seq::empty())
        }
    } else {
        match read_number(t) {
            Some((n, rest)) => Some((Json::Number(n), rest)),
            None => None,
        }
    }
}

/// The rest of an array, from a value on; `before` are those that came before.
#[verifier::opaque]
pub open spec fn read_items(t: Seq<char>, before: Seq<Json>) -> Option<(Json, Seq<char>)>
    decreases t.len(), 2nat,
{
    match read_value(t) {
        Some((v, rest)) => if rest.len() < t.len() {
            after_item(rest, before.push(v))
        } else {
            None
        },
        None => None,
    }
}

/// The rest of an array, from behind a value on.
#[verifier::opaque]
pub open spec fn after_item(t: Seq<char>, before: Seq<Json>) -> Option<(Json, Seq<char>)>
    decreases t.len(), 0nat,
{
    if t.len() == 0 {
        None
    } else if t[0] == ',' {
        read_items(t.skip(1), before)
    } else if t[0] == ']' {
        Some((Json::List(before), t.skip(1)))
    } else {
        None
    }
}

/// The rest of an object, from a member on; `before` are those that came before.
#[verifier::opaque]
pub open spec fn read_members(t: Seq<char>, before: Seq<(Seq<char>, Json)>) -> Option<
    (Json, Seq<char>),
>
    decreases t.len(), 2nat,
{
    if t.len() == 0 || t[0] != '"' {
        None
    } else {
        match read_string(t.skip(1)) {
            Some((key, rest)) => if 0 < rest.len() < t.len() && rest[0] == ':' {
                match read_value(rest.skip(1)) {
                    Some((v, rest)) => if rest.len() < t.len() {
                        after_member(rest, before.push((key, v)))
                    } else {
                        None
                    },
                    None => None,
                }
            } else {
                None
            },
            None => None,
        }
    }
}

/// The rest of an object, from behind a member on.
#[verifier::opaque]
pub open spec fn after_member(t: Seq<char>, before: Seq<(Seq<char>, Json)>) -> Option<
    (Json, Seq<char>),
>
    decreases t.len(), 0nat,
{
    if t.len() == 0 {
        None
    } else if t[0] == ',' {
        read_members(t.skip(1), before)
    } else if t[0] == '}' {
        Some((Json::Object(before), t.skip(1)))
    } else {
        None
    }
}

/// A value ends where `t` begins: no digit follows.
pub open spec fn ends_value(t: Seq<char>) -> bool {
    t.len() == 0 || !is_digit(t[0])
}

//--------------------------------------------------------------------------------------------
// Strings and numbers.
//--------------------------------------------------------------------------------------------

proof fn lemma_char_reads_back(c: char, rest: Seq<char>)
    ensures
        read_char(escape_char(c) + rest) == Some((c, escape_char(c).len() as int)),
        (escape_char(c) + rest)[0] != '"',
{
    let t = escape_char(c) + rest;
    if (c as u32) < 0x20 && c != '\n' && c != '\r' && c != '\t' {
        let n = c as nat;
        let a = n / 16;
        let b = n % 16;
        assert(a < 2);
        assert(digit(a) as nat == 0x30 + a);
        assert(digit(b) as nat == if b < 10 { 0x30 + b } else { 0x57 + b });
        assert(hex_digit(digit(a)) == Some(a));
        assert(hex_digit(digit(b)) == Some(b));
        assert(t[2] == '0' && t[3] == '0' && t[4] == digit(a) && t[5] == digit(b));
        assert(hex_digit('0') == Some(0nat));
        assert(a * 16 + b == n);
    }
}

/// A string that was written reads back as the text that was put in, whatever follows it.
pub proof fn law_written_string_reads_back(s: Seq<char>, rest: Seq<char>)
    ensures
        read_value(json_string(s) + rest) == Some((Json::Text(s), rest)),
        read_string((json_string(s) + rest).skip(1)) == Some((s, rest)),
{
    reveal(read_value);
    reveal(read_items);
    reveal(after_item);
    reveal(read_members);
    reveal(after_member);
    let t = json_string(s) + rest;
    lemma_inside_reads_back(s, rest);
    assert(t.skip(1) =~= escape(s) + (seq!['"'] + rest));
}

proof fn lemma_inside_reads_back(s: Seq<char>, rest: Seq<char>)
    ensures
        read_string(escape(s) + (seq!['"'] + rest)) == Some((s, rest)),
    decreases s.len(),
{
    let t = escape(s) + (seq!['"'] + rest);
    if s.len() == 0 {
        assert(t.skip(1) =~= rest);
        assert(s =~= Seq::empty());
    } else {
        let e = escape_char(s[0]);
        let more = escape(s.drop_first()) + (seq!['"'] + rest);
        assert(t =~= e + more);
        lemma_char_reads_back(s[0], more);
        assert(t.skip(e.len() as int) =~= more);
        lemma_inside_reads_back(s.drop_first(), rest);
        assert(seq![s[0]] + s.drop_first() =~= s);
    }
}

pub(crate) proof fn lemma_dec_digits(n: nat)
    ensures
        dec(n).len() > 0,
        forall|i: int| 0 <= i < dec(n).len() ==> is_digit(#[trigger] dec(n)[i]),
        digits_value(dec(n)) == n,
        dec(n)[0] == '0' ==> n == 0 && dec(n).len() == 1,
    decreases n,
{
    let d = n % 10;
    assert(digit(d) as nat == 0x30 + d);
    if n < 10 {
        assert(dec(n).drop_last() =~= Seq::empty());
        assert(digits_value(Seq::<char>::empty()) == 0);
    } else {
        lemma_dec_digits(n / 10);
        assert(dec(n).drop_last() =~= dec(n / 10));
        assert(dec(n)[0] == dec(n / 10)[0]);
    }
}

proof fn lemma_digits_len(t: Seq<char>, rest: Seq<char>)
    requires
        forall|i: int| 0 <= i < t.len() ==> is_digit(#[trigger] t[i]),
        ends_value(rest),
    ensures
        digits_len(t + rest) == t.len(),
    decreases t.len(),
{
    if t.len() == 0 {
        assert(t + rest =~= rest);
    } else {
        let more = t.skip(1);
        assert forall|i: int| 0 <= i < more.len() implies is_digit(#[trigger] more[i]) by {
            assert(more[i] == t[i + 1]);
        }
        lemma_digits_len(more, rest);
        assert((t + rest).skip(1) =~= more + rest);
        assert((t + rest)[0] == t[0]);
    }
}

/// A number that was written reads back as itself.
pub proof fn law_written_number_reads_back(n: nat, rest: Seq<char>)
    requires
        ends_value(rest),
    ensures
        read_value(dec(n) + rest) == Some((Json::Number(n), rest)),
        digits_value(dec(n)) == n,
{
    reveal(read_value);
    reveal(read_items);
    reveal(after_item);
    reveal(read_members);
    reveal(after_member);
    let t = dec(n) + rest;
    lemma_dec_digits(n);
    lemma_digits_len(dec(n), rest);
    assert(t[0] == dec(n)[0]);
    assert(t.take(dec(n).len() as int) =~= dec(n));
    assert(t.skip(dec(n).len() as int) =~= rest);
}

//--------------------------------------------------------------------------------------------
// Members and items.
//--------------------------------------------------------------------------------------------

/// Reading a member in front of `tail`.
pub(crate) proof fn lemma_member(
    key: Seq<char>,
    text: Seq<char>,
    value: Json,
    tail: Seq<char>,
    before: Seq<(Seq<char>, Json)>,
)
    requires
        read_value(text + tail) == Some((value, tail)),
    ensures
        read_members(json_string(key) + seq![':'] + text + tail, before) == after_member(
            tail,
            before.push((key, value)),
        ),
        after_member(seq![','] + json_string(key) + seq![':'] + text + tail, before)
            == after_member(tail, before.push((key, value))),
{
    reveal(read_value);
    reveal(read_items);
    reveal(after_item);
    reveal(read_members);
    reveal(after_member);
    let t = json_string(key) + seq![':'] + text + tail;
    let behind = seq![':'] + text + tail;
    assert(t =~= json_string(key) + behind);
    law_written_string_reads_back(key, behind);
    assert(behind.skip(1) =~= text + tail);
    let with_comma = seq![','] + json_string(key) + seq![':'] + text + tail;
    assert(with_comma.skip(1) =~= t);
}

/// Reading a member whose value and what follows it are `rest`.
pub(crate) proof fn lemma_member_at(
    key: Seq<char>,
    rest: Seq<char>,
    value: Json,
    tail: Seq<char>,
    before: Seq<(Seq<char>, Json)>,
)
    requires
        read_value(rest) == Some((value, tail)),
        rest.len() >= tail.len(),
    ensures
        read_members(json_string(key) + seq![':'] + rest, before) == after_member(
            tail,
            before.push((key, value)),
        ),
        after_member(seq![','] + json_string(key) + seq![':'] + rest, before) == after_member(
            tail,
            before.push((key, value)),
        ),
{
    reveal(read_value);
    reveal(read_items);
    reveal(after_item);
    reveal(read_members);
    reveal(after_member);
    let t = json_string(key) + seq![':'] + rest;
    let behind = seq![':'] + rest;
    assert(t =~= json_string(key) + behind);
    law_written_string_reads_back(key, behind);
    assert(behind.skip(1) =~= rest);
    let with_comma = seq![','] + json_string(key) + seq![':'] + rest;
    assert(with_comma.skip(1) =~= t);
}

/// Reading a member behind those that were read before, with a comma between.
pub(crate) proof fn lemma_appended_member(
    before: Seq<char>,
    read: Seq<(Seq<char>, Json)>,
    key: Seq<char>,
    item: Seq<char>,
    value: Json,
    tail: Seq<char>,
)
    requires
        read_value(item + tail) == Some((value, tail)),
        before.len() == 0 ==> read.len() == 0,
        before.len() > 0 ==> before[0] == '"' && read_members(
            before + (seq![','] + json_string(key) + seq![':'] + item + tail),
            Seq::empty(),
        ) == after_member(seq![','] + json_string(key) + seq![':'] + item + tail, read),
    ensures
        (json_string(key) + seq![':'] + item)[0] == '"',
        before.len() == 0 ==> read_members(
            json_string(key) + seq![':'] + item + tail,
            Seq::empty(),
        ) == after_member(tail, read.push((key, value))),
        before.len() > 0 ==> read_members(
            before + seq![','] + json_string(key) + seq![':'] + item + tail,
            Seq::empty(),
        ) == after_member(tail, read.push((key, value))),
{
    lemma_member(key, item, value, tail, read);
    if before.len() == 0 {
        assert(read =~= Seq::empty());
    } else {
        assert(before + seq![','] + json_string(key) + seq![':'] + item + tail =~= before + (
        seq![','] + json_string(key) + seq![':'] + item + tail));
    }
}

/// Reading an object whose members were read.
pub(crate) proof fn lemma_object(members: Seq<char>, read: Seq<(Seq<char>, Json)>, tail: Seq<char>)
    requires
        members.len() == 0 ==> read.len() == 0,
        members.len() > 0 ==> members[0] == '"' && read_members(
            members + (seq!['}'] + tail),
            Seq::empty(),
        ) == after_member(seq!['}'] + tail, read),
    ensures
        read_value(seq!['{'] + members + seq!['}'] + tail) == Some((Json::Object(read), tail)),
{
    reveal(read_value);
    reveal(read_items);
    reveal(after_item);
    reveal(read_members);
    reveal(after_member);
    let t = seq!['{'] + members + seq!['}'] + tail;
    if members.len() == 0 {
        assert(t.skip(2) =~= tail);
        assert(read =~= Seq::empty());
    } else {
        assert(t.skip(1) =~= members + (seq!['}'] + tail));
        assert((seq!['}'] + tail).skip(1) =~= tail);
    }
}

/// Reading an object from its first member on.
pub(crate) proof fn lemma_opened(t: Seq<char>)
    requires
        t.len() > 0,
        t[0] == '"',
    ensures
        read_value(seq!['{'] + t) == read_members(t, Seq::empty()),
{
    reveal(read_value);
    reveal(read_items);
    reveal(after_item);
    reveal(read_members);
    reveal(after_member);
    assert((seq!['{'] + t).skip(1) =~= t);
}

/// Reading on behind the last member.
pub(crate) proof fn lemma_closed(tail: Seq<char>, read: Seq<(Seq<char>, Json)>)
    ensures
        after_member(seq!['}'] + tail, read) == Some((Json::Object(read), tail)),
        ends_value(seq!['}'] + tail),
{
    reveal(read_value);
    reveal(read_items);
    reveal(after_item);
    reveal(read_members);
    reveal(after_member);
    assert((seq!['}'] + tail).skip(1) =~= tail);
}

/// Reading an item in front of `tail`.
pub(crate) proof fn lemma_item(item: Seq<char>, value: Json, tail: Seq<char>, before: Seq<Json>)
    requires
        item.len() > 0,
        read_value(item + tail) == Some((value, tail)),
    ensures
        read_items(item + tail, before) == after_item(tail, before.push(value)),
        after_item(seq![','] + item + tail, before) == after_item(tail, before.push(value)),
{
    reveal(read_value);
    reveal(read_items);
    reveal(after_item);
    reveal(read_members);
    reveal(after_member);
    assert((seq![','] + item + tail).skip(1) =~= item + tail);
}

/// Reading an array whose items were read.
pub(crate) proof fn lemma_list(items: Seq<char>, read: Seq<Json>, tail: Seq<char>)
    requires
        items.len() == 0 ==> read.len() == 0,
        items.len() > 0 ==> items[0] != ']' && read_items(
            items + (seq![']'] + tail),
            Seq::empty(),
        ) == after_item(seq![']'] + tail, read),
    ensures
        read_value(seq!['['] + items + seq![']'] + tail) == Some((Json::List(read), tail)),
{
    reveal(read_value);
    reveal(read_items);
    reveal(after_item);
    reveal(read_members);
    reveal(after_member);
    let t = seq!['['] + items + seq![']'] + tail;
    if items.len() == 0 {
        assert(t.skip(2) =~= tail);
        assert(read =~= Seq::empty());
    } else {
        assert(t.skip(1) =~= items + (seq![']'] + tail));
        assert((seq![']'] + tail).skip(1) =~= tail);
    }
}

} // verus!
