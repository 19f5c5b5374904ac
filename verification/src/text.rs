//! Numbers and bytes as text.

use vstd::prelude::*;
use vstd::string::*;
use vstd::utf8::encode_utf8_decode_utf8;
use crate::bytes::bytes_equal;

verus! {

/// `String::push` appends one character.
pub assume_specification[ String::push ](s: &mut String, c: char)
    ensures
        final(s)@ == old(s)@.push(c),
;

/// Whether two texts are equal.
pub fn text_equal(a: &str, b: &str) -> (equal: bool)
    ensures
        equal == (a@ == b@),
{
    proof {
        encode_utf8_decode_utf8(a@);
        encode_utf8_decode_utf8(b@);
    }
    bytes_equal(a.as_bytes(), b.as_bytes())
}

/// The characters of a text.
pub(crate) fn chars_of(s: &str) -> (out: Vec<char>)
    ensures
        out@ == s@,
{
    let mut out: Vec<char> = Vec::new();
    let chars = s.chars();
    for c in it: chars
        invariant
            it.seq() == s@,
            out@ =~= s@.take(it.index()),
    {
        out.push(c);
    }
    assert(s@.take(s@.len() as int) =~= s@);
    out
}

/// The character of a decimal or lowercase hexadecimal digit.
pub open spec fn digit(d: nat) -> char {
    if d < 10 {
        (0x30 + d) as char
    } else {
        (0x57 + d) as char
    }
}

/// The character of the digit `d`.
pub fn digit_char(d: u8) -> (c: char)
    requires
        d < 16,
    ensures
        c == digit(d as nat),
{
    match d {
        0 => '0',
        1 => '1',
        2 => '2',
        3 => '3',
        4 => '4',
        5 => '5',
        6 => '6',
        7 => '7',
        8 => '8',
        9 => '9',
        10 => 'a',
        11 => 'b',
        12 => 'c',
        13 => 'd',
        14 => 'e',
        _ => 'f',
    }
}

/// `n` in decimal, without leading zeros.
pub open spec fn dec(n: nat) -> Seq<char>
    decreases n,
{
    if n < 10 {
        seq![digit(n)]
    } else {
        dec(n / 10).push(digit(n % 10))
    }
}

/// `n` in decimal, with leading zeros up to `width` digits.
pub open spec fn dec_padded(n: nat, width: nat) -> Seq<char> {
    let digits = dec(n);
    if digits.len() < width {
        Seq::new((width - digits.len()) as nat, |i: int| '0') + digits
    } else {
        digits
    }
}

/// Appends `n` in decimal.
pub fn push_dec(out: &mut String, n: u128)
    ensures
        final(out)@ == old(out)@ + dec(n as nat),
    decreases n,
{
    if n >= 10 {
        push_dec(out, n / 10);
    }
    out.push(digit_char((n % 10) as u8));
    assert(out@ =~= old(out)@ + dec(n as nat));
}

/// Appends `n` in decimal, with leading zeros up to `width` digits.
pub fn push_dec_padded(out: &mut String, n: u128, width: usize)
    ensures
        final(out)@ == old(out)@ + dec_padded(n as nat, width as nat),
{
    let mut digits = String::new();
    push_dec(&mut digits, n);
    let mut len: usize = digits.as_str().unicode_len();
    let ghost count = len as nat;
    assert(digits@ =~= dec(n as nat));
    while len < width
        invariant
            count == dec(n as nat).len(),
            count <= len,
            len <= width || len == count,
            out@ == old(out)@ + Seq::new((len - count) as nat, |i: int| '0'),
        decreases width - len,
    {
        out.push('0');
        len += 1;
        assert(out@ =~= old(out)@ + Seq::new((len - count) as nat, |i: int| '0'));
    }
    out.append(digits.as_str());
    assert(out@ =~= old(out)@ + dec_padded(n as nat, width as nat));
}

/// The bytes in hexadecimal, two lowercase digits each.
pub open spec fn hex_of(data: Seq<u8>) -> Seq<char> {
    Seq::new(
        2 * data.len(),
        |i: int|
            digit(
                if i % 2 == 0 {
                    data[i / 2] as nat / 16
                } else {
                    data[i / 2] as nat % 16
                },
            ),
    )
}

/// Calls `hex::encode`, which writes each byte as two lowercase hexadecimal digits, the high one
/// first.
#[verifier::external_body]
pub(crate) fn hex_encode(data: &[u8]) -> (digits: String)
    ensures
        digits@ == hex_of(data@),
{
    hex::encode(data)
}

/// The value of a hexadecimal digit of either case.
pub open spec fn hex_value(c: u8) -> Option<u8> {
    if 0x30 <= c <= 0x39 {
        Some((c - 0x30) as u8)
    } else if 0x41 <= c <= 0x46 {
        Some((c - 0x41 + 10) as u8)
    } else if 0x61 <= c <= 0x66 {
        Some((c - 0x61 + 10) as u8)
    } else {
        None
    }
}

/// The bytes that a string of hexadecimal digits spells; `None` where the number of digits is odd
/// or one of them is no digit.
pub open spec fn unhex(digits: Seq<u8>) -> Option<Seq<u8>> {
    if digits.len() % 2 == 0 && forall|i: int|
        0 <= i < digits.len() ==> hex_value(#[trigger] digits[i]) is Some {
        Some(
            Seq::new(
                digits.len() / 2,
                |i: int| (hex_value(digits[2 * i])->0 * 16 + hex_value(digits[2 * i + 1])->0) as u8,
            ),
        )
    } else {
        None
    }
}

/// Calls `hex::decode`, which takes digits of either case and fails exactly on an odd number of
/// digits or a byte that is none.
#[verifier::external_body]
pub(crate) fn hex_decode(digits: &[u8]) -> (data: Option<Vec<u8>>)
    ensures
        match data {
            Some(data) => unhex(digits@) == Some(data@),
            None => unhex(digits@) is None,
        },
{
    hex::decode(digits).ok()
}

proof fn lemma_digit_injective(c: nat, d: nat)
    requires
        c < 16,
        d < 16,
        digit(c) == digit(d),
    ensures
        c == d,
{
    assert(digit(c) as nat == if c < 10 { 0x30 + c } else { 0x57 + c });
    assert(digit(d) as nat == if d < 10 { 0x30 + d } else { 0x57 + d });
}

/// Different bytes have different digits.
pub proof fn lemma_hex_injective(a: Seq<u8>, b: Seq<u8>)
    requires
        hex_of(a) == hex_of(b),
    ensures
        a == b,
{
    assert(hex_of(a).len() == 2 * a.len());
    assert(hex_of(b).len() == 2 * b.len());
    assert forall|i: int| 0 <= i < a.len() implies a[i] == b[i] by {
        assert((2 * i) / 2 == i && (2 * i) % 2 == 0);
        assert((2 * i + 1) / 2 == i && (2 * i + 1) % 2 == 1);
        assert(hex_of(a)[2 * i] == digit(a[i] as nat / 16));
        assert(hex_of(b)[2 * i] == digit(b[i] as nat / 16));
        assert(hex_of(a)[2 * i + 1] == digit(a[i] as nat % 16));
        assert(hex_of(b)[2 * i + 1] == digit(b[i] as nat % 16));
        lemma_digit_injective(a[i] as nat / 16, b[i] as nat / 16);
        lemma_digit_injective(a[i] as nat % 16, b[i] as nat % 16);
        assert(hex_of(a)[2 * i] == hex_of(b)[2 * i]);
        assert(hex_of(a)[2 * i + 1] == hex_of(b)[2 * i + 1]);
    }
    assert(a =~= b);
}

/// A byte is written as two digits, its high half first, each of `0` to `9` or `a` to `f` by its
/// place in that row.
pub proof fn law_byte_is_two_digits(data: Seq<u8>, i: int)
    requires
        0 <= i < data.len(),
    ensures
        hex_of(data).len() == 2 * data.len(),
        ({
            let row = seq![
                '0',
                '1',
                '2',
                '3',
                '4',
                '5',
                '6',
                '7',
                '8',
                '9',
                'a',
                'b',
                'c',
                'd',
                'e',
                'f',
            ];
            &&& hex_of(data)[2 * i] == row[data[i] as int / 16]
            &&& hex_of(data)[2 * i + 1] == row[data[i] as int % 16]
        }),
{
    assert((2 * i) / 2 == i && (2 * i) % 2 == 0);
    assert((2 * i + 1) / 2 == i && (2 * i + 1) % 2 == 1);
    lemma_digit_row(data[i] as nat / 16);
    lemma_digit_row(data[i] as nat % 16);
}

proof fn lemma_digit_row(d: nat)
    requires
        d < 16,
    ensures
        digit(d) == seq![
            '0',
            '1',
            '2',
            '3',
            '4',
            '5',
            '6',
            '7',
            '8',
            '9',
            'a',
            'b',
            'c',
            'd',
            'e',
            'f',
        ][d as int],
{
    assert(digit(d) as nat == if d < 10 { 0x30 + d } else { 0x57 + d });
    let c = digit(d);
    if d == 0 {
        assert(c == '0');
    } else if d == 1 {
        assert(c == '1');
    } else if d == 2 {
        assert(c == '2');
    } else if d == 3 {
        assert(c == '3');
    } else if d == 4 {
        assert(c == '4');
    } else if d == 5 {
        assert(c == '5');
    } else if d == 6 {
        assert(c == '6');
    } else if d == 7 {
        assert(c == '7');
    } else if d == 8 {
        assert(c == '8');
    } else if d == 9 {
        assert(c == '9');
    } else if d == 10 {
        assert(c == 'a');
    } else if d == 11 {
        assert(c == 'b');
    } else if d == 12 {
        assert(c == 'c');
    } else if d == 13 {
        assert(c == 'd');
    } else if d == 14 {
        assert(c == 'e');
    } else {
        assert(c == 'f');
    }
}

/// Digits that spell bytes, in lower or upper case, read back as the bytes.
pub proof fn law_digits_read_back(data: Seq<u8>, digits: Seq<u8>)
    requires
        digits.len() == 2 * data.len(),
        forall|i: int|
            0 <= i < digits.len() ==> (#[trigger] digits[i]) as nat == hex_of(data)[i] as nat || (
            hex_of(data)[i] >= 'a' && digits[i] as nat + 0x20 == hex_of(data)[i] as nat),
    ensures
        unhex(digits) == Some(data),
{
    assert forall|i: int| 0 <= i < data.len() implies hex_value(#[trigger] digits[2 * i]) == Some(
        (data[i] / 16) as u8,
    ) && hex_value(digits[2 * i + 1]) == Some((data[i] % 16) as u8) by {
        assert((2 * i) / 2 == i && (2 * i) % 2 == 0);
        assert((2 * i + 1) / 2 == i && (2 * i + 1) % 2 == 1);
        let a = data[i] as nat / 16;
        let b = data[i] as nat % 16;
        assert(digit(a) as nat == if a < 10 { 0x30 + a } else { 0x57 + a });
        assert(digit(b) as nat == if b < 10 { 0x30 + b } else { 0x57 + b });
        assert(hex_of(data)[2 * i] == digit(a));
        assert(hex_of(data)[2 * i + 1] == digit(b));
        let c = digits[2 * i + 1] as nat;
        let h = hex_of(data)[2 * i + 1] as nat;
        assert(c == h || c + 0x20 == h);
    }
    assert forall|i: int| 0 <= i < digits.len() implies hex_value(#[trigger] digits[i]) is Some by {
        let k = i / 2;
        assert(hex_value(digits[2 * k]) is Some);
        assert(hex_value(digits[2 * k + 1]) is Some);
        assert(i == 2 * k || i == 2 * k + 1);
    }
    let read = unhex(digits)->0;
    assert(read.len() == data.len());
    assert forall|i: int| 0 <= i < data.len() implies read[i] == data[i] by {
        assert(hex_value(digits[2 * i]) == Some((data[i] / 16) as u8));
    }
    assert(read =~= data);
}

} // verus!
