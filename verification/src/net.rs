//! IP addresses and their text form.

use vstd::arithmetic::div_mod::lemma_fundamental_div_mod_converse;
use vstd::prelude::*;
use vstd::string::*;
use crate::text::{dec, digit, digit_char, push_dec};

verus! {

/// An IP address, as the number that its octets spell.
#[derive(Clone, Copy, Debug, PartialEq, Eq, Hash, Structural)]
pub enum IpAddr {
    V4(u32),
    V6(u128),
}

impl IpAddr {
    /// The IPv4 address `a.b.c.d`.
    pub fn v4(a: u8, b: u8, c: u8, d: u8) -> (ip: IpAddr)
        ensures
            ip == IpAddr::V4((a * 0x100_0000 + b * 0x1_0000 + c * 0x100 + d) as u32),
    {
        IpAddr::V4(a as u32 * 0x100_0000 + b as u32 * 0x1_0000 + c as u32 * 0x100 + d as u32)
    }

    /// Appends the text form of the address.
    pub fn push_text(&self, out: &mut String)
        ensures
            final(out)@ == old(out)@ + ip_text(*self),
    {
        match *self {
            IpAddr::V4(n) => push_v4(out, n),
            IpAddr::V6(n) => push_v6(out, n),
        }
    }
}

/// Group `i` of an IPv6 address, the most significant first.
pub open spec fn group(n: u128, i: int) -> u128 {
    if i == 0 {
        n / 0x1_0000_0000_0000_0000_0000_0000_0000
    } else if i == 1 {
        n / 0x1_0000_0000_0000_0000_0000_0000 % 0x1_0000
    } else if i == 2 {
        n / 0x1_0000_0000_0000_0000_0000 % 0x1_0000
    } else if i == 3 {
        n / 0x1_0000_0000_0000_0000 % 0x1_0000
    } else if i == 4 {
        n / 0x1_0000_0000_0000 % 0x1_0000
    } else if i == 5 {
        n / 0x1_0000_0000 % 0x1_0000
    } else if i == 6 {
        n / 0x1_0000 % 0x1_0000
    } else {
        n % 0x1_0000
    }
}

fn group_at(n: u128, i: usize) -> (g: u128)
    ensures
        g == group(n, i as int),
        g < 0x1_0000,
{
    if i == 0 {
        n / 0x1_0000_0000_0000_0000_0000_0000_0000
    } else if i == 1 {
        n / 0x1_0000_0000_0000_0000_0000_0000 % 0x1_0000
    } else if i == 2 {
        n / 0x1_0000_0000_0000_0000_0000 % 0x1_0000
    } else if i == 3 {
        n / 0x1_0000_0000_0000_0000 % 0x1_0000
    } else if i == 4 {
        n / 0x1_0000_0000_0000 % 0x1_0000
    } else if i == 5 {
        n / 0x1_0000_0000 % 0x1_0000
    } else if i == 6 {
        n / 0x1_0000 % 0x1_0000
    } else {
        n % 0x1_0000
    }
}

/// `n` in lowercase hexadecimal, without leading zeros.
pub open spec fn hex_number(n: nat) -> Seq<char>
    decreases n,
{
    if n < 16 {
        seq![digit(n)]
    } else {
        hex_number(n / 16).push(digit(n % 16))
    }
}

fn push_hex(out: &mut String, n: u128)
    ensures
        final(out)@ == old(out)@ + hex_number(n as nat),
    decreases n,
{
    if n >= 16 {
        push_hex(out, n / 16);
    }
    out.push(digit_char((n % 16) as u8));
    assert(out@ =~= old(out)@ + hex_number(n as nat));
}

/// Four decimal octets with dots between them.
pub open spec fn v4_text(n: u32) -> Seq<char> {
    dec((n / 0x100_0000) as nat) + seq!['.'] + dec((n / 0x1_0000 % 0x100) as nat) + seq!['.']
        + dec((n / 0x100 % 0x100) as nat) + seq!['.'] + dec((n % 0x100) as nat)
}

fn push_v4(out: &mut String, n: u32)
    ensures
        final(out)@ == old(out)@ + v4_text(n),
{
    push_dec(out, (n / 0x100_0000) as u128);
    out.push('.');
    push_dec(out, (n / 0x1_0000 % 0x100) as u128);
    out.push('.');
    push_dec(out, (n / 0x100 % 0x100) as u128);
    out.push('.');
    push_dec(out, (n % 0x100) as u128);
    assert(out@ =~= old(out)@ + v4_text(n));
}

/// The number of zero groups from group `i` on, before the first other one.
pub open spec fn zero_run(n: u128, i: int) -> int
    decreases 8 - i,
{
    if i >= 8 || group(n, i) != 0 {
        0
    } else {
        1 + zero_run(n, i + 1)
    }
}

/// The first of the longest runs of zero groups that begin before group `upto`: where it begins
/// and how long it is.
pub open spec fn longest_run(n: u128, upto: int) -> (int, int)
    decreases upto,
{
    if upto <= 0 {
        (0, 0)
    } else {
        let best = longest_run(n, upto - 1);
        if zero_run(n, upto - 1) > best.1 {
            (upto - 1, zero_run(n, upto - 1))
        } else {
            best
        }
    }
}

/// Groups `from` to `to` in hexadecimal with colons between them.
pub open spec fn groups_text(n: u128, from: int, to: int) -> Seq<char>
    decreases to - from,
{
    if from >= to {
        Seq::empty()
    } else if from + 1 == to {
        hex_number(group(n, from) as nat)
    } else {
        groups_text(n, from, to - 1) + seq![':'] + hex_number(group(n, to - 1) as nat)
    }
}

/// The text form of an IPv6 address (RFC 5952): an IPv4-mapped address ends in the IPv4 form;
/// otherwise the first longest run of two or more zero groups is left out.
pub open spec fn v6_text(n: u128) -> Seq<char> {
    if n / 0x1_0000_0000 == 0xffff {
        seq![':', ':', 'f', 'f', 'f', 'f', ':'] + v4_text((n % 0x1_0000_0000) as u32)
    } else {
        let (at, len) = longest_run(n, 8);
        if len >= 2 {
            groups_text(n, 0, at) + seq![':', ':'] + groups_text(n, at + len, 8)
        } else {
            groups_text(n, 0, 8)
        }
    }
}

pub open spec fn ip_text(ip: IpAddr) -> Seq<char> {
    match ip {
        IpAddr::V4(n) => v4_text(n),
        IpAddr::V6(n) => v6_text(n),
    }
}

fn push_groups(out: &mut String, n: u128, from: usize, to: usize)
    requires
        from <= to <= 8,
    ensures
        final(out)@ == old(out)@ + groups_text(n, from as int, to as int),
{
    let mut i: usize = from;
    while i < to
        invariant
            from <= i <= to,
            to <= 8,
            out@ == old(out)@ + groups_text(n, from as int, i as int),
        decreases to - i,
    {
        if i > from {
            out.push(':');
        }
        push_hex(out, group_at(n, i));
        i += 1;
        assert(out@ =~= old(out)@ + groups_text(n, from as int, i as int));
    }
}

fn zero_run_from(n: u128, from: usize) -> (len: usize)
    requires
        from <= 8,
    ensures
        len == zero_run(n, from as int),
        from + len <= 8,
{
    let mut i: usize = from;
    while i < 8 && group_at(n, i) == 0
        invariant
            from <= i <= 8,
            zero_run(n, from as int) == i - from + zero_run(n, i as int),
        decreases 8 - i,
    {
        i += 1;
    }
    i - from
}

fn push_v6(out: &mut String, n: u128)
    ensures
        final(out)@ == old(out)@ + v6_text(n),
{
    if n / 0x1_0000_0000 == 0xffff {
        proof {
            reveal_strlit("::ffff:");
        }
        out.append("::ffff:");
        push_v4(out, (n % 0x1_0000_0000) as u32);
        assert(out@ =~= old(out)@ + v6_text(n));
        return;
    }
    let mut at: usize = 0;
    let mut len: usize = 0;
    let mut i: usize = 0;
    while i < 8
        invariant
            i <= 8,
            at + len <= 8,
            (at as int, len as int) == longest_run(n, i as int),
        decreases 8 - i,
    {
        let run = zero_run_from(n, i);
        if run > len {
            at = i;
            len = run;
        }
        i += 1;
    }
    if len >= 2 {
        push_groups(out, n, 0, at);
        proof {
            reveal_strlit("::");
        }
        out.append("::");
        push_groups(out, n, at + len, 8);
    } else {
        push_groups(out, n, 0, 8);
    }
    assert(out@ =~= old(out)@ + v6_text(n));
}

/// An IPv4 address is written as its four octets in decimal, the highest first, with dots between
/// them.
pub proof fn law_v4_is_four_octets(a: u8, b: u8, c: u8, d: u8)
    ensures
        v4_text((a * 0x100_0000 + b * 0x1_0000 + c * 0x100 + d) as u32) == dec(a as nat) + seq!['.']
            + dec(b as nat) + seq!['.'] + dec(c as nat) + seq!['.'] + dec(d as nat),
{
    let n = a * 0x100_0000 + b * 0x1_0000 + c * 0x100 + d;
    assert(0 <= n <= u32::MAX);
    lemma_fundamental_div_mod_converse(n, 0x100_0000, a as int, b * 0x1_0000 + c * 0x100 + d);
    lemma_fundamental_div_mod_converse(n, 0x1_0000, a * 0x100 + b, c * 0x100 + d);
    lemma_fundamental_div_mod_converse(n, 0x100, a * 0x1_0000 + b * 0x100 + c, d as int);
    lemma_fundamental_div_mod_converse(a * 0x100 + b, 0x100, a as int, b as int);
    lemma_fundamental_div_mod_converse(
        a * 0x1_0000 + b * 0x100 + c,
        0x100,
        a * 0x100 + b,
        c as int,
    );
}

/// An IPv6 address is eight groups of sixteen bits, the highest first.
pub proof fn law_v6_is_eight_groups(g: Seq<u16>)
    requires
        g.len() == 8,
    ensures
        ({
            let n = (g[0] * 0x1_0000_0000_0000_0000_0000_0000_0000 + g[1]
                * 0x1_0000_0000_0000_0000_0000_0000 + g[2] * 0x1_0000_0000_0000_0000_0000 + g[3]
                * 0x1_0000_0000_0000_0000 + g[4] * 0x1_0000_0000_0000 + g[5] * 0x1_0000_0000 + g[6]
                * 0x1_0000 + g[7]) as u128;
            forall|i: int| 0 <= i < 8 ==> #[trigger] group(n, i) == g[i]
        }),
{
    let n = (g[0] * 0x1_0000_0000_0000_0000_0000_0000_0000 + g[1]
        * 0x1_0000_0000_0000_0000_0000_0000 + g[2] * 0x1_0000_0000_0000_0000_0000 + g[3]
        * 0x1_0000_0000_0000_0000 + g[4] * 0x1_0000_0000_0000 + g[5] * 0x1_0000_0000 + g[6]
        * 0x1_0000 + g[7]) as u128;
    let m = 0x1_0000int;
    let h1 = g[0] * m + g[1];
    let h2 = h1 * m + g[2];
    let h3 = h2 * m + g[3];
    let h4 = h3 * m + g[4];
    let h5 = h4 * m + g[5];
    let h6 = h5 * m + g[6];
    let l6 = g[7] as int;
    let l5 = g[6] * m + l6;
    let l4 = g[5] * 0x1_0000_0000 + l5;
    let l3 = g[4] * 0x1_0000_0000_0000 + l4;
    let l2 = g[3] * 0x1_0000_0000_0000_0000 + l3;
    let l1 = g[2] * 0x1_0000_0000_0000_0000_0000 + l2;
    let l0 = g[1] * 0x1_0000_0000_0000_0000_0000_0000 + l1;
    let k = g[0] * 0x1_0000_0000_0000_0000_0000_0000_0000 + l0;
    assert(0 <= k <= u128::MAX);
    assert(n == k);
    lemma_fundamental_div_mod_converse(
        k,
        0x1_0000_0000_0000_0000_0000_0000_0000,
        g[0] as int,
        l0,
    );
    lemma_fundamental_div_mod_converse(k, 0x1_0000_0000_0000_0000_0000_0000, h1, l1);
    lemma_fundamental_div_mod_converse(k, 0x1_0000_0000_0000_0000_0000, h2, l2);
    lemma_fundamental_div_mod_converse(k, 0x1_0000_0000_0000_0000, h3, l3);
    lemma_fundamental_div_mod_converse(k, 0x1_0000_0000_0000, h4, l4);
    lemma_fundamental_div_mod_converse(k, 0x1_0000_0000, h5, l5);
    lemma_fundamental_div_mod_converse(k, 0x1_0000, h6, l6);
    lemma_fundamental_div_mod_converse(h1, m, g[0] as int, g[1] as int);
    lemma_fundamental_div_mod_converse(h2, m, h1, g[2] as int);
    lemma_fundamental_div_mod_converse(h3, m, h2, g[3] as int);
    lemma_fundamental_div_mod_converse(h4, m, h3, g[4] as int);
    lemma_fundamental_div_mod_converse(h5, m, h4, g[5] as int);
    lemma_fundamental_div_mod_converse(h6, m, h5, g[6] as int);
}

/// The number that lowercase hexadecimal digits spell.
pub open spec fn hex_digits_value(t: Seq<char>) -> nat
    decreases t.len(),
{
    if t.len() == 0 {
        0
    } else {
        let c = t.last();
        hex_digits_value(t.drop_last()) * 16 + if c <= '9' {
            (c as nat - '0' as nat) as nat
        } else {
            (c as nat - 'a' as nat + 10) as nat
        }
    }
}

/// A group's digits spell it, are of `0` to `9` and `a` to `f`, and have no needless zero in front.
pub proof fn law_group_digits_spell_it(n: nat)
    ensures
        hex_digits_value(hex_number(n)) == n,
        hex_number(n).len() > 0,
        hex_number(n)[0] == '0' ==> n == 0 && hex_number(n).len() == 1,
        forall|i: int|
            0 <= i < hex_number(n).len() ==> '0' <= (#[trigger] hex_number(n)[i]) <= '9' || 'a'
                <= hex_number(n)[i] <= 'f',
    decreases n,
{
    let d = n % 16;
    assert(digit(d) as nat == if d < 10 { 0x30 + d } else { 0x57 + d });
    if n < 16 {
        assert(hex_number(n).drop_last() =~= Seq::empty());
        assert(hex_digits_value(Seq::<char>::empty()) == 0);
    } else {
        law_group_digits_spell_it(n / 16);
        assert(hex_number(n).drop_last() =~= hex_number(n / 16));
        assert(hex_number(n)[0] == hex_number(n / 16)[0]);
    }
}

proof fn lemma_zero_run(n: u128, i: int)
    requires
        0 <= i <= 8,
    ensures
        0 <= zero_run(n, i) <= 8 - i,
        forall|j: int| i <= j < i + zero_run(n, i) ==> #[trigger] group(n, j) == 0,
        i + zero_run(n, i) < 8 ==> group(n, i + zero_run(n, i)) != 0,
    decreases 8 - i,
{
    if i < 8 && group(n, i) == 0 {
        lemma_zero_run(n, i + 1);
    }
}

proof fn lemma_run_of(n: u128, i: int, len: int)
    requires
        0 <= i,
        0 <= len,
        i + len <= 8,
        forall|j: int| i <= j < i + len ==> #[trigger] group(n, j) == 0,
    ensures
        zero_run(n, i) >= len,
    decreases len,
{
    lemma_zero_run(n, i);
    if len > 0 {
        assert(group(n, i) == 0);
        lemma_run_of(n, i + 1, len - 1);
    }
}

proof fn lemma_longest_run(n: u128, upto: int)
    requires
        0 <= upto <= 8,
    ensures
        ({
            let (at, len) = longest_run(n, upto);
            &&& 0 <= at
            &&& len >= 0
            &&& len > 0 ==> at < upto
            &&& len > 0 ==> len == zero_run(n, at)
            &&& forall|i: int| 0 <= i < upto ==> #[trigger] zero_run(n, i) <= len
            &&& forall|i: int| 0 <= i < at ==> #[trigger] zero_run(n, i) < len
        }),
    decreases upto,
{
    if upto > 0 {
        lemma_longest_run(n, upto - 1);
        lemma_zero_run(n, upto - 1);
    }
}

/// The run of zero groups that is left out is a run of zeros, no run of zeros is longer, and none
/// as long begins before it.
pub proof fn law_longest_run_is_left_out(n: u128, i: int, len: int)
    requires
        0 <= i,
        0 < len,
        i + len <= 8,
        forall|j: int| i <= j < i + len ==> #[trigger] group(n, j) == 0,
    ensures
        ({
            let (at, longest) = longest_run(n, 8);
            &&& 0 <= at && at + longest <= 8
            &&& forall|j: int| at <= j < at + longest ==> #[trigger] group(n, j) == 0
            &&& len <= longest
            &&& len == longest ==> at <= i
        }),
{
    lemma_run_of(n, i, len);
    lemma_longest_run(n, 8);
    let (at, longest) = longest_run(n, 8);
    assert(zero_run(n, i) <= longest);
    lemma_zero_run(n, at);
    lemma_zero_run(n, i);
}

/// The groups from one to another are written one after the other with single colons between them.
pub proof fn law_groups_are_written_in_order(n: u128, from: int, mid: int, to: int)
    requires
        from < mid < to,
    ensures
        groups_text(n, from, from + 1) == hex_number(group(n, from) as nat),
        groups_text(n, from, from) == Seq::<char>::empty(),
        groups_text(n, from, to) == groups_text(n, from, mid) + seq![':'] + groups_text(n, mid, to),
    decreases to - mid,
{
    if mid + 1 == to {
        assert(groups_text(n, mid, to) == hex_number(group(n, mid) as nat));
    } else {
        law_groups_are_written_in_order(n, from, mid, to - 1);
        assert(groups_text(n, mid, to) == groups_text(n, mid, to - 1) + seq![':'] + hex_number(
            group(n, to - 1) as nat,
        ));
        assert(groups_text(n, from, to) =~= groups_text(n, from, mid) + seq![':'] + groups_text(
            n,
            mid,
            to,
        ));
    }
}

/// An IPv6 address with a run of two or more zero groups has two colons in the place of the longest
/// one; without such a run all eight groups stand; and one that maps an IPv4 address ends in that
/// address.
pub proof fn law_v6_text_leaves_out_zeros(n: u128, v4: u32)
    ensures
        n / 0x1_0000_0000 != 0xffff && longest_run(n, 8).1 >= 2 ==> ip_text(IpAddr::V6(n))
            == groups_text(n, 0, longest_run(n, 8).0) + seq![':', ':'] + groups_text(
            n,
            longest_run(n, 8).0 + longest_run(n, 8).1,
            8,
        ),
        n / 0x1_0000_0000 != 0xffff && longest_run(n, 8).1 < 2 ==> ip_text(IpAddr::V6(n))
            == groups_text(n, 0, 8),
        ip_text(IpAddr::V6((0xffff_0000_0000 + v4) as u128)) == seq![
            ':',
            ':',
            'f',
            'f',
            'f',
            'f',
            ':',
        ] + ip_text(IpAddr::V4(v4)),
        ip_text(IpAddr::V4(v4)) == v4_text(v4),
{
}

} // verus!
