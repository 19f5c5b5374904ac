//! JSON strings, and small operations on field names.

use vstd::prelude::*;
use vstd::string::*;
use crate::text::{chars_of, digit, digit_char};

verus! {

/// A character as it stands inside a JSON string: quotes and backslashes behind a backslash,
/// control characters by their short names or their codes, everything else as it is.
pub open spec fn escape_char(c: char) -> Seq<char> {
    if c == '"' {
        seq!['\\', '"']
    } else if c == '\\' {
        seq!['\\', '\\']
    } else if c == '\n' {
        seq!['\\', 'n']
    } else if c == '\r' {
        seq!['\\', 'r']
    } else if c == '\t' {
        seq!['\\', 't']
    } else if (c as u32) < 0x20 {
        seq!['\\', 'u', '0', '0', digit(c as nat / 16), digit(c as nat % 16)]
    } else {
        seq![c]
    }
}

pub open spec fn escape(s: Seq<char>) -> Seq<char>
    decreases s.len(),
{
    if s.len() == 0 {
        Seq::empty()
    } else {
        escape_char(s[0]) + escape(s.drop_first())
    }
}

/// A text as a JSON string.
pub open spec fn json_string(s: Seq<char>) -> Seq<char> {
    seq!['"'] + escape(s) + seq!['"']
}

fn push_escaped(out: &mut String, c: char)
    ensures
        final(out)@ == old(out)@ + escape_char(c),
{
    let code: u32 = c as u32;
    if c == '"' {
        out.push('\\');
        out.push('"');
    } else if c == '\\' {
        out.push('\\');
        out.push('\\');
    } else if c == '\n' {
        out.push('\\');
        out.push('n');
    } else if c == '\r' {
        out.push('\\');
        out.push('r');
    } else if c == '\t' {
        out.push('\\');
        out.push('t');
    } else if code < 0x20 {
        out.push('\\');
        out.push('u');
        out.push('0');
        out.push('0');
        out.push(digit_char((code / 16) as u8));
        out.push(digit_char((code % 16) as u8));
    } else {
        out.push(c);
    }
    assert(out@ =~= old(out)@ + escape_char(c));
}

/// Appends a text as a JSON string.
pub fn write_json_string(out: &mut String, s: &str)
    ensures
        final(out)@ == old(out)@ + json_string(s@),
{
    out.push('"');
    let ghost opened = out@;
    let chars = s.chars();
    proof {
        assert(s@.skip(0) =~= s@);
    }
    for c in it: chars
        invariant
            it.seq() == s@,
            out@ + escape(s@.skip(it.index())) == opened + escape(s@),
    {
        let ghost i = it.index();
        let ghost before = out@;
        push_escaped(out, c);
        proof {
            assert(s@.skip(i)[0] == c);
            assert(s@.skip(i).drop_first() =~= s@.skip(i + 1));
            assert(out@ + escape(s@.skip(i + 1)) =~= before + escape(s@.skip(i)));
        }
    }
    proof {
        assert(s@.skip(s@.len() as int) =~= Seq::empty());
        assert(escape(Seq::<char>::empty()) =~= Seq::empty());
        assert(out@ =~= opened + escape(s@));
    }
    out.push('"');
    assert(out@ =~= old(out)@ + json_string(s@));
}

/// The value of a lowercase hexadecimal digit.
pub open spec fn digit_value(c: char) -> int {
    if c <= '9' {
        c as int - 0x30
    } else {
        c as int - 0x57
    }
}

/// What the inside of a JSON string stands for.
pub open spec fn unescape(t: Seq<char>) -> Seq<char>
    decreases t.len(),
{
    if t.len() == 0 {
        Seq::empty()
    } else if t[0] != '\\' {
        seq![t[0]] + unescape(t.drop_first())
    } else if t.len() >= 6 && t[1] == 'u' {
        seq![(16 * digit_value(t[4]) + digit_value(t[5])) as char] + unescape(t.skip(6))
    } else if t.len() >= 2 {
        seq![
            if t[1] == 'n' {
                '\n'
            } else if t[1] == 'r' {
                '\r'
            } else if t[1] == 't' {
                '\t'
            } else {
                t[1]
            },
        ] + unescape(t.skip(2))
    } else {
        Seq::empty()
    }
}

proof fn lemma_escape_char(c: char)
    ensures
        ({
            let e = escape_char(c);
            &&& e.len() == 1 || e.len() == 2 || e.len() == 6
            &&& e.len() == 1 ==> e[0] == c && c != '"' && c != '\\'
            &&& e.len() == 6 ==> (16 * digit_value(e[4]) + digit_value(e[5])) as char == c
            &&& forall|i: int| 0 <= i < e.len() ==> (#[trigger] e[i]) as u32 >= 0x20
            &&& forall|i: int| 0 <= i < e.len() && #[trigger] e[i] == '"' ==> i == 1 && e[0] == '\\'
        }),
{
    let e = escape_char(c);
    if e.len() == 6 {
        let n = c as nat;
        assert(n < 0x20);
        assert(n / 16 < 10 || n / 16 >= 10);
        assert(digit(n / 16) as nat == 0x30 + n / 16);
        assert(digit(n % 16) as nat == if n % 16 < 10 { 0x30 + n % 16 } else { 0x57 + n % 16 });
    }
}

/// A JSON string says what was put in: reading the escaped text back gives the text.
pub proof fn law_json_string_reads_back(s: Seq<char>)
    ensures
        unescape(escape(s)) == s,
    decreases s.len(),
{
    if s.len() > 0 {
        let c = s[0];
        let e = escape_char(c);
        let rest = escape(s.drop_first());
        lemma_escape_char(c);
        law_json_string_reads_back(s.drop_first());
        let t = escape(s);
        assert(t == e + rest);
        if e.len() == 1 {
            assert(t.drop_first() =~= rest);
        } else if e.len() == 2 {
            assert(t.skip(2) =~= rest);
            assert(t[0] == e[0] && t[1] == e[1]);
        } else {
            assert(t.skip(6) =~= rest);
            assert(t[0] == e[0] && t[1] == e[1] && t[4] == e[4] && t[5] == e[5]);
        }
        assert(unescape(t) =~= s);
    }
}

/// No control character and no bare quote stands inside a JSON string, so a line stays one line
/// and a string ends where it ends.
pub proof fn law_json_string_is_clean(s: Seq<char>, i: int)
    requires
        0 <= i < escape(s).len(),
    ensures
        escape(s)[i] as u32 >= 0x20,
        escape(s)[i] == '"' ==> i > 0 && escape(s)[i - 1] == '\\',
    decreases s.len(),
{
    let e = escape_char(s[0]);
    let rest = escape(s.drop_first());
    lemma_escape_char(s[0]);
    assert(escape(s) == e + rest);
    if i >= e.len() {
        law_json_string_is_clean(s.drop_first(), i - e.len());
        if i > e.len() {
            assert(escape(s)[i - 1] == rest[i - 1 - e.len()]);
        }
    }
}

/// A name with its dots turned into underscores.
pub open spec fn underscored(s: Seq<char>) -> Seq<char> {
    s.map_values(
        |c: char|
            if c == '.' {
                '_'
            } else {
                c
            },
    )
}

pub fn with_underscores(s: &str) -> (out: String)
    ensures
        out@ == underscored(s@),
{
    let mut out = String::new();
    let chars = s.chars();
    for c in it: chars
        invariant
            it.seq() == s@,
            out@ == underscored(s@.take(it.index())),
    {
        let ghost i = it.index();
        if c == '.' {
            out.push('_');
        } else {
            out.push(c);
        }
        assert(out@ =~= underscored(s@.take(i + 1)));
    }
    assert(s@.take(s@.len() as int) =~= s@);
    out
}

/// The part of a name before its first dot.
pub open spec fn group_of(s: Seq<char>) -> Seq<char>
    decreases s.len(),
{
    if s.len() == 0 || s[0] == '.' {
        Seq::empty()
    } else {
        seq![s[0]] + group_of(s.drop_first())
    }
}

pub fn group_name(s: &str) -> (out: String)
    ensures
        out@ == group_of(s@),
{
    let mut out = String::new();
    let chars = s.chars();
    let mut ended = false;
    proof {
        assert(s@.skip(0) =~= s@);
        assert(out@ + group_of(s@) =~= group_of(s@));
    }
    for c in it: chars
        invariant
            it.seq() == s@,
            ended ==> out@ == group_of(s@),
            !ended ==> out@ + group_of(s@.skip(it.index())) == group_of(s@),
    {
        let ghost i = it.index();
        let ghost before = out@;
        proof {
            assert(s@.skip(i)[0] == c);
            assert(s@.skip(i).drop_first() =~= s@.skip(i + 1));
        }
        if !ended {
            if c == '.' {
                ended = true;
                assert(out@ =~= group_of(s@));
            } else {
                out.push(c);
                assert(out@ + group_of(s@.skip(i + 1)) =~= before + group_of(s@.skip(i)));
            }
        }
    }
    proof {
        if !ended {
            assert(s@.skip(s@.len() as int) =~= Seq::empty());
            assert(out@ =~= group_of(s@));
        }
    }
    out
}

/// A name without the name of what it stands in and a dot in front, if they are there.
pub open spec fn short_of(name: Seq<char>, prefix: Seq<char>) -> Seq<char> {
    let full = prefix.push('.');
    if full.is_prefix_of(name) {
        name.skip(full.len() as int)
    } else {
        name
    }
}

pub fn short_name(name: &str, prefix: &str) -> (out: String)
    ensures
        out@ == short_of(name@, prefix@),
{
    let n = chars_of(name);
    let mut p = chars_of(prefix);
    p.push('.');
    let mut strip = p.len() <= n.len();
    let mut i: usize = 0;
    while strip && i < p.len()
        invariant
            i <= p@.len(),
            p@ == prefix@.push('.'),
            n@ == name@,
            strip ==> p@.len() <= n@.len(),
            strip ==> forall|j: int| 0 <= j < i ==> p@[j] == n@[j],
            !strip ==> !p@.is_prefix_of(n@),
        decreases p@.len() - i, strip as int,
    {
        if p[i] != n[i] {
            strip = false;
        } else {
            i += 1;
        }
    }
    proof {
        if strip {
            assert(p@.is_prefix_of(n@)) by {
                assert(p@ =~= n@.subrange(0, p@.len() as int));
            }
        }
    }
    let from: usize = if strip { p.len() } else { 0 };
    let mut out = String::new();
    let mut k: usize = from;
    while k < n.len()
        invariant
            from <= k <= n@.len(),
            out@ =~= n@.subrange(from as int, k as int),
        decreases n@.len() - k,
    {
        out.push(n[k]);
        k += 1;
    }
    assert(out@ =~= short_of(name@, prefix@));
    out
}

/// With underscores a name keeps its length and every character but the dots, which are
/// underscores then.
pub proof fn law_underscores_stand_for_dots(s: Seq<char>, i: int)
    requires
        0 <= i < s.len(),
    ensures
        underscored(s).len() == s.len(),
        s[i] == '.' ==> underscored(s)[i] == '_',
        s[i] != '.' ==> underscored(s)[i] == s[i],
{
}

/// A name's group is what stands before its first dot, and a name without a dot is its own group.
pub proof fn law_group_ends_at_the_first_dot(group: Seq<char>, rest: Seq<char>)
    requires
        !group.contains('.'),
    ensures
        group_of(group + seq!['.'] + rest) == group,
        group_of(group) == group,
    decreases group.len(),
{
    let name = group + seq!['.'] + rest;
    if group.len() == 0 {
        assert(name[0] == '.');
        assert(group =~= Seq::empty());
    } else {
        let more = group.drop_first();
        assert(group[0] != '.') by {
            assert(group.contains(group[0]));
        }
        assert(!more.contains('.')) by {
            if more.contains('.') {
                let i = choose|i: int| 0 <= i < more.len() && more[i] == '.';
                assert(group[i + 1] == '.');
            }
        }
        law_group_ends_at_the_first_dot(more, rest);
        assert(name.drop_first() =~= more + seq!['.'] + rest);
        assert(seq![group[0]] + more =~= group);
    }
}

/// A name that begins with the prefix and a dot is short without them; every other name is short
/// as it is.
pub proof fn law_short_name_drops_the_prefix(prefix: Seq<char>, rest: Seq<char>, other: Seq<char>)
    requires
        forall|r: Seq<char>| other != #[trigger] (prefix + seq!['.'] + r),
    ensures
        short_of(prefix + seq!['.'] + rest, prefix) == rest,
        short_of(other, prefix) == other,
{
    let full = prefix.push('.');
    let name = prefix + seq!['.'] + rest;
    assert(full.is_prefix_of(name));
    assert(name.skip(full.len() as int) =~= rest);
    if full.is_prefix_of(other) {
        let r = other.skip(full.len() as int);
        assert(other =~= prefix + seq!['.'] + r) by {
            assert(other.subrange(0, full.len() as int) =~= full);
            assert forall|i: int| 0 <= i < full.len() implies other[i] == full[i] by {
                assert(other.subrange(0, full.len() as int)[i] == full[i]);
            }
        }
    }
}

} // verus!
