//! The process's memory use, as the kernel's status text gives it.

use vstd::prelude::*;
use vstd::string::*;
use crate::ek_output::reading::{digits_value, is_digit, lemma_dec_digits};
use crate::text::{chars_of, dec};

verus! {

/// The characters that Unicode calls white space.
pub open spec fn is_white_space(c: char) -> bool {
    let n = c as u32;
    ||| 0x09 <= n <= 0x0d
    ||| n == 0x20
    ||| n == 0x85
    ||| n == 0xa0
    ||| n == 0x1680
    ||| 0x2000 <= n <= 0x200a
    ||| n == 0x2028
    ||| n == 0x2029
    ||| n == 0x202f
    ||| n == 0x205f
    ||| n == 0x3000
}

fn white_space(c: char) -> (yes: bool)
    ensures
        yes == is_white_space(c),
{
    let n: u32 = c as u32;
    (0x09 <= n && n <= 0x0d) || n == 0x20 || n == 0x85 || n == 0xa0 || n == 0x1680 || (0x2000 <= n
        && n <= 0x200a) || n == 0x2028 || n == 0x2029 || n == 0x202f || n == 0x205f || n == 0x3000
}

/// The number that decimal digits spell.
pub open spec fn decimal(digits: Seq<char>) -> Option<nat>
    decreases digits.len(),
{
    if digits.len() == 0 {
        Some(0)
    } else if '0' <= digits.last() <= '9' {
        match decimal(digits.drop_last()) {
            Some(n) => Some(n * 10 + (digits.last() as nat - '0' as nat) as nat),
            None => None,
        }
    } else {
        None
    }
}

/// A decimal number of 64 bits, with or without a plus sign in front.
pub open spec fn unsigned(word: Seq<char>) -> Option<u64> {
    let digits = if word.len() > 0 && word[0] == '+' {
        word.drop_first()
    } else {
        word
    };
    match decimal(digits) {
        Some(n) if digits.len() > 0 && n <= u64::MAX => Some(n as u64),
        _ => None,
    }
}

/// The number that the characters from `start` to `end` spell; see `unsigned`.
fn parse_unsigned(text: &Vec<char>, start: usize, end: usize) -> (n: Option<u64>)
    requires
        start <= end <= text@.len(),
    ensures
        n == unsigned(text@.subrange(start as int, end as int)),
{
    let ghost word = text@.subrange(start as int, end as int);
    let from: usize = if start < end && text[start] == '+' { start + 1 } else { start };
    let ghost digits = text@.subrange(from as int, end as int);
    proof {
        if from == start {
            assert(digits =~= word);
        } else {
            assert(digits =~= word.drop_first());
        }
    }
    if from == end {
        return None;
    }
    let mut n: u64 = 0;
    let mut fits = true;
    let mut i: usize = from;
    assert(digits.take(0) =~= Seq::empty());
    while i < end
        invariant
            from <= i <= end <= text@.len(),
            digits == text@.subrange(from as int, end as int),
            digits == if word.len() > 0 && word[0] == '+' {
                word.drop_first()
            } else {
                word
            },
            word == text@.subrange(start as int, end as int),
            digits.len() > 0,
            match decimal(digits.take(i - from)) {
                Some(value) => if fits {
                    n == value
                } else {
                    value > u64::MAX
                },
                None => false,
            },
        decreases end - i,
    {
        let c: char = text[i];
        proof {
            assert(digits.take(i - from + 1).drop_last() =~= digits.take(i - from));
            assert(digits.take(i - from + 1).last() == c);
        }
        if c < '0' || c > '9' {
            proof {
                lemma_no_digit(digits, i - from);
            }
            return None;
        }
        let next: u128 = n as u128 * 10 + (c as u32 - '0' as u32) as u128;
        if fits && next <= u64::MAX as u128 {
            n = next as u64;
        } else {
            fits = false;
        }
        i += 1;
    }
    assert(digits.take(digits.len() as int) =~= digits);
    if fits {
        Some(n)
    } else {
        None
    }
}

proof fn lemma_no_digit(digits: Seq<char>, at: int)
    requires
        0 <= at < digits.len(),
        !('0' <= digits[at] <= '9'),
    ensures
        decimal(digits) is None,
    decreases digits.len(),
{
    if at < digits.len() - 1 {
        lemma_no_digit(digits.drop_last(), at);
    }
}

/// The number of characters before the first line feed.
pub open spec fn line_len(text: Seq<char>) -> nat
    decreases text.len(),
{
    if text.len() == 0 || text[0] == '\n' {
        0
    } else {
        1 + line_len(text.drop_first())
    }
}

/// The number of characters before the first white space.
pub open spec fn word_len(text: Seq<char>) -> nat
    decreases text.len(),
{
    if text.len() == 0 || is_white_space(text[0]) {
        0
    } else {
        1 + word_len(text.drop_first())
    }
}

/// The first run of characters without white space.
pub open spec fn first_word(text: Seq<char>) -> Seq<char>
    decreases text.len(),
{
    if text.len() > 0 && is_white_space(text[0]) {
        first_word(text.drop_first())
    } else {
        text.take(word_len(text) as int)
    }
}

/// The resident memory in kibibytes: the first word, as a number, behind the label of the first
/// line that has it.
pub open spec fn rss_kib(status: Seq<char>) -> Option<u64>
    decreases status.len(),
{
    if status.len() == 0 {
        None
    } else {
        let n = line_len(status) as int;
        let line = status.take(n);
        if "VmRSS:"@.is_prefix_of(line) {
            unsigned(first_word(line.skip("VmRSS:"@.len() as int)))
        } else if n < status.len() {
            rss_kib(status.skip(n + 1))
        } else {
            None
        }
    }
}

/// The number that the first word from `start` to `end` spells.
fn first_number(text: &Vec<char>, start: usize, end: usize) -> (n: Option<u64>)
    requires
        start <= end <= text@.len(),
    ensures
        n == unsigned(first_word(text@.subrange(start as int, end as int))),
{
    let mut from: usize = start;
    while from < end && white_space(text[from])
        invariant
            start <= from <= end <= text@.len(),
            first_word(text@.subrange(from as int, end as int)) == first_word(
                text@.subrange(start as int, end as int),
            ),
        decreases end - from,
    {
        assert(text@.subrange(from as int, end as int).drop_first() =~= text@.subrange(
            from + 1,
            end as int,
        ));
        from += 1;
    }
    let ghost rest = text@.subrange(from as int, end as int);
    let mut to: usize = from;
    while to < end && !white_space(text[to])
        invariant
            from <= to <= end <= text@.len(),
            rest == text@.subrange(from as int, end as int),
            word_len(rest) == to - from + word_len(text@.subrange(to as int, end as int)),
        decreases end - to,
    {
        assert(text@.subrange(to as int, end as int).drop_first() =~= text@.subrange(
            to + 1,
            end as int,
        ));
        to += 1;
    }
    assert(text@.subrange(from as int, to as int) =~= rest.take(word_len(rest) as int));
    parse_unsigned(text, from, to)
}

/// Whether the characters from `start` to `end` begin with `label`.
fn begins_with(text: &Vec<char>, start: usize, end: usize, label: &Vec<char>) -> (yes: bool)
    requires
        start <= end <= text@.len(),
    ensures
        yes == label@.is_prefix_of(text@.subrange(start as int, end as int)),
{
    if end - start < label.len() {
        return false;
    }
    let ghost line = text@.subrange(start as int, end as int);
    let mut i: usize = 0;
    while i < label.len()
        invariant
            i <= label@.len() <= end - start,
            start <= end <= text@.len(),
            line == text@.subrange(start as int, end as int),
            forall|j: int| 0 <= j < i ==> label@[j] == line[j],
        decreases label@.len() - i,
    {
        if text[start + i] != label[i] {
            assert(line[i as int] != label@[i as int]);
            assert(line.subrange(0, label@.len() as int)[i as int] == line[i as int]);
            return false;
        }
        i += 1;
    }
    assert(label@ =~= line.subrange(0, label@.len() as int));
    true
}

/// The resident memory in bytes, from the text of the process status file. `None` where the text
/// does not give it, or gives more than can be counted.
pub fn rss_bytes(status: &str) -> (bytes: Option<u64>)
    ensures
        bytes == match rss_kib(status@) {
            Some(kib) if kib * 1024 <= u64::MAX => Some((kib * 1024) as u64),
            _ => None,
        },
{
    let text = chars_of(status);
    let label = chars_of("VmRSS:");
    let mut i: usize = 0;
    assert(text@.skip(0) =~= text@);
    while i < text.len()
        invariant
            i <= text@.len(),
            label@ == "VmRSS:"@,
            rss_kib(text@.skip(i as int)) == rss_kib(text@),
            text@ == status@,
        decreases text@.len() - i,
    {
        let ghost rest = text@.skip(i as int);
        let mut end: usize = i;
        while end < text.len() && text[end] != '\n'
            invariant
                i <= end <= text@.len(),
                rest == text@.skip(i as int),
                line_len(rest) == end - i + line_len(text@.skip(end as int)),
            decreases text@.len() - end,
        {
            assert(text@.skip(end as int).drop_first() =~= text@.skip(end + 1));
            end += 1;
        }
        proof {
            assert(line_len(text@.skip(end as int)) == 0);
            assert(text@.subrange(i as int, end as int) =~= rest.take(line_len(rest) as int));
        }
        if begins_with(&text, i, end, &label) {
            let from: usize = i + label.len();
            assert(text@.subrange(from as int, end as int) =~= rest.take(
                line_len(rest) as int,
            ).skip(label@.len() as int));
            return match first_number(&text, from, end) {
                Some(kib) => kib.checked_mul(1024),
                None => None,
            };
        }
        if end == text.len() {
            return None;
        }
        assert(rest.skip(line_len(rest) as int + 1) =~= text@.skip(end + 1));
        i = end + 1;
    }
    None
}

/// The status text is read line by line, and the first line with the label counts.
pub proof fn law_first_labelled_line_counts(line: Seq<char>, rest: Seq<char>)
    requires
        !line.contains('\n'),
    ensures
        rss_kib(line + seq!['\n'] + rest) == if "VmRSS:"@.is_prefix_of(line) {
            rss_kib(line)
        } else {
            rss_kib(rest)
        },
        line.len() > 0 && !"VmRSS:"@.is_prefix_of(line) ==> rss_kib(line) is None,
{
    reveal_strlit("VmRSS:");
    let text = line + seq!['\n'] + rest;
    lemma_line(line, rest);
    assert(text.take(line.len() as int) =~= line);
    assert(line.take(line.len() as int) =~= line);
    assert(text.skip(line.len() as int + 1) =~= rest);
}

proof fn lemma_line(line: Seq<char>, rest: Seq<char>)
    requires
        !line.contains('\n'),
    ensures
        line_len(line + seq!['\n'] + rest) == line.len(),
        line_len(line) == line.len(),
    decreases line.len(),
{
    let text = line + seq!['\n'] + rest;
    if line.len() > 0 {
        let more = line.drop_first();
        assert(!more.contains('\n')) by {
            if more.contains('\n') {
                let i = choose|i: int| 0 <= i < more.len() && more[i] == '\n';
                assert(line[i + 1] == '\n');
            }
        }
        assert(line[0] != '\n') by {
            assert(line.contains(line[0]));
        }
        lemma_line(more, rest);
        assert(text.drop_first() =~= more + seq!['\n'] + rest);
    }
}

/// Behind the label the line holds, after white space, a number in decimal, which is the memory in
/// kibibytes; what follows it behind white space does not count.
pub proof fn law_labelled_line_gives_its_number(n: u64, gap: Seq<char>, unit: Seq<char>)
    requires
        forall|i: int| 0 <= i < gap.len() ==> is_white_space(#[trigger] gap[i]),
        unit.len() > 0 ==> is_white_space(unit[0]),
        !gap.contains('\n'),
        !unit.contains('\n'),
    ensures
        rss_kib("VmRSS:"@ + gap + dec(n as nat) + unit) == Some(n),
{
    let label = "VmRSS:"@;
    reveal_strlit("VmRSS:");
    let digits = dec(n as nat);
    let line = label + gap + digits + unit;
    lemma_dec_digits(n as nat);
    assert(!line.contains('\n')) by {
        if line.contains('\n') {
            let i = choose|i: int| 0 <= i < line.len() && line[i] == '\n';
            if i < 6 {
                assert(label[i] == '\n');
                assert(label[0] == 'V' && label[1] == 'm' && label[2] == 'R' && label[3] == 'S'
                    && label[4] == 'S' && label[5] == ':');
            } else if i < 6 + gap.len() {
                assert(gap[i - 6] == '\n');
            } else if i < 6 + gap.len() + digits.len() {
                assert(is_digit(digits[i - 6 - gap.len()]));
            } else {
                assert(unit[i - 6 - gap.len() - digits.len()] == '\n');
            }
        }
    }
    lemma_line(line, Seq::empty());
    assert(line.take(line.len() as int) =~= line);
    let rest = gap + digits + unit;
    assert(label.is_prefix_of(line)) by {
        assert(line.subrange(0, 6) =~= label);
    }
    assert(line.skip(6) =~= rest);
    lemma_first_word(gap, digits, unit);
    lemma_decimal(digits);
    assert(is_digit(digits[0]));
}

proof fn lemma_first_word(gap: Seq<char>, word: Seq<char>, rest: Seq<char>)
    requires
        forall|i: int| 0 <= i < gap.len() ==> is_white_space(#[trigger] gap[i]),
        word.len() > 0,
        forall|i: int| 0 <= i < word.len() ==> is_digit(#[trigger] word[i]),
        rest.len() > 0 ==> is_white_space(rest[0]),
    ensures
        first_word(gap + word + rest) == word,
    decreases gap.len(),
{
    let text = gap + word + rest;
    if gap.len() > 0 {
        assert(is_white_space(gap[0]));
        assert(text[0] == gap[0]);
        let more = gap.drop_first();
        assert forall|i: int| 0 <= i < more.len() implies is_white_space(#[trigger] more[i]) by {
            assert(more[i] == gap[i + 1]);
        }
        assert(text.drop_first() =~= more + word + rest);
        lemma_first_word(more, word, rest);
    } else {
        assert(text =~= word + rest);
        assert(is_digit(word[0]));
        assert(text[0] == word[0]);
        lemma_word(word, rest);
        assert(text.take(word.len() as int) =~= word);
    }
}

proof fn lemma_word(word: Seq<char>, rest: Seq<char>)
    requires
        forall|i: int| 0 <= i < word.len() ==> is_digit(#[trigger] word[i]),
        rest.len() > 0 ==> is_white_space(rest[0]),
    ensures
        word_len(word + rest) == word.len(),
    decreases word.len(),
{
    let text = word + rest;
    if word.len() > 0 {
        assert(is_digit(word[0]));
        assert(text[0] == word[0]);
        let more = word.drop_first();
        assert forall|i: int| 0 <= i < more.len() implies is_digit(#[trigger] more[i]) by {
            assert(more[i] == word[i + 1]);
        }
        assert(text.drop_first() =~= more + rest);
        lemma_word(more, rest);
    } else {
        assert(text =~= rest);
    }
}

proof fn lemma_decimal(digits: Seq<char>)
    requires
        forall|i: int| 0 <= i < digits.len() ==> is_digit(#[trigger] digits[i]),
    ensures
        decimal(digits) == Some(digits_value(digits)),
    decreases digits.len(),
{
    if digits.len() > 0 {
        assert(is_digit(digits.last()));
        let fewer = digits.drop_last();
        assert forall|i: int| 0 <= i < fewer.len() implies is_digit(#[trigger] fewer[i]) by {
            assert(fewer[i] == digits[i]);
        }
        lemma_decimal(fewer);
    }
}

} // verus!
