//! Splitting byte text into lines and fields.

use vstd::prelude::*;
use vstd::slice::slice_subrange;

verus! {

/// The ASCII white space: space, tab, line feed, vertical tab, form feed, carriage return.
pub open spec fn is_space(b: u8) -> bool {
    b == 0x20 || 0x09 <= b <= 0x0d
}

/// The number of bytes before the first white space.
pub open spec fn word_len(s: Seq<u8>) -> nat
    decreases s.len(),
{
    if s.len() == 0 || is_space(s[0]) {
        0
    } else {
        1 + word_len(s.drop_first())
    }
}

/// The maximal runs of bytes without white space, in order.
pub open spec fn words(s: Seq<u8>) -> Seq<Seq<u8>>
    decreases s.len(),
{
    if s.len() == 0 {
        Seq::empty()
    } else if is_space(s[0]) {
        words(s.drop_first())
    } else {
        let n = word_len(s) as int;
        if 0 < n <= s.len() {
            seq![s.take(n)] + words(s.skip(n))
        } else {
            Seq::empty()
        }
    }
}

/// The number of bytes before the first line feed.
pub open spec fn line_len(s: Seq<u8>) -> nat
    decreases s.len(),
{
    if s.len() == 0 || s[0] == 0x0a {
        0
    } else {
        1 + line_len(s.drop_first())
    }
}

/// What follows the first line.
pub open spec fn after_line(s: Seq<u8>) -> Seq<u8> {
    let n = line_len(s);
    if n < s.len() {
        s.skip(n as int + 1)
    } else {
        Seq::empty()
    }
}

pub proof fn lemma_word_len_bound(s: Seq<u8>)
    ensures
        word_len(s) <= s.len(),
    decreases s.len(),
{
    if s.len() > 0 && !is_space(s[0]) {
        lemma_word_len_bound(s.drop_first());
    }
}

pub proof fn lemma_line_len_bound(s: Seq<u8>)
    ensures
        line_len(s) <= s.len(),
    decreases s.len(),
{
    if s.len() > 0 && s[0] != 0x0a {
        lemma_line_len_bound(s.drop_first());
    }
}

/// The byte contents of a run of slices.
pub open spec fn contents(slices: Seq<&[u8]>) -> Seq<Seq<u8>> {
    slices.map_values(|s: &[u8]| s@)
}

/// Finds the end of the line that begins at `from`.
pub fn line_end(data: &[u8], from: usize) -> (end: usize)
    requires
        from <= data@.len(),
    ensures
        from <= end <= data@.len(),
        end - from == line_len(data@.skip(from as int)),
        end < data@.len() ==> data@[end as int] == 0x0a,
{
    let mut end: usize = from;
    proof {
        assert(data@.skip(from as int).skip(0) =~= data@.skip(from as int));
    }
    while end < data.len() && data[end] != 0x0a
        invariant
            from <= end <= data@.len(),
            line_len(data@.skip(from as int)) == end - from + line_len(data@.skip(end as int)),
        decreases data@.len() - end,
    {
        assert(data@.skip(end as int).drop_first() =~= data@.skip(end + 1));
        end += 1;
    }
    end
}

/// The words of `line`.
pub fn split_words<'a>(line: &'a [u8]) -> (out: Vec<&'a [u8]>)
    ensures
        contents(out@) == words(line@),
{
    let mut out: Vec<&'a [u8]> = Vec::new();
    let mut i: usize = 0;
    proof {
        assert(line@.skip(0) =~= line@);
        assert(contents(out@) =~= Seq::empty());
        assert(contents(out@) + words(line@) =~= words(line@));
    }
    while i < line.len()
        invariant
            i <= line@.len(),
            contents(out@) + words(line@.skip(i as int)) == words(line@),
        decreases line@.len() - i,
    {
        let ghost rest = line@.skip(i as int);
        if is_space_byte(line[i]) {
            assert(rest.drop_first() =~= line@.skip(i + 1));
            i += 1;
        } else {
            let start: usize = i;
            while i < line.len() && !is_space_byte(line[i])
                invariant
                    start <= i <= line@.len(),
                    rest == line@.skip(start as int),
                    word_len(rest) == i - start + word_len(line@.skip(i as int)),
                decreases line@.len() - i,
            {
                assert(line@.skip(i as int).drop_first() =~= line@.skip(i + 1));
                i += 1;
            }
            let word = slice_subrange(line, start, i);
            let ghost before = out@;
            out.push(word);
            proof {
                lemma_word_len_bound(rest);
                assert(word_len(rest) == i - start);
                assert(word@ =~= rest.take(i - start));
                assert(rest.skip(i - start) =~= line@.skip(i as int));
                assert(contents(out@) =~= contents(before).push(word@));
                assert(contents(out@) + words(line@.skip(i as int)) =~= contents(before) + (seq![
                    word@,
                ] + words(line@.skip(i as int))));
            }
        }
    }
    proof {
        assert(words(line@.skip(i as int)) =~= Seq::empty());
        assert(contents(out@) =~= words(line@));
    }
    out
}

fn is_space_byte(b: u8) -> (space: bool)
    ensures
        space == is_space(b),
{
    b == 0x20 || (0x09 <= b && b <= 0x0d)
}

/// The first word of a text is what stands, behind any white space, before the next white space or
/// the end; the others are those of what follows it. White space alone holds no word.
pub proof fn law_words_stand_between_white_space(gap: Seq<u8>, word: Seq<u8>, rest: Seq<u8>)
    requires
        forall|i: int| 0 <= i < gap.len() ==> is_space(#[trigger] gap[i]),
        forall|i: int| 0 <= i < word.len() ==> !is_space(#[trigger] word[i]),
        word.len() > 0,
        rest.len() > 0 ==> is_space(rest[0]),
    ensures
        words(gap + word + rest) == seq![word] + words(rest),
        words(gap) == Seq::<Seq<u8>>::empty(),
    decreases gap.len(),
{
    let s = gap + word + rest;
    if gap.len() > 0 {
        let more = gap.drop_first();
        assert forall|i: int| 0 <= i < more.len() implies is_space(#[trigger] more[i]) by {
            assert(more[i] == gap[i + 1]);
        }
        assert(is_space(gap[0]));
        assert(s[0] == gap[0]);
        assert(s.drop_first() =~= more + word + rest);
        law_words_stand_between_white_space(more, word, rest);
    } else {
        assert(s =~= word + rest);
        lemma_word_len(word, rest);
        assert(s[0] == word[0]);
        assert(s.take(word.len() as int) =~= word);
        assert(s.skip(word.len() as int) =~= rest);
    }
}

proof fn lemma_word_len(word: Seq<u8>, rest: Seq<u8>)
    requires
        forall|i: int| 0 <= i < word.len() ==> !is_space(#[trigger] word[i]),
        rest.len() > 0 ==> is_space(rest[0]),
    ensures
        word_len(word + rest) == word.len(),
    decreases word.len(),
{
    let s = word + rest;
    if word.len() > 0 {
        let more = word.drop_first();
        assert forall|i: int| 0 <= i < more.len() implies !is_space(#[trigger] more[i]) by {
            assert(more[i] == word[i + 1]);
        }
        assert(!is_space(word[0]));
        assert(s.drop_first() =~= more + rest);
        lemma_word_len(more, rest);
    } else {
        assert(s =~= rest);
    }
}

/// A line ends before the first line feed, which belongs to no line; without one it is the whole
/// text.
pub proof fn law_line_ends_at_the_line_feed(line: Seq<u8>, rest: Seq<u8>)
    requires
        !line.contains(0x0a),
    ensures
        line_len(line + seq![0x0au8] + rest) == line.len(),
        after_line(line + seq![0x0au8] + rest) == rest,
        line_len(line) == line.len(),
        after_line(line) == Seq::<u8>::empty(),
    decreases line.len(),
{
    let s = line + seq![0x0au8] + rest;
    if line.len() > 0 {
        let more = line.drop_first();
        assert(!more.contains(0x0a)) by {
            if more.contains(0x0a) {
                let i = choose|i: int| 0 <= i < more.len() && more[i] == 0x0a;
                assert(line[i + 1] == 0x0a);
            }
        }
        assert(line[0] != 0x0a) by {
            assert(line.contains(line[0]));
        }
        law_line_ends_at_the_line_feed(more, rest);
        assert(s.drop_first() =~= more + seq![0x0au8] + rest);
    }
    assert(s.skip(line.len() as int + 1) =~= rest);
}

/// White space is the space, the tab, the line feed, the vertical tab, the form feed and the
/// carriage return, and no other byte.
pub proof fn law_six_bytes_are_white_space(b: u8)
    ensures
        is_space(b) <==> seq![0x20u8, 0x09, 0x0a, 0x0b, 0x0c, 0x0d].contains(b),
{
    let all = seq![0x20u8, 0x09, 0x0a, 0x0b, 0x0c, 0x0d];
    assert(all[0] == 0x20 && all[1] == 0x09 && all[2] == 0x0a && all[3] == 0x0b && all[4] == 0x0c
        && all[5] == 0x0d);
}

} // verus!
