//! When an output stream goes on to its next chunk, and what a chunk is called.

use vstd::arithmetic::div_mod::lemma_fundamental_div_mod_converse_div;
use vstd::prelude::*;
use vstd::string::*;
use crate::ek_output::lines::law_padded_number_reads_back;
use crate::ek_output::reading::{digits_value, is_digit};
use crate::text::{dec, dec_padded, push_dec_padded};
use crate::time::{elapsed, elapsed_between, Duration};

verus! {

/// What ends a chunk. There is no mode in which whichever comes first does.
#[derive(Clone, Copy, Debug)]
pub enum RotateBy {
    /// This many messages.
    Count(u64),
    /// This much time since the chunk was opened.
    Seconds(Duration),
    /// Nothing: there is one chunk only.
    Never,
}

/// The chunk that is open.
struct Chunk {
    messages_written: u64,
    opened_at: Duration,
}

/// The chunk that is open, and how many have been opened.
pub struct Rotation {
    rotate_by: RotateBy,
    current: Option<Chunk>,
    chunk_counter: u64,
}

/// What a `Rotation` holds: the rule, the open chunk's messages and when it was opened, and the
/// number of chunks opened.
pub struct RotationModel {
    pub rotate_by: RotateBy,
    pub current: Option<(u64, nat)>,
    pub chunk_counter: u64,
}

impl View for Rotation {
    type V = RotationModel;

    closed spec fn view(&self) -> RotationModel {
        RotationModel {
            rotate_by: self.rotate_by,
            current: match self.current {
                Some(chunk) => Some((chunk.messages_written, chunk.opened_at@)),
                None => None,
            },
            chunk_counter: self.chunk_counter,
        }
    }
}

impl RotationModel {
    /// A new chunk is to be opened before the next message: there is none, or the open one is
    /// full.
    pub open spec fn due(self, now: nat) -> bool {
        match (self.current, self.rotate_by) {
            (None, _) => true,
            (Some(_), RotateBy::Never) => false,
            (Some((messages, _)), RotateBy::Count(n)) => messages >= n,
            (Some((_, opened_at)), RotateBy::Seconds(d)) => elapsed(opened_at, now) >= d@,
        }
    }

    pub open spec fn opened(self, now: nat) -> RotationModel {
        RotationModel {
            current: Some((0, now)),
            chunk_counter: (self.chunk_counter + 1) as u64,
            ..self
        }
    }

    pub open spec fn wrote(self) -> RotationModel {
        RotationModel {
            current: match self.current {
                Some((messages, opened_at)) => Some(((messages + 1) as u64, opened_at)),
                None => None,
            },
            ..self
        }
    }

    /// The state after one more message, with the chunk that it goes into opened first if due.
    pub open spec fn message(self, now: nat) -> RotationModel {
        if self.due(now) {
            self.opened(now).wrote()
        } else {
            self.wrote()
        }
    }

    /// The open chunk holds no more messages than the rule's count, or one at most under a count of
    /// zero.
    pub open spec fn within(self) -> bool {
        self.rotate_by matches RotateBy::Count(n) ==> (self.current matches Some((messages, _))
            ==> messages <= n || messages <= 1)
    }
}

/// A chunk never holds more messages than its count, however many are written; under a count of
/// zero it holds one.
pub proof fn law_count_is_kept(r: RotationModel, now: nat)
    requires
        r.within(),
        r.current matches Some((messages, _)) ==> messages < u64::MAX,
    ensures
        r.message(now).within(),
        r.message(now).current is Some,
{
}

/// The state and the chunks after the first `k` of `messages`, each written at its own time: a
/// message goes into the open chunk, or into a new one where that is due.
pub open spec fn written<M>(
    rotate_by: RotateBy,
    messages: Seq<M>,
    times: Seq<nat>,
    k: int,
) -> (RotationModel, Seq<Seq<M>>)
    decreases k,
{
    if k <= 0 {
        (RotationModel { rotate_by, current: None, chunk_counter: 0 }, Seq::empty())
    } else {
        let (r, chunks) = written(rotate_by, messages, times, k - 1);
        let now = times[k - 1];
        let after = r.message(now);
        if r.due(now) {
            (after, chunks.push(seq![messages[k - 1]]))
        } else {
            (after, chunks.drop_last().push(chunks.last().push(messages[k - 1])))
        }
    }
}

/// No message is lost, split or reordered, whatever ends a chunk: the chunks one after the other
/// are the messages, chunks are numbered as they are opened, and none is opened for nothing.
pub proof fn law_chunks_hold_the_messages<M>(
    rotate_by: RotateBy,
    messages: Seq<M>,
    times: Seq<nat>,
    k: int,
)
    requires
        0 <= k <= messages.len(),
        k <= u64::MAX,
    ensures
        ({
            let (r, chunks) = written(rotate_by, messages, times, k);
            &&& chunks.flatten() == messages.take(k)
            &&& r.chunk_counter == chunks.len() <= k
            &&& r.rotate_by == rotate_by
            &&& k == 0 <==> chunks.len() == 0
            &&& match r.current {
                Some((count, _)) => chunks.len() > 0 && count == chunks.last().len() && count > 0,
                None => k == 0,
            }
        }),
    decreases k,
{
    let (r, chunks) = written(rotate_by, messages, times, k);
    if k == 0 {
        assert(chunks.flatten() =~= messages.take(0));
    } else {
        law_chunks_hold_the_messages(rotate_by, messages, times, k - 1);
        let (before, earlier) = written(rotate_by, messages, times, k - 1);
        let message = messages[k - 1];
        assert(messages.take(k) =~= messages.take(k - 1).push(message));
        if before.due(times[k - 1]) {
            earlier.lemma_flatten_push(seq![message]);
            assert(chunks.flatten() =~= messages.take(k));
        } else {
            let rest = earlier.drop_last();
            assert(earlier =~= rest.push(earlier.last()));
            rest.lemma_flatten_push(earlier.last());
            rest.lemma_flatten_push(earlier.last().push(message));
            assert(chunks.flatten() =~= messages.take(k));
            assert(earlier.flatten().len() == k - 1);
            assert(earlier.last().len() <= earlier.flatten().len());
        }
    }
}

/// A stream that rotates after `n` messages puts message `(j - 1) * n + 1` to `j * n`, as far as
/// there are so many, into chunk `j`: after `k` messages there are `k / n` chunks, rounded up, and
/// all but the last are full.
pub proof fn law_count_cuts_evenly<M>(n: u64, messages: Seq<M>, times: Seq<nat>, k: int)
    requires
        n >= 1,
        0 <= k <= messages.len(),
        k <= u64::MAX,
    ensures
        ({
            let (r, chunks) = written(RotateBy::Count(n), messages, times, k);
            &&& r.chunk_counter == (k + n - 1) / n as int
            &&& chunks.len() == (k + n - 1) / n as int
            &&& forall|j: int|
                0 <= j < chunks.len() ==> #[trigger] chunks[j] == messages.subrange(
                    j * n,
                    if (j + 1) * n <= k {
                        (j + 1) * n
                    } else {
                        k
                    },
                )
        }),
{
    let (r, chunks) = written(RotateBy::Count(n), messages, times, k);
    law_chunks_hold_the_messages(RotateBy::Count(n), messages, times, k);
    if k == 0 {
        assert((n - 1) / n as int == 0) by (nonlinear_arith)
            requires
                n >= 1,
        ;
    } else {
        lemma_count_cuts(n, messages, times, k);
        let c = chunks.len() as int;
        let m = (r.current->0).0;
        assert(k + n - 1 == c * n + (m - 1)) by (nonlinear_arith)
            requires
                k == (c - 1) * n + m,
        ;
        lemma_fundamental_div_mod_converse_div(k + n - 1, n as int, c, m - 1);
        assert forall|j: int| 0 <= j < chunks.len() implies #[trigger] chunks[j]
            == messages.subrange(
            j * n,
            if (j + 1) * n <= k {
                (j + 1) * n
            } else {
                k
            },
        ) by {
            if j < c - 1 {
                assert((j + 1) * n <= k) by (nonlinear_arith)
                    requires
                        0 <= j < c - 1,
                        n >= 1,
                        k == (c - 1) * n + m,
                        m >= 1,
                ;
            } else {
                assert((j + 1) * n >= k) by (nonlinear_arith)
                    requires
                        j == c - 1,
                        m <= n,
                        k == (c - 1) * n + m,
                ;
            }
        }
    }
}

proof fn lemma_count_cuts<M>(n: u64, messages: Seq<M>, times: Seq<nat>, k: int)
    requires
        n >= 1,
        0 < k <= messages.len(),
        k <= u64::MAX,
    ensures
        ({
            let (r, chunks) = written(RotateBy::Count(n), messages, times, k);
            let c = chunks.len();
            &&& r.rotate_by == RotateBy::Count(n)
            &&& c >= 1
            &&& r.current matches Some((m, _)) && 1 <= m <= n && k == (c - 1) * n + m
            &&& forall|j: int|
                0 <= j < c - 1 ==> #[trigger] chunks[j] == messages.subrange(j * n, (j + 1) * n)
            &&& chunks[c - 1] == messages.subrange((c - 1) * n, k)
        }),
    decreases k,
{
    let (r, chunks) = written(RotateBy::Count(n), messages, times, k);
    let (before, earlier) = written(RotateBy::Count(n), messages, times, k - 1);
    let now = times[k - 1];
    if k == 1 {
        assert(earlier =~= Seq::empty());
        assert(chunks.len() == 1);
        assert(0 * n == 0);
        assert(chunks[0] =~= messages.subrange(0, 1));
    } else {
        lemma_count_cuts(n, messages, times, k - 1);
        let e = earlier.len() as int;
        let m = (before.current->0).0;
        if before.due(now) {
            assert(k - 1 == e * n) by (nonlinear_arith)
                requires
                    k - 1 == (e - 1) * n + m,
                    m == n,
            ;
            assert(chunks[e] =~= messages.subrange(e * n, k));
            assert forall|j: int| 0 <= j < chunks.len() - 1 implies #[trigger] chunks[j]
                == messages.subrange(j * n, (j + 1) * n) by {
                assert(chunks[j] == earlier[j]);
                if j == e - 1 {
                    assert((j + 1) * n == k - 1);
                }
            }
        } else {
            assert(chunks.len() == e);
            assert((e - 1) * n >= 0) by (nonlinear_arith)
                requires
                    e >= 1,
            ;
            assert(chunks[e - 1] =~= messages.subrange((e - 1) * n, k));
            assert forall|j: int| 0 <= j < chunks.len() - 1 implies #[trigger] chunks[j]
                == messages.subrange(j * n, (j + 1) * n) by {
                assert(chunks[j] == earlier[j]);
            }
        }
    }
}

/// A stream that never rotates puts all messages into one chunk.
pub proof fn law_never_fills_one_chunk<M>(messages: Seq<M>, times: Seq<nat>, k: int)
    requires
        0 < k <= messages.len(),
        k <= u64::MAX,
    ensures
        ({
            let (r, chunks) = written(RotateBy::Never, messages, times, k);
            r.chunk_counter == 1 && chunks == seq![messages.take(k)]
        }),
    decreases k,
{
    let (r, chunks) = written(RotateBy::Never, messages, times, k);
    law_chunks_hold_the_messages(RotateBy::Never, messages, times, k - 1);
    if k > 1 {
        law_never_fills_one_chunk(messages, times, k - 1);
    }
    assert(messages.take(k) =~= messages.take(k - 1).push(messages[k - 1]));
    assert(messages.take(1) =~= seq![messages[0]]);
    assert(chunks =~= seq![messages.take(k)]);
}

impl Rotation {
    pub fn new(rotate_by: RotateBy) -> (r: Rotation)
        ensures
            r@ == (RotationModel { rotate_by, current: None, chunk_counter: 0 }),
    {
        Rotation { rotate_by, current: None, chunk_counter: 0 }
    }

    /// Whether a new chunk is to be opened before the next message.
    pub fn rotate_if_needed(&self, now: Duration) -> (due: bool)
        ensures
            due == self@.due(now@),
    {
        match (&self.current, self.rotate_by) {
            (None, _) => true,
            (Some(_), RotateBy::Never) => false,
            (Some(c), RotateBy::Count(n)) => c.messages_written >= n,
            (Some(c), RotateBy::Seconds(d)) => elapsed_between(c.opened_at, now).as_nanos()
                >= d.as_nanos(),
        }
    }

    /// Whether one more chunk and one more message can be counted.
    pub fn has_room(&self) -> (yes: bool)
        ensures
            yes == (self@.chunk_counter < u64::MAX && (self@.current matches Some((messages, _))
                ==> messages < u64::MAX)),
    {
        let messages_fit = match &self.current {
            Some(c) => c.messages_written < u64::MAX,
            None => true,
        };
        self.chunk_counter < u64::MAX && messages_fit
    }

    /// Counts a chunk opened at `now`. Returns its number, counted from one.
    pub fn open_new(&mut self, now: Duration) -> (counter: u64)
        requires
            old(self)@.chunk_counter < u64::MAX,
        ensures
            final(self)@ == old(self)@.opened(now@),
            counter == final(self)@.chunk_counter,
    {
        self.chunk_counter = self.chunk_counter + 1;
        self.current = Some(Chunk { messages_written: 0, opened_at: now });
        self.chunk_counter
    }

    /// Counts a message written into the open chunk.
    pub fn note_written(&mut self)
        requires
            old(self)@.current matches Some((messages, _)) ==> messages < u64::MAX,
        ensures
            final(self)@ == old(self)@.wrote(),
    {
        if let Some(chunk) = &mut self.current {
            chunk.messages_written = chunk.messages_written + 1;
        }
    }

    /// Counts the open chunk as finished. Returns how many messages it holds; nothing if none was
    /// open, so that finishing twice does no harm.
    pub fn finish_current(&mut self) -> (messages: Option<u64>)
        ensures
            final(self)@ == (RotationModel { current: None, ..old(self)@ }),
            messages == match old(self)@.current {
                Some((messages, _)) => Some(messages),
                None => None,
            },
    {
        match self.current.take() {
            Some(chunk) => Some(chunk.messages_written),
            None => None,
        }
    }
}

/// What follows the prefix in a chunk's name: its number in six digits, when it was opened, and
/// the file type.
pub open spec fn suffix_text(counter: u64, stamp: Seq<char>) -> Seq<char> {
    seq!['_'] + dec_padded(counter as nat, 6) + seq!['_'] + stamp + ".gz"@
}

/// See `suffix_text`.
pub fn chunk_suffix(counter: u64, stamp: &str) -> (out: String)
    ensures
        out@ == suffix_text(counter, stamp@),
{
    let mut out = String::new();
    out.push('_');
    push_dec_padded(&mut out, counter as u128, 6);
    out.push('_');
    out.append(stamp);
    out.append(".gz");
    assert(out@ =~= suffix_text(counter, stamp@));
    out
}

/// When a new chunk is opened before a message: always where none is open; never else where there
/// is no rule; under a count, once the open one holds that many; under a time, once that has passed
/// since it was opened.
pub proof fn law_chunk_is_cut_by_its_rule(
    r: RotationModel,
    now: nat,
    messages: u64,
    opened_at: nat,
)
    ensures
        r.current is None ==> r.due(now),
        r.current == Some((messages, opened_at)) && r.rotate_by is Never ==> !r.due(now),
        r.current == Some((messages, opened_at)) ==> (r.rotate_by matches RotateBy::Count(n) ==> (
        r.due(now) <==> messages >= n)),
        r.current == Some((messages, opened_at)) ==> (r.rotate_by matches RotateBy::Seconds(d)
            ==> d@ > 0 ==> (r.due(now) <==> now >= opened_at + d@)),
        r.due(now) ==> r.message(now).current == Some((1u64, now)),
        !r.due(now) && r.current == Some((messages, opened_at)) && messages < u64::MAX
            ==> r.message(now).current == Some(((messages + 1) as u64, opened_at)),
        r.due(now) && r.chunk_counter < u64::MAX ==> r.message(now).chunk_counter == r.chunk_counter
            + 1,
        !r.due(now) ==> r.message(now).chunk_counter == r.chunk_counter,
{
}

/// A chunk's name goes on with its number, in six digits or more, and the time it was opened, and
/// ends in `.gz`.
pub proof fn law_suffix_holds_the_number(counter: u64, stamp: Seq<char>) -> (digits: Seq<char>)
    ensures
        suffix_text(counter, stamp) == seq!['_'] + digits + seq!['_'] + stamp + seq![
            '.',
            'g',
            'z',
        ],
        digits_value(digits) == counter,
        digits.len() >= 6,
        counter < 1000000 ==> digits.len() == 6,
        forall|i: int| 0 <= i < digits.len() ==> is_digit(#[trigger] digits[i]),
{
    reveal_strlit(".gz");
    assert(".gz"@ =~= seq!['.', 'g', 'z']);
    law_padded_number_reads_back(counter as nat, 6);
    reveal_with_fuel(dec, 7);
    dec_padded(counter as nat, 6)
}

} // verus!
