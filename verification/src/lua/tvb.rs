//! `Tvb` and `TvbRange`: the bytes that a dissector slices.

use std::ops::Range;
use std::rc::Rc;
use vstd::prelude::*;
use vstd::slice::slice_subrange;
use vstd::string::*;
use crate::text::{dec, push_dec};

verus! {

/// The whole of the bytes handed to a dissector.
pub struct Tvb {
    pub data: Rc<Vec<u8>>,
}

/// A window into the bytes of a `Tvb`.
pub struct TvbRange {
    pub data: Rc<Vec<u8>>,
    pub range: Range<usize>,
}

/// Why a range could not be had or read.
#[derive(Clone, Copy, Debug, PartialEq, Eq, Structural)]
pub enum TvbError {
    /// `length` bytes at `offset` do not lie within a window of `available` bytes.
    OutOfBounds { offset: i64, length: i64, available: usize },
    /// A range of `len` bytes is no integer of one to eight bytes.
    NotAnInteger { len: usize },
}

/// A signed integer taken modulo 2^64.
pub open spec fn two_complement(i: i64) -> u64 {
    if i >= 0 {
        i as u64
    } else {
        (i + 0x1_0000_0000_0000_0000) as u64
    }
}

pub(crate) fn to_unsigned(i: i64) -> (n: u64)
    ensures
        n == two_complement(i),
{
    if i >= 0 {
        i as u64
    } else {
        (i as i128 + 0x1_0000_0000_0000_0000) as u64
    }
}

impl TvbError {
    /// What is said of the error. A negative number is shown as what it is modulo 2^64.
    pub open spec fn text(self) -> Seq<char> {
        match self {
            TvbError::OutOfBounds { offset, length, available } => "Tvb/TvbRange: range "@ + dec(
                two_complement(offset) as nat,
            ) + ".."@ + dec((two_complement(offset) + two_complement(length)) as nat)
                + " out of bounds (len "@ + dec(available as nat) + ")"@,
            TvbError::NotAnInteger { len } => "TvbRange: cannot parse "@ + dec(len as nat)
                + "-byte range as an integer"@,
        }
    }

    pub fn message(&self) -> (out: String)
        ensures
            out@ == self.text(),
    {
        let mut out = String::new();
        match *self {
            TvbError::OutOfBounds { offset, length, available } => {
                out.append("Tvb/TvbRange: range ");
                push_dec(&mut out, to_unsigned(offset) as u128);
                out.append("..");
                push_dec(&mut out, to_unsigned(offset) as u128 + to_unsigned(length) as u128);
                out.append(" out of bounds (len ");
                push_dec(&mut out, available as u128);
                out.append(")");
            },
            TvbError::NotAnInteger { len } => {
                out.append("TvbRange: cannot parse ");
                push_dec(&mut out, len as u128);
                out.append("-byte range as an integer");
            },
        }
        assert(out@ =~= self.text());
        out
    }
}

/// The window that `length` bytes at `offset` are, within the window of `base_len` bytes at
/// `base_start`. Without a length the window reaches to the end.
pub open spec fn window(base_start: usize, base_len: usize, offset: i64, length: Option<i64>) -> Result<
    (int, int),
    TvbError,
> {
    let len = match length {
        Some(length) => length as int,
        None => if 0 <= offset <= base_len {
            base_len - offset
        } else {
            0
        },
    };
    if offset < 0 || len < 0 || offset + len > base_len {
        Err(
            TvbError::OutOfBounds {
                offset,
                length: match length {
                    Some(length) => length,
                    None => 0,
                },
                available: base_len,
            },
        )
    } else {
        Ok((base_start + offset, base_start + offset + len))
    }
}

/// Slices a window of a buffer. `offset` counts from the start of the window `base_start`,
/// `base_len`, not from the start of the buffer.
fn slice(
    data: &Rc<Vec<u8>>,
    base_start: usize,
    base_len: usize,
    offset: i64,
    length: Option<i64>,
) -> (range: Result<TvbRange, TvbError>)
    requires
        base_start + base_len <= data@.len(),
    ensures
        match range {
            Ok(r) => {
                &&& r.data == *data
                &&& window(base_start, base_len, offset, length) == Ok::<(int, int), TvbError>(
                    (r.range.start as int, r.range.end as int),
                )
                &&& r.wf()
            },
            Err(e) => window(base_start, base_len, offset, length) == Err::<(int, int), TvbError>(
                e,
            ),
        },
{
    let len: i64 = match length {
        Some(length) => length,
        None => 0,
    };
    if offset < 0 || len < 0 || offset as u128 + len as u128 > base_len as u128 {
        return Err(TvbError::OutOfBounds { offset, length: len, available: base_len });
    }
    assert(data@.len() <= data.len());
    let start: usize = base_start + offset as usize;
    let end: usize = match length {
        Some(length) => start + length as usize,
        None => base_start + base_len,
    };
    Ok(TvbRange { data: data.clone(), range: Range { start, end } })
}

/// The number that bytes spell, the most significant first.
pub open spec fn be_value(s: Seq<u8>) -> nat
    decreases s.len(),
{
    if s.len() == 0 {
        0
    } else {
        be_value(s.drop_last()) * 256 + s.last() as nat
    }
}

pub open spec fn pow256(n: nat) -> nat
    decreases n,
{
    if n == 0 {
        1
    } else {
        256 * pow256((n - 1) as nat)
    }
}

proof fn lemma_be_value_bound(s: Seq<u8>)
    ensures
        be_value(s) < pow256(s.len()),
    decreases s.len(),
{
    if s.len() > 0 {
        lemma_be_value_bound(s.drop_last());
    }
}

/// The integer that one to eight bytes spell.
pub open spec fn uint_of(bytes: Seq<u8>, little_endian: bool) -> Option<nat> {
    if bytes.len() == 0 || bytes.len() > 8 {
        None
    } else if little_endian {
        Some(be_value(bytes.reverse()))
    } else {
        Some(be_value(bytes))
    }
}

fn parse_uint(bytes: &[u8], little_endian: bool) -> (n: Result<u64, TvbError>)
    ensures
        match n {
            Ok(n) => uint_of(bytes@, little_endian) == Some(n as nat),
            Err(e) => {
                &&& uint_of(bytes@, little_endian) is None
                &&& e == (TvbError::NotAnInteger { len: bytes@.len() as usize })
            },
        },
{
    let len: usize = bytes.len();
    if len == 0 || len > 8 {
        return Err(TvbError::NotAnInteger { len });
    }
    let ghost all = if little_endian { bytes@.reverse() } else { bytes@ };
    let mut n: u64 = 0;
    let mut i: usize = 0;
    while i < len
        invariant
            i <= len <= 8,
            len == bytes@.len(),
            all == if little_endian { bytes@.reverse() } else { bytes@ },
            n == be_value(all.take(i as int)),
        decreases len - i,
    {
        let b: u8 = if little_endian { bytes[len - 1 - i] } else { bytes[i] };
        proof {
            assert(all.take(i + 1).drop_last() =~= all.take(i as int));
            assert(all.take(i + 1).last() == b);
            lemma_be_value_bound(all.take(i as int));
            reveal_with_fuel(pow256, 9);
        }
        n = n * 256 + b as u64;
        i += 1;
    }
    assert(all.take(len as int) =~= all);
    Ok(n)
}

impl Tvb {
    pub fn new(data: Vec<u8>) -> (tvb: Tvb)
        ensures
            tvb.data@ == data@,
    {
        Tvb { data: Rc::new(data) }
    }

    pub fn len(&self) -> (n: usize)
        ensures
            n == self.data@.len(),
    {
        self.data.len()
    }

    /// `length` bytes at `offset`; to the end, without a length.
    pub fn slice(&self, offset: i64, length: Option<i64>) -> (range: Result<TvbRange, TvbError>)
        ensures
            match range {
                Ok(r) => {
                    &&& r.data == self.data
                    &&& window(0, self.data@.len() as usize, offset, length) == Ok::<
                        (int, int),
                        TvbError,
                    >((r.range.start as int, r.range.end as int))
                    &&& r.wf()
                },
                Err(e) => window(0, self.data@.len() as usize, offset, length) == Err::<
                    (int, int),
                    TvbError,
                >(e),
            },
    {
        slice(&self.data, 0, self.data.len(), offset, length)
    }
}

impl TvbRange {
    /// The window lies within the bytes.
    pub open spec fn wf(&self) -> bool {
        self.range.start <= self.range.end <= self.data@.len()
    }

    /// The bytes in the window.
    pub open spec fn content(&self) -> Seq<u8> {
        self.data@.subrange(self.range.start as int, self.range.end as int)
    }

    pub fn len(&self) -> (n: usize)
        requires
            self.wf(),
        ensures
            n == self.content().len(),
    {
        self.range.end - self.range.start
    }

    pub fn bytes(&self) -> (bytes: &[u8])
        requires
            self.wf(),
        ensures
            bytes@ == self.content(),
    {
        slice_subrange(self.data.as_slice(), self.range.start, self.range.end)
    }

    /// The bytes as an integer, the most significant first.
    pub fn uint_be(&self) -> (n: Result<u64, TvbError>)
        requires
            self.wf(),
        ensures
            match n {
                Ok(n) => uint_of(self.content(), false) == Some(n as nat),
                Err(e) => uint_of(self.content(), false) is None && e == (TvbError::NotAnInteger {
                    len: self.content().len() as usize,
                }),
            },
    {
        parse_uint(self.bytes(), false)
    }

    /// The bytes as an integer, the least significant first.
    pub fn uint_le(&self) -> (n: Result<u64, TvbError>)
        requires
            self.wf(),
        ensures
            match n {
                Ok(n) => uint_of(self.content(), true) == Some(n as nat),
                Err(e) => uint_of(self.content(), true) is None && e == (TvbError::NotAnInteger {
                    len: self.content().len() as usize,
                }),
            },
    {
        parse_uint(self.bytes(), true)
    }

    /// `length` bytes at `offset` within this window; to its end, without a length.
    pub fn slice(&self, offset: i64, length: Option<i64>) -> (range: Result<TvbRange, TvbError>)
        requires
            self.wf(),
        ensures
            match range {
                Ok(r) => {
                    &&& r.data == self.data
                    &&& window(
                        self.range.start,
                        self.content().len() as usize,
                        offset,
                        length,
                    ) == Ok::<(int, int), TvbError>((r.range.start as int, r.range.end as int))
                    &&& r.wf()
                },
                Err(e) => window(
                    self.range.start,
                    self.content().len() as usize,
                    offset,
                    length,
                ) == Err::<(int, int), TvbError>(e),
            },
    {
        slice(&self.data, self.range.start, self.len(), offset, length)
    }
}

/// Slicing a slice is slicing once: the bytes at `offset` of a window are those of the whole at
/// the sum of both offsets, as many as were asked for, or all to the window's end.
pub proof fn law_slices_compose(
    data: Seq<u8>,
    base_start: usize,
    base_len: usize,
    offset: i64,
    length: Option<i64>,
)
    requires
        base_start + base_len <= data.len(),
        window(base_start, base_len, offset, length) is Ok,
    ensures
        ({
            let (start, end) = window(base_start, base_len, offset, length)->Ok_0;
            let whole = data.subrange(base_start as int, base_start + base_len);
            let len = match length {
                Some(length) => length as int,
                None => base_len - offset,
            };
            data.subrange(start, end) == whole.subrange(offset as int, offset + len)
        }),
{
    let (start, end) = window(base_start, base_len, offset, length)->Ok_0;
    let whole = data.subrange(base_start as int, base_start + base_len);
    assert(data.subrange(start, end) =~= whole.subrange(offset as int, end - base_start));
}

/// An integer has one to eight bytes. Read with the most significant first, each further byte makes
/// 256 times as much of what came before; read with the least significant first, it is the other
/// way round.
pub proof fn law_integers_are_read_byte_by_byte(bytes: Seq<u8>, b: u8, little_endian: bool)
    ensures
        uint_of(bytes, little_endian) is Some <==> 1 <= bytes.len() <= 8,
        uint_of(seq![b], little_endian) == Some(b as nat),
        1 <= bytes.len() < 8 ==> uint_of(bytes.push(b), false) == Some(
            (uint_of(bytes, false)->0 * 256 + b) as nat,
        ),
        1 <= bytes.len() < 8 ==> uint_of(seq![b] + bytes, true) == Some(
            (b + 256 * uint_of(bytes, true)->0) as nat,
        ),
{
    let one = seq![b];
    assert(one.reverse() =~= one);
    assert(one.drop_last() =~= Seq::empty());
    assert(be_value(Seq::empty()) == 0);
    assert(bytes.push(b).drop_last() =~= bytes);
    assert((seq![b] + bytes).reverse() =~= bytes.reverse().push(b));
    assert(bytes.reverse().push(b).drop_last() =~= bytes.reverse());
}

/// A slice is served exactly if it lies within the window: neither its offset nor its length is
/// negative, and it ends no later than the window does. Without a length it reaches to the end.
pub proof fn law_slice_lies_within(
    base_start: usize,
    base_len: usize,
    offset: i64,
    length: i64,
)
    ensures
        window(base_start, base_len, offset, Some(length)) is Ok <==> offset >= 0 && length >= 0
            && offset + length <= base_len,
        window(base_start, base_len, offset, None) is Ok <==> 0 <= offset <= base_len,
        0 <= offset <= base_len ==> window(base_start, base_len, offset, None) == Ok::<
            (int, int),
            TvbError,
        >((base_start + offset, base_start + base_len)),
        offset >= 0 && length >= 0 && offset + length <= base_len ==> window(
            base_start,
            base_len,
            offset,
            Some(length),
        ) == Ok::<(int, int), TvbError>((base_start + offset, base_start + offset + length)),
{
}

/// What is said of a slice that is not served: where it was asked for, how long it was to be, with
/// zero for none given, and how long the window is.
pub proof fn law_refused_slice_is_told(
    base_start: usize,
    base_len: usize,
    offset: i64,
    length: Option<i64>,
)
    requires
        window(base_start, base_len, offset, length) is Err,
    ensures
        window(base_start, base_len, offset, length) == Err::<(int, int), TvbError>(
            TvbError::OutOfBounds {
                offset,
                length: if length is Some {
                    length->0
                } else {
                    0
                },
                available: base_len,
            },
        ),
        offset >= 0 && (length is Some ==> length->0 >= 0) ==> window(
            base_start,
            base_len,
            offset,
            length,
        )->Err_0.text() == "Tvb/TvbRange: range "@ + dec(offset as nat) + ".."@ + dec(
            (offset + if length is Some {
                length->0 as int
            } else {
                0
            }) as nat,
        ) + " out of bounds (len "@ + dec(base_len as nat) + ")"@,
{
}

} // verus!
