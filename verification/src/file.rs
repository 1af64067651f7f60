//! Saving and loading values as bytes: a value is written to the end of a
//! byte buffer, and read back from a cursor over bytes. Integers are written
//! little-endian, `usize` as eight bytes, `i32` as four.
use vstd::prelude::*;
use crate::base::{Interval, Node, NodeType};

verus! {

/// Why a load failed.
#[derive(Debug, Clone, Copy, PartialEq, Eq, Structural)]
pub enum IoError {
    /// The bytes ended before the value did.
    UnexpectedEof,
    /// A byte held a value that no encoding uses.
    InvalidData,
}

/// 256 to the power `n`: the number of values `n` bytes can hold.
pub open spec fn byte_bound(n: nat) -> nat
    decreases n,
{
    if n == 0 {
        1
    } else {
        256 * byte_bound((n - 1) as nat)
    }
}

/// The `n` lowest bytes of `x`, least significant first.
pub open spec fn le_bytes(x: nat, n: nat) -> Seq<u8>
    decreases n,
{
    if n == 0 {
        Seq::empty()
    } else {
        seq![(x % 256) as u8] + le_bytes(x / 256, (n - 1) as nat)
    }
}

/// The number that bytes `s` spell, least significant first.
pub open spec fn le_value(s: Seq<u8>) -> nat
    decreases s.len(),
{
    if s.len() == 0 {
        0
    } else {
        s[0] as nat + 256 * le_value(s.drop_first())
    }
}

/// The two's-complement bits of an `i32`, as a number below 2^32.
pub open spec fn i32_bits(x: i32) -> nat {
    if x >= 0 {
        x as nat
    } else {
        (x + 0x1_0000_0000) as nat
    }
}

/// The `i32` whose two's-complement bits are `v`.
pub open spec fn i32_of_bits(v: nat) -> i32 {
    if v < 0x8000_0000 {
        v as i32
    } else {
        (v - 0x1_0000_0000) as i32
    }
}

pub proof fn lemma_le_bytes_len(x: nat, n: nat)
    ensures
        le_bytes(x, n).len() == n,
    decreases n,
{
    if n > 0 {
        lemma_le_bytes_len(x / 256, (n - 1) as nat);
    }
}

/// Reading back the bytes of `x` gives `x`, when `x` fits in them.
pub proof fn lemma_le_roundtrip(x: nat, n: nat)
    requires
        x < byte_bound(n),
    ensures
        le_value(le_bytes(x, n)) == x,
    decreases n,
{
    lemma_le_bytes_len(x, n);
    if n > 0 {
        let bb = byte_bound((n - 1) as nat);
        assert(x / 256 < bb) by (nonlinear_arith)
            requires
                x < 256 * bb,
        ;
        lemma_le_roundtrip(x / 256, (n - 1) as nat);
        assert(le_bytes(x, n).drop_first() =~= le_bytes(x / 256, (n - 1) as nat));
    }
}

/// A number spelled by `n` bytes is below 256^n.
pub proof fn lemma_le_value_bound(s: Seq<u8>)
    ensures
        le_value(s) < byte_bound(s.len()),
    decreases s.len(),
{
    if s.len() > 0 {
        lemma_le_value_bound(s.drop_first());
        let v = le_value(s.drop_first());
        let bb = byte_bound((s.len() - 1) as nat);
        assert(s[0] as nat + 256 * v < 256 * bb) by (nonlinear_arith)
            requires
                v < bb,
                s[0] < 256,
        ;
    }
}

pub proof fn lemma_byte_bounds()
    ensures
        byte_bound(4) == 0x1_0000_0000,
        byte_bound(8) == 0x1_0000_0000_0000_0000,
{
    reveal_with_fuel(byte_bound, 9);
}

pub proof fn lemma_i32_bits(x: i32)
    ensures
        i32_bits(x) < 0x1_0000_0000,
        i32_of_bits(i32_bits(x)) == x,
{
}

/// Appends the `n` lowest bytes of `x`, least significant first.
fn write_le(stream: &mut Vec<u8>, x: u64, n: usize)
    ensures
        final(stream)@ == old(stream)@ + le_bytes(x as nat, n as nat),
{
    let ghost start = stream@;
    let mut v: u64 = x;
    let mut i: usize = 0;
    while i < n
        invariant
            0 <= i <= n,
            stream@ + le_bytes(v as nat, (n - i) as nat) == start + le_bytes(x as nat, n as nat),
        decreases n - i,
    {
        let ghost before = stream@;
        stream.push((v % 256) as u8);
        proof {
            let rest = le_bytes((v / 256) as nat, (n - i - 1) as nat);
            assert(le_bytes(v as nat, (n - i) as nat) == seq![(v % 256) as u8] + rest);
            assert(stream@ + rest =~= before + le_bytes(v as nat, (n - i) as nat));
        }
        v = v / 256;
        i = i + 1;
    }
    assert(stream@ + le_bytes(v as nat, 0) =~= stream@);
}

/// An in-memory byte source that is read front to back.
pub struct Cursor {
    data: Vec<u8>,
    pos: usize,
}

impl Cursor {
    /// The bytes not read yet.
    pub closed spec fn remaining(&self) -> Seq<u8> {
        if self.pos <= self.data@.len() {
            self.data@.skip(self.pos as int)
        } else {
            Seq::empty()
        }
    }

    /// A cursor at the start of `data`.
    pub fn new(data: Vec<u8>) -> (r: Self)
        ensures
            r.remaining() == data@,
    {
        let r = Cursor { data, pos: 0 };
        assert(r.data@.skip(0) =~= r.data@);
        r
    }

    /// Reads the next `n` bytes; fails when fewer are left.
    pub fn read_exact(&mut self, n: usize) -> (r: Result<Vec<u8>, IoError>)
        ensures
            n <= old(self).remaining().len() ==> {
                &&& r matches Ok(b) && b@ == old(self).remaining().take(n as int)
                &&& final(self).remaining() == old(self).remaining().skip(n as int)
            },
            n > old(self).remaining().len() ==> r == Err::<Vec<u8>, IoError>(IoError::UnexpectedEof)
                && final(self).remaining() == old(self).remaining(),
    {
        if self.pos > self.data.len() {
            self.pos = self.data.len();
            assert(self.data@.skip(self.pos as int) =~= Seq::<u8>::empty());
        }
        if n > self.data.len() - self.pos {
            return Err(IoError::UnexpectedEof);
        }
        let start = self.pos;
        let len = self.data.len();
        let mut b: Vec<u8> = Vec::new();
        let mut i: usize = 0;
        let ghost rem = self.remaining();
        while i < n
            invariant
                start + n <= len,
                len == self.data@.len(),
                rem == self.data@.skip(start as int),
                0 <= i <= n,
                b@ == rem.take(i as int),
            decreases n - i,
        {
            b.push(self.data[start + i]);
            i = i + 1;
            proof {
                assert(b@ =~= rem.take(i as int));
            }
        }
        self.pos = self.pos + n;
        assert(self.data@.skip(self.pos as int) =~= rem.skip(n as int));
        Ok(b)
    }
}

/// Reads `n <= 8` bytes as a little-endian number.
fn read_le(stream: &mut Cursor, n: usize) -> (r: Result<u64, IoError>)
    requires
        n <= 8,
    ensures
        n <= old(stream).remaining().len() ==> {
            &&& r matches Ok(v) && v == le_value(old(stream).remaining().take(n as int))
            &&& final(stream).remaining() == old(stream).remaining().skip(n as int)
        },
        n > old(stream).remaining().len() ==> r == Err::<u64, IoError>(IoError::UnexpectedEof)
            && final(stream).remaining() == old(stream).remaining(),
{
    let b = match stream.read_exact(n) {
        Ok(b) => b,
        Err(e) => {
            return Err(e);
        },
    };
    let mut acc: u64 = 0;
    let mut k: usize = n;
    proof {
        assert(b@.skip(n as int) =~= Seq::<u8>::empty());
        lemma_byte_bounds();
    }
    while k > 0
        invariant
            b@.len() == n <= 8,
            0 <= k <= n,
            acc == le_value(b@.skip(k as int)),
            byte_bound(8) == 0x1_0000_0000_0000_0000,
        decreases k,
    {
        proof {
            assert(b@.skip(k - 1).drop_first() =~= b@.skip(k as int));
            lemma_le_value_bound(b@.skip(k as int));
            lemma_bound_mono((n - k) as nat, 7);
        }
        let byte = b[k - 1];
        acc = byte as u64 + 256 * acc;
        k = k - 1;
    }
    assert(b@.skip(0) =~= b@);
    Ok(acc)
}

/// More bytes hold more values.
pub proof fn lemma_bound_mono(a: nat, b: nat)
    requires
        a <= b,
    ensures
        byte_bound(a) <= byte_bound(b),
    decreases b,
{
    if a < b {
        lemma_bound_mono(a, (b - 1) as nat);
    }
}

/// A value that can be written as bytes.
pub trait Serialize {
    /// The bytes that `serialize` appends.
    spec fn spec_encoding(&self) -> Seq<u8>;

    /// Appends the bytes of `self` to `stream`; writing to memory never fails.
    fn serialize(&self, stream: &mut Vec<u8>) -> (r: Result<(), IoError>)
        ensures
            r is Ok,
            final(stream)@ == old(stream)@ + self.spec_encoding(),
    ;
}

/// A value that can be read back from bytes.
pub trait Deserialize: Sized {
    /// Why reading from the front of bytes `s` fails, if it does.
    spec fn spec_decode_error(s: Seq<u8>) -> Option<IoError>;

    /// How many bytes reading from the front of `s` takes, when it succeeds.
    spec fn spec_decode_len(s: Seq<u8>) -> nat;

    /// `v` is the value read from the front of `s`, when reading succeeds.
    spec fn spec_decoded(s: Seq<u8>, v: Self) -> bool;

    /// Reads a value from the front of `stream`.
    fn deserialize(stream: &mut Cursor) -> (r: Result<Self, IoError>)
        ensures
            match Self::spec_decode_error(old(stream).remaining()) {
                Some(e) => r == Err::<Self, IoError>(e),
                None => {
                    &&& r matches Ok(v) && Self::spec_decoded(old(stream).remaining(), v)
                    &&& Self::spec_decode_len(old(stream).remaining()) <= old(stream).remaining().len()
                    &&& final(stream).remaining() == old(stream).remaining().skip(
                        Self::spec_decode_len(old(stream).remaining()) as int,
                    )
                },
            },
    ;
}

/// Writes `value` to `stream`.
pub fn save_value<T: Serialize>(stream: &mut Vec<u8>, value: &T) -> (r: Result<(), IoError>)
    ensures
        r is Ok,
        final(stream)@ == old(stream)@ + value.spec_encoding(),
{
    value.serialize(stream)
}

/// Reads a value from `stream`.
pub fn load_value<T: Deserialize>(stream: &mut Cursor) -> (r: Result<T, IoError>)
    ensures
        match T::spec_decode_error(old(stream).remaining()) {
            Some(e) => r == Err::<T, IoError>(e),
            None => {
                &&& r matches Ok(v) && T::spec_decoded(old(stream).remaining(), v)
                &&& final(stream).remaining() == old(stream).remaining().skip(
                    T::spec_decode_len(old(stream).remaining()) as int,
                )
            },
        },
{
    T::deserialize(stream)
}

/// Decoding a little-endian number of `n` bytes.
pub open spec fn decode_le(s: Seq<u8>, n: nat) -> Result<(nat, nat), IoError> {
    if n <= s.len() {
        Ok((le_value(s.take(n as int)), n))
    } else {
        Err(IoError::UnexpectedEof)
    }
}

impl Serialize for usize {
    open spec fn spec_encoding(&self) -> Seq<u8> {
        le_bytes(*self as nat, 8)
    }

    fn serialize(&self, stream: &mut Vec<u8>) -> (r: Result<(), IoError>) {
        write_le(stream, *self as u64, 8);
        Ok(())
    }
}

impl Deserialize for usize {
    open spec fn spec_decode_error(s: Seq<u8>) -> Option<IoError> {
        if s.len() < 8 {
            Some(IoError::UnexpectedEof)
        } else {
            None
        }
    }

    open spec fn spec_decode_len(s: Seq<u8>) -> nat {
        8
    }

    open spec fn spec_decoded(s: Seq<u8>, v: usize) -> bool {
        v == le_value(s.take(8)) as usize
    }

    fn deserialize(stream: &mut Cursor) -> (r: Result<usize, IoError>) {
        let v = read_le(stream, 8)?;
        Ok(v as usize)
    }
}

impl<T: Serialize> Serialize for Box<T> {
    open spec fn spec_encoding(&self) -> Seq<u8> {
        (**self).spec_encoding()
    }

    fn serialize(&self, stream: &mut Vec<u8>) -> (r: Result<(), IoError>) {
        (**self).serialize(stream)
    }
}

impl<T: Deserialize> Deserialize for Box<T> {
    open spec fn spec_decode_error(s: Seq<u8>) -> Option<IoError> {
        T::spec_decode_error(s)
    }

    open spec fn spec_decode_len(s: Seq<u8>) -> nat {
        T::spec_decode_len(s)
    }

    open spec fn spec_decoded(s: Seq<u8>, v: Box<T>) -> bool {
        T::spec_decoded(s, *v)
    }

    fn deserialize(stream: &mut Cursor) -> (r: Result<Box<T>, IoError>) {
        let v = T::deserialize(stream)?;
        Ok(Box::new(v))
    }
}


/// The `usize` values that a length of eight bytes and then eight bytes per
/// value spell.
pub open spec fn usizes_at(s: Seq<u8>) -> Seq<usize> {
    Seq::new((le_value(s.take(8)) as usize) as nat, |j: int| le_value(s.skip(8).subrange(8 * j, 8 * j + 8)) as usize)
}

/// The bytes of a sequence of `usize`, eight each, without the length.
pub open spec fn encode_usizes(s: Seq<usize>) -> Seq<u8>
    decreases s.len(),
{
    if s.len() == 0 {
        Seq::empty()
    } else {
        encode_usizes(s.drop_last()) + le_bytes(s.last() as nat, 8)
    }
}

pub proof fn lemma_encode_usizes(s: Seq<usize>)
    ensures
        encode_usizes(s).len() == 8 * s.len(),
        forall|i: int| 0 <= i < s.len() ==> #[trigger] encode_usizes(s).subrange(8 * i, 8 * i + 8) == le_bytes(s[i] as nat, 8),
    decreases s.len(),
{
    if s.len() > 0 {
        let t = s.drop_last();
        lemma_encode_usizes(t);
        lemma_le_bytes_len(s.last() as nat, 8);
        let e = encode_usizes(s);
        assert forall|i: int| 0 <= i < s.len() implies #[trigger] e.subrange(8 * i, 8 * i + 8) == le_bytes(s[i] as nat, 8) by {
            if i < s.len() - 1 {
                assert(e.subrange(8 * i, 8 * i + 8) =~= encode_usizes(t).subrange(8 * i, 8 * i + 8));
                assert(s[i] == t[i]);
            } else {
                assert(e.subrange(8 * i, 8 * i + 8) =~= le_bytes(s.last() as nat, 8));
            }
        }
    }
}

impl Serialize for Vec<usize> {
    open spec fn spec_encoding(&self) -> Seq<u8> {
        le_bytes(self@.len(), 8) + encode_usizes(self@)
    }

    fn serialize(&self, stream: &mut Vec<u8>) -> (r: Result<(), IoError>) {
        let ghost start = stream@;
        write_le(stream, self.len() as u64, 8);
        let mut i: usize = 0;
        while i < self.len()
            invariant
                0 <= i <= self@.len(),
                stream@ == start + le_bytes(self@.len(), 8) + encode_usizes(self@.take(i as int)),
            decreases self@.len() - i,
        {
            let ghost before = stream@;
            write_le(stream, self[i] as u64, 8);
            proof {
                let t = self@.take(i + 1);
                assert(t.drop_last() =~= self@.take(i as int));
                assert(stream@ =~= start + le_bytes(self@.len(), 8) + encode_usizes(t));
            }
            i = i + 1;
        }
        assert(self@.take(self@.len() as int) =~= self@);
        Ok(())
    }
}

impl Deserialize for Vec<usize> {
    open spec fn spec_decode_error(s: Seq<u8>) -> Option<IoError> {
        if s.len() < 8 || 8 * (le_value(s.take(8)) as usize) > s.len() - 8 {
            Some(IoError::UnexpectedEof)
        } else {
            None
        }
    }

    open spec fn spec_decode_len(s: Seq<u8>) -> nat {
        8 + 8 * ((le_value(s.take(8)) as usize) as nat)
    }

    open spec fn spec_decoded(s: Seq<u8>, v: Vec<usize>) -> bool {
        v@ == usizes_at(s)
    }

    fn deserialize(stream: &mut Cursor) -> (r: Result<Vec<usize>, IoError>) {
        let ghost rem0 = stream.remaining();
        let len = read_le(stream, 8)? as usize;
        let ghost rest = rem0.skip(8);
        let mut v: Vec<usize> = Vec::new();
        let mut i: usize = 0;
        while i < len
            invariant
                8 <= rem0.len(),
                rem0 == old(stream).remaining(),
                rest == rem0.skip(8),
                rest.len() == rem0.len() - 8,
                len == le_value(rem0.take(8)) as usize,
                0 <= i <= len,
                8 * i <= rest.len(),
                stream.remaining() == rest.skip(8 * i),
                v@ == Seq::new(i as nat, |j: int| le_value(rest.subrange(8 * j, 8 * j + 8)) as usize),
            decreases len - i,
        {
            let x = match read_le(stream, 8) {
                Ok(x) => x,
                Err(e) => {
                    assert(8 * len > rest.len());
                    assert(e == IoError::UnexpectedEof);
                    return Err(e);
                },
            };
            proof {
                assert(rest.skip(8 * i).take(8) =~= rest.subrange(8 * i, 8 * i + 8));
                assert(rest.skip(8 * i).skip(8) =~= rest.skip(8 * i + 8));
            }
            v.push(x as usize);
            i = i + 1;
            proof {
                assert(v@ =~= Seq::new(i as nat, |j: int| le_value(rest.subrange(8 * j, 8 * j + 8)) as usize));
            }
        }
        Ok(v)
    }
}

/// The two's-complement bits of `x`.
fn i32_to_bits(x: i32) -> (r: u64)
    ensures
        r == i32_bits(x),
        r < 0x1_0000_0000,
{
    if x >= 0 {
        x as u64
    } else {
        ((x as i64) + 0x1_0000_0000i64) as u64
    }
}

/// The `i32` with two's-complement bits `v`.
fn i32_from_bits(v: u64) -> (r: i32)
    requires
        v < 0x1_0000_0000,
    ensures
        r == i32_of_bits(v as nat),
{
    if v < 0x8000_0000 {
        v as i32
    } else {
        ((v as i64) - 0x1_0000_0000i64) as i32
    }
}

/// Reads four bytes as an `i32`.
fn read_i32(stream: &mut Cursor) -> (r: Result<i32, IoError>)
    ensures
        4 <= old(stream).remaining().len() ==> {
            &&& r matches Ok(v) && v == i32_of_bits(le_value(old(stream).remaining().take(4)))
            &&& final(stream).remaining() == old(stream).remaining().skip(4)
        },
        4 > old(stream).remaining().len() ==> r == Err::<i32, IoError>(IoError::UnexpectedEof)
            && final(stream).remaining() == old(stream).remaining(),
{
    let v = read_le(stream, 4)?;
    proof {
        lemma_le_value_bound(old(stream).remaining().take(4));
        lemma_byte_bounds();
    }
    Ok(i32_from_bits(v))
}

/// The bytes of an interval: its low then its high end, four bytes each.
pub open spec fn encode_interval(iv: Interval) -> Seq<u8> {
    le_bytes(i32_bits(iv.low), 4) + le_bytes(i32_bits(iv.high), 4)
}

/// The interval that eight bytes spell.
pub open spec fn interval_at(s: Seq<u8>) -> Interval {
    Interval { low: i32_of_bits(le_value(s.subrange(0, 4))), high: i32_of_bits(le_value(s.subrange(4, 8))) }
}

/// The intervals that a length of eight bytes and then eight bytes per
/// interval spell.
pub open spec fn intervals_at(s: Seq<u8>) -> Seq<Interval> {
    Seq::new((le_value(s.take(8)) as usize) as nat, |j: int| interval_at(s.skip(8).subrange(8 * j, 8 * j + 8)))
}

/// The bytes of a sequence of intervals, without the length.
pub open spec fn encode_intervals(s: Seq<Interval>) -> Seq<u8>
    decreases s.len(),
{
    if s.len() == 0 {
        Seq::empty()
    } else {
        encode_intervals(s.drop_last()) + encode_interval(s.last())
    }
}

pub proof fn lemma_encode_intervals(s: Seq<Interval>)
    ensures
        encode_intervals(s).len() == 8 * s.len(),
        forall|i: int| 0 <= i < s.len() ==> #[trigger] encode_intervals(s).subrange(8 * i, 8 * i + 8) == encode_interval(s[i]),
    decreases s.len(),
{
    if s.len() > 0 {
        let t = s.drop_last();
        lemma_encode_intervals(t);
        lemma_le_bytes_len(i32_bits(s.last().low), 4);
        lemma_le_bytes_len(i32_bits(s.last().high), 4);
        let e = encode_intervals(s);
        assert forall|i: int| 0 <= i < s.len() implies #[trigger] e.subrange(8 * i, 8 * i + 8) == encode_interval(s[i]) by {
            if i < s.len() - 1 {
                assert(e.subrange(8 * i, 8 * i + 8) =~= encode_intervals(t).subrange(8 * i, 8 * i + 8));
                assert(s[i] == t[i]);
            } else {
                assert(e.subrange(8 * i, 8 * i + 8) =~= encode_interval(s.last()));
            }
        }
    }
}

impl Serialize for Vec<Interval> {
    open spec fn spec_encoding(&self) -> Seq<u8> {
        le_bytes(self@.len(), 8) + encode_intervals(self@)
    }

    fn serialize(&self, stream: &mut Vec<u8>) -> (r: Result<(), IoError>) {
        let ghost start = stream@;
        write_le(stream, self.len() as u64, 8);
        let mut i: usize = 0;
        while i < self.len()
            invariant
                0 <= i <= self@.len(),
                stream@ == start + le_bytes(self@.len(), 8) + encode_intervals(self@.take(i as int)),
            decreases self@.len() - i,
        {
            let iv = self[i];
            write_le(stream, i32_to_bits(iv.low), 4);
            write_le(stream, i32_to_bits(iv.high), 4);
            proof {
                let t = self@.take(i + 1);
                assert(t.drop_last() =~= self@.take(i as int));
                assert(stream@ =~= start + le_bytes(self@.len(), 8) + encode_intervals(t));
            }
            i = i + 1;
        }
        assert(self@.take(self@.len() as int) =~= self@);
        Ok(())
    }
}

impl Deserialize for Vec<Interval> {
    open spec fn spec_decode_error(s: Seq<u8>) -> Option<IoError> {
        if s.len() < 8 || 8 * (le_value(s.take(8)) as usize) > s.len() - 8 {
            Some(IoError::UnexpectedEof)
        } else {
            None
        }
    }

    open spec fn spec_decode_len(s: Seq<u8>) -> nat {
        8 + 8 * ((le_value(s.take(8)) as usize) as nat)
    }

    open spec fn spec_decoded(s: Seq<u8>, v: Vec<Interval>) -> bool {
        v@ == intervals_at(s)
    }

    fn deserialize(stream: &mut Cursor) -> (r: Result<Vec<Interval>, IoError>) {
        let ghost rem0 = stream.remaining();
        let len = read_le(stream, 8)? as usize;
        let ghost rest = rem0.skip(8);
        let mut v: Vec<Interval> = Vec::new();
        let mut i: usize = 0;
        while i < len
            invariant
                8 <= rem0.len(),
                rem0 == old(stream).remaining(),
                rest == rem0.skip(8),
                rest.len() == rem0.len() - 8,
                len == le_value(rem0.take(8)) as usize,
                0 <= i <= len,
                8 * i <= rest.len(),
                stream.remaining() == rest.skip(8 * i),
                v@ == Seq::new(i as nat, |j: int| interval_at(rest.subrange(8 * j, 8 * j + 8))),
            decreases len - i,
        {
            let ghost here = stream.remaining();
            let low = match read_i32(stream) {
                Ok(x) => x,
                Err(e) => {
                    return Err(e);
                },
            };
            let high = match read_i32(stream) {
                Ok(x) => x,
                Err(e) => {
                    return Err(e);
                },
            };
            proof {
                let w = rest.subrange(8 * i, 8 * i + 8);
                assert(here.take(4) =~= w.subrange(0, 4));
                assert(here.skip(4).take(4) =~= w.subrange(4, 8));
                assert(here.skip(4).skip(4) =~= rest.skip(8 * i + 8));
            }
            v.push(Interval { low, high });
            i = i + 1;
            proof {
                assert(v@ =~= Seq::new(i as nat, |j: int| interval_at(rest.subrange(8 * j, 8 * j + 8))));
            }
        }
        Ok(v)
    }
}

/// The bytes of a node's own fields: a tag byte (0 leaf, 1 inner node) and
/// the fields.
pub open spec fn encode_node_type(t: NodeType) -> Seq<u8> {
    match t {
        NodeType::Leaf { left, right } => seq![0u8] + le_bytes(left as nat, 8) + le_bytes(right as nat, 8),
        NodeType::NonLeaf { divfeat, divlow, divhigh } => seq![1u8] + le_bytes(i32_bits(divfeat), 4)
            + le_bytes(i32_bits(divlow), 4) + le_bytes(i32_bits(divhigh), 4),
    }
}

/// The bytes of a node: its own fields, then for each child a marker byte 1
/// followed by the child's bytes, or a single zero byte for a missing child.
pub open spec fn encode_node(n: Node) -> Seq<u8>
    decreases n,
{
    encode_node_type(n.node_type) + match n.child1 {
        Some(c) => seq![1u8] + encode_node(*c),
        None => seq![0u8],
    } + match n.child2 {
        Some(c) => seq![1u8] + encode_node(*c),
        None => seq![0u8],
    }
}

/// The length of a node's own fields for tag byte `tag`.
pub open spec fn node_type_len(tag: u8) -> nat {
    if tag == 0 {
        17
    } else {
        13
    }
}

/// The node fields that bytes `s`, tag byte included, spell.
pub open spec fn node_type_at(s: Seq<u8>) -> NodeType {
    if s[0] == 0 {
        NodeType::Leaf {
            left: le_value(s.subrange(1, 9)) as usize,
            right: le_value(s.subrange(9, 17)) as usize,
        }
    } else {
        NodeType::NonLeaf {
            divfeat: i32_of_bits(le_value(s.subrange(1, 5))),
            divlow: i32_of_bits(le_value(s.subrange(5, 9))),
            divhigh: i32_of_bits(le_value(s.subrange(9, 13))),
        }
    }
}

/// Reading a child from the front of `s`: a marker byte 1 followed by a
/// node, or any other marker byte for no child.
pub open spec fn decode_child(s: Seq<u8>) -> Result<(Option<Box<Node>>, nat), IoError>
    decreases s.len(), 1nat,
{
    if s.len() == 0 {
        Err(IoError::UnexpectedEof)
    } else if s[0] == 1 {
        match decode_node(s.skip(1)) {
            Ok((n, k)) => Ok((Some(Box::new(n)), k + 1)),
            Err(e) => Err(e),
        }
    } else {
        Ok((None, 1))
    }
}

/// Reading a node from the front of `s`, and how many bytes it takes.
pub open spec fn decode_node(s: Seq<u8>) -> Result<(Node, nat), IoError>
    decreases s.len(), 0nat,
{
    if s.len() == 0 {
        Err(IoError::UnexpectedEof)
    } else if s[0] != 0 && s[0] != 1 {
        Err(IoError::InvalidData)
    } else if s.len() < node_type_len(s[0]) {
        Err(IoError::UnexpectedEof)
    } else {
        let k = node_type_len(s[0]);
        match decode_child(s.skip(k as int)) {
            Err(e) => Err(e),
            Ok((c1, k1)) => if k + k1 <= s.len() {
                match decode_child(s.skip((k + k1) as int)) {
                    Err(e) => Err(e),
                    Ok((c2, k2)) => Ok((Node { node_type: node_type_at(s), child1: c1, child2: c2 }, k + k1 + k2)),
                }
            } else {
                Err(IoError::UnexpectedEof)
            },
        }
    }
}

/// How many bytes reading a node's own fields takes from the front of `s`,
/// also when it fails: the tag byte, then each field that could be read whole.
pub open spec fn node_type_read_len(s: Seq<u8>) -> nat {
    if s.len() == 0 {
        0
    } else if s[0] == 0 {
        if s.len() < 9 {
            1
        } else if s.len() < 17 {
            9
        } else {
            17
        }
    } else if s[0] == 1 {
        if s.len() < 5 {
            1
        } else if s.len() < 9 {
            5
        } else if s.len() < 13 {
            9
        } else {
            13
        }
    } else {
        1
    }
}

/// How many bytes reading a child slot takes from the front of `s`, also
/// when it fails.
pub open spec fn child_read_len(s: Seq<u8>) -> nat
    decreases s.len(), 1nat,
{
    if s.len() == 0 {
        0
    } else if s[0] == 1 {
        1 + node_read_len(s.skip(1))
    } else {
        1
    }
}

/// How many bytes reading a node takes from the front of `s`, also when it
/// fails: reading stops at the first part that cannot be read.
pub open spec fn node_read_len(s: Seq<u8>) -> nat
    decreases s.len(), 0nat,
{
    if s.len() == 0 || (s[0] != 0 && s[0] != 1) || s.len() < node_type_len(s[0]) {
        node_type_read_len(s)
    } else {
        let k = node_type_len(s[0]);
        match decode_child(s.skip(k as int)) {
            Err(_) => k + child_read_len(s.skip(k as int)),
            Ok((_, k1)) => if k + k1 <= s.len() {
                k + k1 + child_read_len(s.skip((k + k1) as int))
            } else {
                k + k1
            },
        }
    }
}

/// What a read takes when it succeeds is what it decodes, and no read takes
/// more than there is.
pub proof fn lemma_read_len(s: Seq<u8>)
    ensures
        node_read_len(s) <= s.len(),
        child_read_len(s) <= s.len(),
        decode_node(s) matches Ok((n, k)) ==> node_read_len(s) == k,
        decode_child(s) matches Ok((c, k)) ==> child_read_len(s) == k,
    decreases s.len(),
{
    lemma_decode_len(s);
    if s.len() > 0 {
        lemma_read_len(s.skip(1));
        if s[0] == 0 || s[0] == 1 {
            let k = node_type_len(s[0]);
            if k <= s.len() {
                lemma_read_len(s.skip(k as int));
                lemma_decode_len(s.skip(k as int));
                if let Ok((c1, k1)) = decode_child(s.skip(k as int)) {
                    if k + k1 <= s.len() {
                        lemma_read_len(s.skip((k + k1) as int));
                    }
                }
            }
        }
    }
}

pub proof fn lemma_decode_len(s: Seq<u8>)
    ensures
        decode_node(s) matches Ok((n, k)) ==> k <= s.len(),
        decode_child(s) matches Ok((c, k)) ==> k <= s.len(),
    decreases s.len(),
{
    if s.len() > 0 {
        lemma_decode_len(s.skip(1));
        if s[0] == 0 || s[0] == 1 {
            let k = node_type_len(s[0]);
            if k <= s.len() {
                lemma_decode_len(s.skip(k as int));
                if let Ok((c1, k1)) = decode_child(s.skip(k as int)) {
                    if k + k1 <= s.len() {
                        lemma_decode_len(s.skip((k + k1) as int));
                    }
                }
            }
        }
    }
}

/// Appends the bytes of the node's own fields.
fn serialize_node_type(t: &NodeType, stream: &mut Vec<u8>)
    ensures
        final(stream)@ == old(stream)@ + encode_node_type(*t),
{
    match t {
        NodeType::Leaf { left, right } => {
            stream.push(0u8);
            write_le(stream, *left as u64, 8);
            write_le(stream, *right as u64, 8);
        },
        NodeType::NonLeaf { divfeat, divlow, divhigh } => {
            stream.push(1u8);
            write_le(stream, i32_to_bits(*divfeat), 4);
            write_le(stream, i32_to_bits(*divlow), 4);
            write_le(stream, i32_to_bits(*divhigh), 4);
        },
    }
    assert(final(stream)@ =~= old(stream)@ + encode_node_type(*t));
}

/// Appends the bytes of a node and its children.
fn serialize_node(n: &Node, stream: &mut Vec<u8>)
    ensures
        final(stream)@ == old(stream)@ + encode_node(*n),
    decreases n,
{
    serialize_node_type(&n.node_type, stream);
    match &n.child1 {
        Some(c) => {
            stream.push(1u8);
            serialize_node(c, stream);
        },
        None => stream.push(0u8),
    }
    match &n.child2 {
        Some(c) => {
            stream.push(1u8);
            serialize_node(c, stream);
        },
        None => stream.push(0u8),
    }
    assert(final(stream)@ =~= old(stream)@ + encode_node(*n));
}

/// Reads a child: a marker byte, then the node when the marker is 1.
fn deserialize_child(stream: &mut Cursor) -> (r: Result<Option<Box<Node>>, IoError>)
    ensures
        match decode_child(old(stream).remaining()) {
            Err(e) => r == Err::<Option<Box<Node>>, IoError>(e),
            Ok((c, k)) => r == Ok::<Option<Box<Node>>, IoError>(c) && final(stream).remaining()
                == old(stream).remaining().skip(k as int),
        },
        final(stream).remaining() == old(stream).remaining().skip(child_read_len(old(stream).remaining()) as int),
    decreases old(stream).remaining().len(), 1nat,
{
    let ghost s = stream.remaining();
    proof {
        lemma_read_len(s);
        assert(s.skip(0) =~= s);
    }
    let marker = match read_byte(stream) {
        Ok(b) => b,
        Err(e) => {
            return Err(e);
        },
    };
    if marker == 1 {
        let ghost t = stream.remaining();
        let res = deserialize_node(stream);
        proof {
            assert(t == s.skip(1));
            lemma_decode_len(t);
            lemma_read_len(t);
            assert(t.skip(node_read_len(t) as int) =~= s.skip((1 + node_read_len(t)) as int));
            if let Ok((m, k)) = decode_node(t) {
                assert(t.skip(k as int) =~= s.skip((k + 1) as int));
            }
        }
        match res {
            Ok(n) => Ok(Some(Box::new(n))),
            Err(e) => Err(e),
        }
    } else {
        Ok(None)
    }
}

/// Reads one byte.
fn read_byte(stream: &mut Cursor) -> (r: Result<u8, IoError>)
    ensures
        old(stream).remaining().len() >= 1 ==> {
            &&& r == Ok::<u8, IoError>(old(stream).remaining()[0])
            &&& final(stream).remaining() == old(stream).remaining().skip(1)
        },
        old(stream).remaining().len() == 0 ==> r == Err::<u8, IoError>(IoError::UnexpectedEof)
            && final(stream).remaining() == old(stream).remaining(),
{
    let ghost s = stream.remaining();
    let b = stream.read_exact(1)?;
    Ok(b[0])
}

/// Reads the node's own fields: a tag byte, then the fields of that kind.
fn read_node_type(stream: &mut Cursor) -> (r: Result<NodeType, IoError>)
    ensures
        ({
            let s = old(stream).remaining();
            if s.len() == 0 {
                r == Err::<NodeType, IoError>(IoError::UnexpectedEof) && final(stream).remaining() == s
            } else if s[0] != 0 && s[0] != 1 {
                r == Err::<NodeType, IoError>(IoError::InvalidData) && final(stream).remaining() == s.skip(1)
            } else if s.len() < node_type_len(s[0]) {
                r == Err::<NodeType, IoError>(IoError::UnexpectedEof)
            } else {
                &&& r == Ok::<NodeType, IoError>(node_type_at(s))
                &&& final(stream).remaining() == s.skip(node_type_len(s[0]) as int)
            }
        }),
        final(stream).remaining() == old(stream).remaining().skip(node_type_read_len(old(stream).remaining()) as int),
{
    let ghost s = stream.remaining();
    let tag = read_byte(stream)?;
    if tag == 0 {
        let left = read_le(stream, 8)?;
        let right = read_le(stream, 8)?;
        proof {
            assert(s.skip(1).take(8) =~= s.subrange(1, 9));
            assert(s.skip(1).skip(8).take(8) =~= s.subrange(9, 17));
            assert(s.skip(1).skip(8).skip(8) =~= s.skip(17));
        }
        Ok(NodeType::Leaf { left: left as usize, right: right as usize })
    } else if tag == 1 {
        let divfeat = read_i32(stream)?;
        let divlow = read_i32(stream)?;
        let divhigh = read_i32(stream)?;
        proof {
            assert(s.skip(1).take(4) =~= s.subrange(1, 5));
            assert(s.skip(1).skip(4).take(4) =~= s.subrange(5, 9));
            assert(s.skip(1).skip(4).skip(4).take(4) =~= s.subrange(9, 13));
            assert(s.skip(1).skip(4).skip(4).skip(4) =~= s.skip(13));
        }
        Ok(NodeType::NonLeaf { divfeat, divlow, divhigh })
    } else {
        Err(IoError::InvalidData)
    }
}

/// Reads a node and its children.
#[verifier::spinoff_prover]
#[verifier::rlimit(50)]
fn deserialize_node(stream: &mut Cursor) -> (r: Result<Node, IoError>)
    ensures
        match decode_node(old(stream).remaining()) {
            Err(e) => r == Err::<Node, IoError>(e),
            Ok((n, k)) => r == Ok::<Node, IoError>(n) && final(stream).remaining()
                == old(stream).remaining().skip(k as int),
        },
        final(stream).remaining() == old(stream).remaining().skip(node_read_len(old(stream).remaining()) as int),
    decreases old(stream).remaining().len(), 0nat,
{
    let ghost s = stream.remaining();
    proof {
        lemma_read_len(s);
    }
    let node_type = match read_node_type(stream) {
        Ok(t) => t,
        Err(e) => {
            return Err(e);
        },
    };
    let ghost k = node_type_len(s[0]);
    let ghost t1 = s.skip(k as int);
    proof {
        lemma_decode_len(t1);
        lemma_read_len(t1);
        assert(t1.skip(child_read_len(t1) as int) =~= s.skip((k + child_read_len(t1)) as int));
    }
    let child1 = match deserialize_child(stream) {
        Ok(c) => c,
        Err(e) => {
            return Err(e);
        },
    };
    let ghost k1 = child_read_len(t1);
    let ghost t2 = s.skip((k + k1) as int);
    proof {
        assert(t1.skip(k1 as int) =~= t2);
        lemma_decode_len(t2);
        lemma_read_len(t2);
        assert(t2.skip(child_read_len(t2) as int) =~= s.skip((k + k1 + child_read_len(t2)) as int));
    }
    let child2 = match deserialize_child(stream) {
        Ok(c) => c,
        Err(e) => {
            return Err(e);
        },
    };
    Ok(Node { node_type, child1, child2 })
}

impl Serialize for Node {
    open spec fn spec_encoding(&self) -> Seq<u8> {
        encode_node(*self)
    }

    fn serialize(&self, stream: &mut Vec<u8>) -> (r: Result<(), IoError>) {
        serialize_node(self, stream);
        Ok(())
    }
}

impl Deserialize for Node {
    open spec fn spec_decode_error(s: Seq<u8>) -> Option<IoError> {
        match decode_node(s) {
            Err(e) => Some(e),
            Ok(_) => None,
        }
    }

    open spec fn spec_decode_len(s: Seq<u8>) -> nat {
        match decode_node(s) {
            Ok((_, k)) => k,
            Err(_) => 0,
        }
    }

    open spec fn spec_decoded(s: Seq<u8>, v: Node) -> bool {
        decode_node(s) matches Ok((n, _)) && v == n
    }

    /// Reading stops at the first part that cannot be read: on an empty
    /// stream nothing is read, on a bad tag byte only that byte.
    fn deserialize(stream: &mut Cursor) -> (r: Result<Node, IoError>)
        ensures
            final(stream).remaining() == old(stream).remaining().skip(node_read_len(old(stream).remaining()) as int),
            old(stream).remaining().len() == 0 ==> final(stream).remaining() == old(stream).remaining(),
            old(stream).remaining().len() > 0 && old(stream).remaining()[0] != 0 && old(stream).remaining()[0]
                != 1 ==> final(stream).remaining() == old(stream).remaining().skip(1),
    {
        proof {
            lemma_decode_len(stream.remaining());
        }
        deserialize_node(stream)
    }
}

/// Reading back what was written gives the value back: the bytes of `v`,
/// followed by anything, decode without error to `v` and take exactly the
/// bytes that were written.
pub open spec fn roundtrips<T: Serialize + Deserialize>(v: T, rest: Seq<u8>) -> bool {
    let s = v.spec_encoding() + rest;
    &&& T::spec_decode_error(s) is None
    &&& T::spec_decode_len(s) == v.spec_encoding().len()
    &&& T::spec_decoded(s, v)
}

/// A `usize` reads back as itself.
pub proof fn lemma_usize_roundtrip(x: usize, rest: Seq<u8>)
    ensures
        roundtrips(x, rest),
{
    lemma_byte_bounds();
    lemma_le_bytes_len(x as nat, 8);
    let s = x.spec_encoding() + rest;
    assert(s.take(8) =~= le_bytes(x as nat, 8));
    lemma_le_roundtrip(x as nat, 8);
}

/// A boxed value reads back as itself when the value does.
pub proof fn lemma_box_roundtrip<T: Serialize + Deserialize>(x: Box<T>, rest: Seq<u8>)
    requires
        roundtrips(*x, rest),
    ensures
        roundtrips(x, rest),
{
}

/// A vector of `usize` reads back as itself.
pub proof fn lemma_usizes_roundtrip(v: Vec<usize>, rest: Seq<u8>)
    requires
        v@.len() <= usize::MAX,
    ensures
        roundtrips(v, rest),
{
    lemma_byte_bounds();
    let n = v@.len();
    lemma_le_bytes_len(n, 8);
    lemma_encode_usizes(v@);
    let e = v.spec_encoding();
    let s = e + rest;
    assert(s.take(8) =~= le_bytes(n, 8));
    lemma_le_roundtrip(n, 8);
    assert((n as usize) as nat == n);
    let body = s.skip(8);
    assert forall|j: int| 0 <= j < n implies le_value(#[trigger] body.subrange(8 * j, 8 * j + 8)) as usize == v@[j] by {
        assert(body.subrange(8 * j, 8 * j + 8) =~= encode_usizes(v@).subrange(8 * j, 8 * j + 8));
        lemma_le_roundtrip(v@[j] as nat, 8);
    }
    assert(v@ =~= Seq::new(n, |j: int| le_value(body.subrange(8 * j, 8 * j + 8)) as usize));
}

/// A vector of intervals reads back as itself.
pub proof fn lemma_intervals_roundtrip(v: Vec<Interval>, rest: Seq<u8>)
    requires
        v@.len() <= usize::MAX,
    ensures
        roundtrips(v, rest),
{
    lemma_byte_bounds();
    let n = v@.len();
    lemma_le_bytes_len(n, 8);
    lemma_encode_intervals(v@);
    let e = v.spec_encoding();
    let s = e + rest;
    assert(s.take(8) =~= le_bytes(n, 8));
    lemma_le_roundtrip(n, 8);
    assert((n as usize) as nat == n);
    let body = s.skip(8);
    assert forall|j: int| 0 <= j < n implies interval_at(#[trigger] body.subrange(8 * j, 8 * j + 8)) == v@[j] by {
        let w = body.subrange(8 * j, 8 * j + 8);
        assert(w =~= encode_intervals(v@).subrange(8 * j, 8 * j + 8));
        let iv = v@[j];
        lemma_le_bytes_len(i32_bits(iv.low), 4);
        lemma_le_bytes_len(i32_bits(iv.high), 4);
        assert(w.subrange(0, 4) =~= le_bytes(i32_bits(iv.low), 4));
        assert(w.subrange(4, 8) =~= le_bytes(i32_bits(iv.high), 4));
        lemma_i32_bits(iv.low);
        lemma_i32_bits(iv.high);
        lemma_le_roundtrip(i32_bits(iv.low), 4);
        lemma_le_roundtrip(i32_bits(iv.high), 4);
    }
    assert(v@ =~= Seq::new(n, |j: int| interval_at(body.subrange(8 * j, 8 * j + 8))));
}

/// A node's own fields read back as themselves, whatever follows them.
pub proof fn lemma_node_type_roundtrip(t: NodeType, rest: Seq<u8>)
    ensures
        ({
            let s = encode_node_type(t) + rest;
            &&& s.len() > 0
            &&& s[0] == 0 || s[0] == 1
            &&& node_type_len(s[0]) == encode_node_type(t).len()
            &&& node_type_at(s) == t
        }),
{
    lemma_byte_bounds();
    let s = encode_node_type(t) + rest;
    match t {
        NodeType::Leaf { left, right } => {
            lemma_le_bytes_len(left as nat, 8);
            lemma_le_bytes_len(right as nat, 8);
            assert(s.subrange(1, 9) =~= le_bytes(left as nat, 8));
            assert(s.subrange(9, 17) =~= le_bytes(right as nat, 8));
            lemma_le_roundtrip(left as nat, 8);
            lemma_le_roundtrip(right as nat, 8);
        },
        NodeType::NonLeaf { divfeat, divlow, divhigh } => {
            lemma_le_bytes_len(i32_bits(divfeat), 4);
            lemma_le_bytes_len(i32_bits(divlow), 4);
            lemma_le_bytes_len(i32_bits(divhigh), 4);
            assert(s.subrange(1, 5) =~= le_bytes(i32_bits(divfeat), 4));
            assert(s.subrange(5, 9) =~= le_bytes(i32_bits(divlow), 4));
            assert(s.subrange(9, 13) =~= le_bytes(i32_bits(divhigh), 4));
            lemma_i32_bits(divfeat);
            lemma_i32_bits(divlow);
            lemma_i32_bits(divhigh);
            lemma_le_roundtrip(i32_bits(divfeat), 4);
            lemma_le_roundtrip(i32_bits(divlow), 4);
            lemma_le_roundtrip(i32_bits(divhigh), 4);
        },
    }
}

/// The bytes of a child slot: a marker and the child's bytes, or a zero.
pub open spec fn encode_child(c: Option<Box<Node>>) -> Seq<u8> {
    match c {
        Some(n) => seq![1u8] + encode_node(*n),
        None => seq![0u8],
    }
}

/// A child slot reads back as itself when its child does.
proof fn lemma_child_roundtrip(c: Option<Box<Node>>, rest: Seq<u8>)
    requires
        c matches Some(n) ==> decode_node(encode_node(*n) + rest) == Ok::<(Node, nat), IoError>(
            (*n, encode_node(*n).len()),
        ),
    ensures
        decode_child(encode_child(c) + rest) == Ok::<(Option<Box<Node>>, nat), IoError>(
            (c, encode_child(c).len()),
        ),
{
    let s = encode_child(c) + rest;
    match c {
        Some(n) => {
            assert(s.skip(1) =~= encode_node(*n) + rest);
        },
        None => {},
    }
}

/// Reading a node whose fields and children each read without error.
proof fn lemma_decode_node_step(s: Seq<u8>, c1: Option<Box<Node>>, k1: nat, c2: Option<Box<Node>>, k2: nat)
    requires
        s.len() > 0,
        s[0] == 0 || s[0] == 1,
        node_type_len(s[0]) <= s.len(),
        decode_child(s.skip(node_type_len(s[0]) as int)) == Ok::<(Option<Box<Node>>, nat), IoError>((c1, k1)),
        node_type_len(s[0]) + k1 <= s.len(),
        decode_child(s.skip((node_type_len(s[0]) + k1) as int)) == Ok::<(Option<Box<Node>>, nat), IoError>(
            (c2, k2),
        ),
    ensures
        decode_node(s) == Ok::<(Node, nat), IoError>(
            (Node { node_type: node_type_at(s), child1: c1, child2: c2 }, node_type_len(s[0]) + k1 + k2),
        ),
{
}

/// Every node, with all its children, reads back as itself: decoding its
/// bytes followed by anything gives the node and takes exactly its bytes.
pub proof fn lemma_node_roundtrip(n: Node, rest: Seq<u8>)
    ensures
        decode_node(encode_node(n) + rest) == Ok::<(Node, nat), IoError>((n, encode_node(n).len())),
    decreases n,
{
    let e2 = encode_child(n.child2);
    if let Some(c) = n.child1 {
        lemma_node_roundtrip(*c, e2 + rest);
    }
    if let Some(c) = n.child2 {
        lemma_node_roundtrip(*c, rest);
    }
    lemma_node_combine(n, rest);
}

/// A node reads back as itself when each of its children does.
proof fn lemma_node_combine(n: Node, rest: Seq<u8>)
    requires
        n.child1 matches Some(c) ==> decode_node(encode_node(*c) + (encode_child(n.child2) + rest)) == Ok::<
            (Node, nat),
            IoError,
        >((*c, encode_node(*c).len())),
        n.child2 matches Some(c) ==> decode_node(encode_node(*c) + rest) == Ok::<(Node, nat), IoError>(
            (*c, encode_node(*c).len()),
        ),
    ensures
        decode_node(encode_node(n) + rest) == Ok::<(Node, nat), IoError>((n, encode_node(n).len())),
{
    let h = encode_node_type(n.node_type);
    let e1 = encode_child(n.child1);
    let e2 = encode_child(n.child2);
    lemma_child_roundtrip(n.child1, e2 + rest);
    lemma_child_roundtrip(n.child2, rest);
    lemma_node_layout(n, rest);
    let s = encode_node(n) + rest;
    lemma_decode_node_step(s, n.child1, e1.len(), n.child2, e2.len());
}

/// Where the fields and the two child slots of a node's bytes lie.
#[verifier::spinoff_prover]
#[verifier::rlimit(40)]
proof fn lemma_node_layout(n: Node, rest: Seq<u8>)
    ensures
        ({
            let h = encode_node_type(n.node_type);
            let e1 = encode_child(n.child1);
            let e2 = encode_child(n.child2);
            let s = encode_node(n) + rest;
            &&& s.len() > 0
            &&& s[0] == 0 || s[0] == 1
            &&& node_type_len(s[0]) == h.len()
            &&& node_type_at(s) == n.node_type
            &&& encode_node(n).len() == h.len() + e1.len() + e2.len()
            &&& s.skip(h.len() as int) == e1 + (e2 + rest)
            &&& s.skip((h.len() + e1.len()) as int) == e2 + rest
        }),
{
    let h = encode_node_type(n.node_type);
    let e1 = encode_child(n.child1);
    let e2 = encode_child(n.child2);
    let s = encode_node(n) + rest;
    assert(encode_node(n) == h + e1 + e2);
    assert(s =~= h + (e1 + e2 + rest));
    lemma_node_type_roundtrip(n.node_type, e1 + e2 + rest);
    assert(s.skip(h.len() as int) =~= e1 + (e2 + rest));
    assert(s.skip((h.len() + e1.len()) as int) =~= e2 + rest);
}

/// Every node, with all its children, reads back as itself.
pub proof fn lemma_node_reads_back(n: Node, rest: Seq<u8>)
    ensures
        roundtrips(n, rest),
{
    lemma_node_roundtrip(n, rest);
}

/// The total of a sequence of lengths.
pub open spec fn sum_lens(lens: Seq<nat>) -> nat
    decreases lens.len(),
{
    if lens.len() == 0 {
        0
    } else {
        sum_lens(lens.drop_last()) + lens.last()
    }
}

/// The bytes of byte strings one after another.
pub open spec fn concat_bytes(items: Seq<Seq<u8>>) -> Seq<u8>
    decreases items.len(),
{
    if items.len() == 0 {
        Seq::empty()
    } else {
        concat_bytes(items.drop_last()) + items.last()
    }
}

/// An item that is stored as its bytes: a byte vector, or a byte array of a
/// fixed width. `load_vector` fills items in place, so it reads as many bytes
/// into an item as the item already holds.
pub trait ByteItem: Sized {
    /// The item's bytes.
    spec fn spec_bytes(&self) -> Seq<u8>;

    /// The bytes of a freshly made item.
    spec fn spec_default_bytes() -> Seq<u8>;

    /// A freshly made item: an empty vector, or an array of zeros.
    fn default_item() -> (r: Self)
        ensures
            r.spec_bytes() == Self::spec_default_bytes(),
    ;

    /// How many bytes the item holds.
    fn byte_len(&self) -> (r: usize)
        ensures
            r == self.spec_bytes().len(),
    ;

    /// The item's byte at `i`.
    fn byte_at(&self, i: usize) -> (r: u8)
        requires
            i < self.spec_bytes().len(),
        ensures
            r == self.spec_bytes()[i as int],
    ;

    /// An item of the same width that holds `bytes`.
    fn filled(&self, bytes: Vec<u8>) -> (r: Self)
        requires
            bytes@.len() == self.spec_bytes().len(),
        ensures
            r.spec_bytes() == bytes@,
    ;
}

impl ByteItem for Vec<u8> {
    open spec fn spec_bytes(&self) -> Seq<u8> {
        self@
    }

    open spec fn spec_default_bytes() -> Seq<u8> {
        Seq::empty()
    }

    fn default_item() -> (r: Self) {
        Vec::new()
    }

    fn byte_len(&self) -> (r: usize) {
        self.len()
    }

    fn byte_at(&self, i: usize) -> (r: u8) {
        self[i]
    }

    fn filled(&self, bytes: Vec<u8>) -> (r: Self) {
        bytes
    }
}

impl<const N: usize> ByteItem for [u8; N] {
    open spec fn spec_bytes(&self) -> Seq<u8> {
        self@
    }

    open spec fn spec_default_bytes() -> Seq<u8> {
        Seq::new(N as nat, |i: int| 0u8)
    }

    fn default_item() -> (r: Self) {
        let r = [0u8; N];
        assert(r@ =~= Seq::new(N as nat, |i: int| 0u8));
        r
    }

    fn byte_len(&self) -> (r: usize) {
        N
    }

    fn byte_at(&self, i: usize) -> (r: u8) {
        self[i]
    }

    fn filled(&self, bytes: Vec<u8>) -> (r: Self) {
        let mut a = [0u8; N];
        let mut i: usize = 0;
        while i < N
            invariant
                bytes@.len() == N,
                a@.len() == N,
                0 <= i <= N,
                forall|k: int| 0 <= k < i ==> a@[k] == bytes@[k],
            decreases N - i,
        {
            a[i] = bytes[i];
            i = i + 1;
        }
        assert(a@ =~= bytes@);
        a
    }
}

/// The bytes of each item of a vector.
pub open spec fn byte_items<T: ByteItem>(v: Seq<T>) -> Seq<Seq<u8>> {
    v.map_values(|b: T| b.spec_bytes())
}

/// Writes the number of items, eight bytes, then the bytes of each item.
pub fn save_vector<T: ByteItem>(stream: &mut Vec<u8>, value: &Vec<T>) -> (r: Result<(), IoError>)
    ensures
        r is Ok,
        final(stream)@ == old(stream)@ + le_bytes(value@.len(), 8) + concat_bytes(byte_items(value@)),
{
    let ghost start = stream@;
    write_le(stream, value.len() as u64, 8);
    let mut i: usize = 0;
    while i < value.len()
        invariant
            0 <= i <= value@.len(),
            stream@ == start + le_bytes(value@.len(), 8) + concat_bytes(byte_items(value@.take(i as int))),
        decreases value@.len() - i,
    {
        let item = &value[i];
        let n = item.byte_len();
        let mut j: usize = 0;
        let ghost before = stream@;
        while j < n
            invariant
                n == item.spec_bytes().len(),
                0 <= j <= n,
                stream@ == before + item.spec_bytes().take(j as int),
            decreases n - j,
        {
            stream.push(item.byte_at(j));
            j = j + 1;
            proof {
                assert(stream@ =~= before + item.spec_bytes().take(j as int));
            }
        }
        proof {
            let t = value@.take(i + 1);
            assert(byte_items(t).drop_last() =~= byte_items(value@.take(i as int)));
            assert(byte_items(t).last() == item.spec_bytes());
            assert(item.spec_bytes().take(n as int) =~= item.spec_bytes());
            assert(stream@ =~= start + le_bytes(value@.len(), 8) + concat_bytes(byte_items(t)));
        }
        i = i + 1;
    }
    assert(value@.take(value@.len() as int) =~= value@);
    Ok(())
}

/// The widths of the items after `load_vector` resized `old` to `size`
/// items: kept items keep their widths, added items have the width of a
/// freshly made item.
pub open spec fn resized_lens<T: ByteItem>(old: Seq<T>, size: nat) -> Seq<nat> {
    Seq::new(size, |i: int| if i < old.len() { old[i].spec_bytes().len() } else { T::spec_default_bytes().len() })
}

/// Reads a number of items, eight bytes, resizes `value` to it (cutting off
/// items or adding freshly made ones), then fills each item with as many
/// bytes as it holds. When the count cannot be read, `value` is untouched.
pub fn load_vector<T: ByteItem>(stream: &mut Cursor, value: &mut Vec<T>) -> (r: Result<(), IoError>)
    ensures
        ({
            let s = old(stream).remaining();
            let size = (le_value(s.take(8)) as usize) as nat;
            let lens = resized_lens(old(value)@, size);
            if s.len() < 8 {
                &&& r == Err::<(), IoError>(IoError::UnexpectedEof)
                &&& final(value)@ == old(value)@
                &&& final(stream).remaining() == s
            } else if sum_lens(lens) > s.len() - 8 {
                &&& r == Err::<(), IoError>(IoError::UnexpectedEof)
                &&& final(value)@.len() == size
            } else {
                &&& r is Ok
                &&& final(value)@.len() == size
                &&& forall|i: int| 0 <= i < size ==> #[trigger] final(value)@[i].spec_bytes() == s.subrange(
                    (8 + sum_lens(lens.take(i))) as int,
                    (8 + sum_lens(lens.take(i + 1))) as int,
                )
                &&& final(stream).remaining() == s.skip((8 + sum_lens(lens)) as int)
            }
        }),
{
    let ghost s = stream.remaining();
    let ghost ov = value@;
    let size = read_le(stream, 8)? as usize;
    let ghost lens = resized_lens(ov, size as nat);
    while value.len() > size
        invariant
            value@.len() <= ov.len(),
            value@.len() >= size || value@.len() == ov.len(),
            forall|i: int| 0 <= i < value@.len() ==> #[trigger] value@[i] == ov[i],
        decreases value@.len(),
    {
        value.pop();
    }
    assert(forall|i: int| 0 <= i < value@.len() ==> #[trigger] value@[i].spec_bytes().len() == lens[i]);
    while value.len() < size
        invariant
            value@.len() <= size,
            value@.len() >= ov.len() || value@.len() == size,
            forall|i: int| 0 <= i < value@.len() ==> #[trigger] value@[i].spec_bytes().len() == lens[i],
            lens == resized_lens(ov, size as nat),
        decreases size - value@.len(),
    {
        value.push(T::default_item());
    }
    assert(forall|i: int| 0 <= i < size ==> #[trigger] value@[i].spec_bytes().len() == lens[i]);
    let mut i: usize = 0;
    let ghost body = s.skip(8);
    while i < size
        invariant
            8 <= s.len(),
            s == old(stream).remaining(),
            body == s.skip(8),
            size == (le_value(s.take(8)) as usize),
            lens == resized_lens(ov, size as nat),
            ov == old(value)@,
            value@.len() == size,
            0 <= i <= size,
            sum_lens(lens.take(i as int)) <= body.len(),
            stream.remaining() == body.skip(sum_lens(lens.take(i as int)) as int),
            forall|k: int| i <= k < size ==> #[trigger] value@[k].spec_bytes().len() == lens[k],
            forall|k: int| 0 <= k < i ==> #[trigger] value@[k].spec_bytes() == body.subrange(
                sum_lens(lens.take(k)) as int,
                sum_lens(lens.take(k + 1)) as int,
            ),
        decreases size - i,
    {
        let n = value[i].byte_len();
        proof {
            assert(lens.take(i + 1).drop_last() =~= lens.take(i as int));
            lemma_sum_lens_prefix(lens, i + 1, size as int);
        }
        let bytes = match stream.read_exact(n) {
            Ok(b) => b,
            Err(e) => {
                proof {
                    assert(lens.take(size as int) =~= lens);
                    assert(sum_lens(lens.take(i + 1)) == sum_lens(lens.take(i as int)) + lens[i as int]);
                    assert(sum_lens(lens) > s.len() - 8);
                    assert(e == IoError::UnexpectedEof);
                }
                return Err(e);
            },
        };
        proof {
            let off = sum_lens(lens.take(i as int)) as int;
            assert(body.skip(off).take(n as int) =~= body.subrange(off, off + n));
            assert(body.skip(off).skip(n as int) =~= body.skip(off + n));
        }
        let item = value[i].filled(bytes);
        value.set(i, item);
        i = i + 1;
    }
    proof {
        assert(lens.take(size as int) =~= lens);
        assert forall|k: int| 0 <= k < size implies #[trigger] value@[k].spec_bytes() == s.subrange(
            (8 + sum_lens(lens.take(k))) as int,
            (8 + sum_lens(lens.take(k + 1))) as int,
        ) by {
            lemma_sum_lens_prefix(lens, k + 1, size as int);
            lemma_sum_lens_prefix(lens, k, k + 1);
            assert(lens.take(k + 1).drop_last() =~= lens.take(k));
            assert(body.subrange(sum_lens(lens.take(k)) as int, sum_lens(lens.take(k + 1)) as int)
                =~= s.subrange((8 + sum_lens(lens.take(k))) as int, (8 + sum_lens(lens.take(k + 1))) as int));
        }
        assert(body.skip(sum_lens(lens) as int) =~= s.skip((8 + sum_lens(lens)) as int));
    }
    Ok(())
}

/// The bytes of the first `m` items begin the bytes of all items.
pub proof fn lemma_concat_prefix(items: Seq<Seq<u8>>, m: int)
    requires
        0 <= m <= items.len(),
    ensures
        concat_bytes(items.take(m)).len() <= concat_bytes(items).len(),
        concat_bytes(items).take(concat_bytes(items.take(m)).len() as int) == concat_bytes(items.take(m)),
    decreases items.len() - m,
{
    if m < items.len() {
        lemma_concat_prefix(items, m + 1);
        let a = concat_bytes(items.take(m));
        let b = concat_bytes(items.take(m + 1));
        assert(items.take(m + 1).drop_last() =~= items.take(m));
        assert(b == a + items[m]);
        assert(concat_bytes(items).take(a.len() as int) =~= b.take(a.len() as int));
        assert(b.take(a.len() as int) =~= a);
    } else {
        assert(items.take(m) =~= items);
        assert(concat_bytes(items).take(concat_bytes(items).len() as int) =~= concat_bytes(items));
    }
}

/// The bytes of the first `m` items are as many as their widths add up to.
pub proof fn lemma_concat_len(items: Seq<Seq<u8>>, lens: Seq<nat>, m: int)
    requires
        0 <= m <= items.len(),
        lens.len() == items.len(),
        forall|i: int| 0 <= i < items.len() ==> #[trigger] lens[i] == items[i].len(),
    ensures
        concat_bytes(items.take(m)).len() == sum_lens(lens.take(m)),
    decreases m,
{
    if m > 0 {
        lemma_concat_len(items, lens, m - 1);
        assert(items.take(m).drop_last() =~= items.take(m - 1));
        assert(lens.take(m).drop_last() =~= lens.take(m - 1));
    }
}

/// What `save_vector` writes, `load_vector` reads back: when each item of
/// the vector being filled has the width of the written item (always so for
/// byte arrays of one width), the count reads back, each item's bytes are the
/// written item's bytes, and exactly the rest is left.
pub proof fn lemma_vector_roundtrip<T: ByteItem>(v: Seq<T>, into: Seq<T>, rest: Seq<u8>)
    requires
        v.len() <= usize::MAX,
        forall|i: int| 0 <= i < v.len() ==> #[trigger] resized_lens(into, v.len())[i] == v[i].spec_bytes().len(),
    ensures
        ({
            let s = le_bytes(v.len(), 8) + concat_bytes(byte_items(v)) + rest;
            let size = (le_value(s.take(8)) as usize) as nat;
            let lens = resized_lens(into, size);
            &&& s.len() >= 8
            &&& size == v.len()
            &&& sum_lens(lens) <= s.len() - 8
            &&& forall|i: int|
                0 <= i < size ==> s.subrange((8 + sum_lens(lens.take(i))) as int, (8 + sum_lens(lens.take(i + 1))) as int)
                    == (#[trigger] v[i]).spec_bytes()
            &&& s.skip((8 + sum_lens(lens)) as int) == rest
        }),
{
    lemma_byte_bounds();
    let n = v.len();
    lemma_le_bytes_len(n, 8);
    lemma_le_roundtrip(n, 8);
    let items = byte_items(v);
    let c = concat_bytes(items);
    let s = le_bytes(n, 8) + c + rest;
    assert(s.take(8) =~= le_bytes(n, 8));
    assert((n as usize) as nat == n);
    let lens = resized_lens(into, n);
    assert forall|i: int| 0 <= i < items.len() implies #[trigger] lens[i] == items[i].len() by {
        assert(items[i] == v[i].spec_bytes());
    }
    assert(items.take(n as int) =~= items);
    assert(lens.take(n as int) =~= lens);
    lemma_concat_len(items, lens, n as int);
    assert forall|i: int|
        0 <= i < n implies s.subrange((8 + sum_lens(lens.take(i))) as int, (8 + sum_lens(lens.take(i + 1))) as int)
            == (#[trigger] v[i]).spec_bytes() by {
        lemma_concat_len(items, lens, i);
        lemma_concat_len(items, lens, i + 1);
        lemma_concat_prefix(items, i + 1);
        let a = concat_bytes(items.take(i));
        let b = concat_bytes(items.take(i + 1));
        assert(items.take(i + 1).drop_last() =~= items.take(i));
        assert(b == a + items[i]);
        assert(s.subrange((8 + a.len()) as int, (8 + b.len()) as int) =~= c.subrange(a.len() as int, b.len() as int));
        assert(c.subrange(a.len() as int, b.len() as int) =~= b.subrange(a.len() as int, b.len() as int));
        assert(b.subrange(a.len() as int, b.len() as int) =~= items[i]);
    }
    assert(s.skip((8 + sum_lens(lens)) as int) =~= rest);
}

/// Byte arrays of one width always have the width the filled items have.
pub proof fn lemma_array_widths<const N: usize>(v: Seq<[u8; N]>, into: Seq<[u8; N]>)
    ensures
        forall|i: int| 0 <= i < v.len() ==> #[trigger] resized_lens(into, v.len())[i] == v[i].spec_bytes().len(),
{
}

/// A longer prefix of lengths has a larger total.
pub proof fn lemma_sum_lens_prefix(lens: Seq<nat>, a: int, b: int)
    requires
        0 <= a <= b <= lens.len(),
    ensures
        sum_lens(lens.take(a)) <= sum_lens(lens.take(b)),
    decreases b - a,
{
    if a < b {
        lemma_sum_lens_prefix(lens, a, b - 1);
        assert(lens.take(b).drop_last() =~= lens.take(b - 1));
    }
}

} // verus!
