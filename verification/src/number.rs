//! Endianness-aware fixed-width integer decoding.
//!
//! `be_val` and `le_val` give the mathematical value of a byte run read
//! big- or little-endian; the `BigEndian` / `LittleEndian` wrappers tag a
//! decoded integer with the order it was read in.

use vstd::prelude::*;

use crate::Unpack;
use crate::UnpackError;
use crate::unpack_bytes;

verus! {

/// The value of `bytes` read big-endian (most significant byte first).
pub open spec fn be_val(bytes: Seq<u8>) -> nat
    decreases bytes.len(),
{
    if bytes.len() == 0 {
        0
    } else {
        (be_val(bytes.drop_last()) * 256 + bytes.last()) as nat
    }
}

/// The value of `bytes` read little-endian (least significant byte first).
pub open spec fn le_val(bytes: Seq<u8>) -> nat
    decreases bytes.len(),
{
    if bytes.len() == 0 {
        0
    } else {
        (bytes.first() + le_val(bytes.drop_first()) * 256) as nat
    }
}

/// `256 ^ n`: the number of byte strings of length `n`.
pub open spec fn pow256(n: nat) -> nat
    decreases n,
{
    if n == 0 {
        1
    } else {
        256 * pow256((n - 1) as nat)
    }
}

pub proof fn lemma_pow256_pos(n: nat)
    ensures
        pow256(n) >= 1,
    decreases n,
{
    if n > 0 {
        lemma_pow256_pos((n - 1) as nat);
    }
}

pub proof fn lemma_pow256_mono(i: nat, j: nat)
    requires
        i <= j,
    ensures
        pow256(i) <= pow256(j),
    decreases j - i,
{
    if i < j {
        lemma_pow256_mono(i, (j - 1) as nat);
        lemma_pow256_pos((j - 1) as nat);
    }
}

/// The powers of 256 at the widths the decoders use.
pub proof fn lemma_pow256_vals()
    ensures
        pow256(1) == 0x100,
        pow256(2) == 0x10000,
        pow256(4) == 0x100000000,
        pow256(8) == 0x10000000000000000,
        pow256(15) == 0x1000000000000000000000000000000,
        pow256(16) == 0x100000000000000000000000000000000,
{
    assert(pow256(0) == 1);
    assert(pow256(1) == 0x100);
    assert(pow256(2) == 0x10000);
    assert(pow256(3) == 0x1000000);
    assert(pow256(4) == 0x100000000);
    assert(pow256(5) == 0x10000000000);
    assert(pow256(6) == 0x1000000000000);
    assert(pow256(7) == 0x100000000000000);
    assert(pow256(8) == 0x10000000000000000);
    assert(pow256(9) == 0x1000000000000000000);
    assert(pow256(10) == 0x100000000000000000000);
    assert(pow256(11) == 0x10000000000000000000000);
    assert(pow256(12) == 0x1000000000000000000000000);
    assert(pow256(13) == 0x100000000000000000000000000);
    assert(pow256(14) == 0x10000000000000000000000000000);
    assert(pow256(15) == 0x1000000000000000000000000000000);
    assert(pow256(16) == 0x100000000000000000000000000000000);
}

/// A big-endian byte run of length `n` denotes a value below `256 ^ n`.
pub proof fn lemma_be_val_bound(bytes: Seq<u8>)
    ensures
        be_val(bytes) < pow256(bytes.len() as nat),
    decreases bytes.len(),
{
    if bytes.len() > 0 {
        lemma_be_val_bound(bytes.drop_last());
    }
}

/// A little-endian byte run of length `n` denotes a value below `256 ^ n`.
pub proof fn lemma_le_val_bound(bytes: Seq<u8>)
    ensures
        le_val(bytes) < pow256(bytes.len() as nat),
    decreases bytes.len(),
{
    if bytes.len() > 0 {
        lemma_le_val_bound(bytes.drop_first());
    }
}

/// Accumulates the big-endian value of at most 16 bytes.
fn be_acc(s: &[u8]) -> (r: u128)
    requires
        s@.len() <= 16,
    ensures
        r == be_val(s@),
{
    let mut acc: u128 = 0;
    let mut i: usize = 0;
    let n = s.len();
    while i < n
        invariant
            0 <= i <= n == s@.len() <= 16,
            acc == be_val(s@.take(i as int)),
            acc < pow256(i as nat),
        decreases n - i,
    {
        proof {
            lemma_pow256_vals();
            lemma_pow256_mono(i as nat, 15);
        }
        let b = s[i];
        acc = acc * 256 + (b as u128);
        proof {
            assert(s@.take(i + 1).drop_last() =~= s@.take(i as int));
            assert(s@.take(i + 1).last() == s@[i as int]);
        }
        i = i + 1;
    }
    proof {
        assert(s@.take(n as int) =~= s@);
    }
    acc
}

/// Accumulates the little-endian value of at most 16 bytes.
fn le_acc(s: &[u8]) -> (r: u128)
    requires
        s@.len() <= 16,
    ensures
        r == le_val(s@),
{
    let mut acc: u128 = 0;
    let n = s.len();
    let mut i: usize = n;
    while i > 0
        invariant
            0 <= i <= n == s@.len() <= 16,
            acc == le_val(s@.skip(i as int)),
            acc < pow256((n - i) as nat),
        decreases i,
    {
        i = i - 1;
        proof {
            lemma_pow256_vals();
            lemma_pow256_mono((n - i - 1) as nat, 15);
        }
        let b = s[i];
        acc = acc * 256 + (b as u128);
        proof {
            assert(s@.skip(i as int).drop_first() =~= s@.skip(i + 1));
            assert(s@.skip(i as int).first() == s@[i as int]);
        }
    }
    proof {
        assert(s@.skip(0) =~= s@);
    }
    acc
}

/// The value of `bytes` read big-endian as a two's-complement signed
/// integer of the same width.
pub open spec fn be_ival(bytes: Seq<u8>) -> int {
    if 2 * be_val(bytes) >= pow256(bytes.len() as nat) {
        be_val(bytes) - pow256(bytes.len() as nat)
    } else {
        be_val(bytes) as int
    }
}

/// The value of `bytes` read little-endian as a two's-complement signed
/// integer of the same width.
pub open spec fn le_ival(bytes: Seq<u8>) -> int {
    if 2 * le_val(bytes) >= pow256(bytes.len() as nat) {
        le_val(bytes) - pow256(bytes.len() as nat)
    } else {
        le_val(bytes) as int
    }
}

/// A fixed-width integer decoded most-significant-byte-first.
#[derive(Copy, Clone, PartialEq, Eq, Structural, Debug)]
pub struct BigEndian<T>(pub T);

/// A fixed-width integer decoded least-significant-byte-first.
#[derive(Copy, Clone, PartialEq, Eq, Structural, Debug)]
pub struct LittleEndian<T>(pub T);

impl<T: DeepView> DeepView for BigEndian<T> {
    type V = T::V;

    open spec fn deep_view(&self) -> T::V {
        self.0.deep_view()
    }
}

impl<T: DeepView> DeepView for LittleEndian<T> {
    type V = T::V;

    open spec fn deep_view(&self) -> T::V {
        self.0.deep_view()
    }
}

impl<T: Copy> BigEndian<T> {
    /// Read-only access to the decoded value.
    pub fn value(&self) -> (r: T)
        ensures
            r == self.0,
    {
        self.0
    }
}

impl<T: Copy> LittleEndian<T> {
    /// Read-only access to the decoded value.
    pub fn value(&self) -> (r: T)
        ensures
            r == self.0,
    {
        self.0
    }
}


impl Unpack for BigEndian<u8> {
    type Error = UnpackError;

    open spec fn spec_unpack(bytes: Seq<u8>) -> (Result<u8, UnpackError>, int) {
        if bytes.len() >= 1 {
            (Ok(be_val(bytes.take(1)) as u8), 1)
        } else {
            (Err(UnpackError::NotEnoughBytes { expected: 1, found: bytes.len() as usize }), 0)
        }
    }

    fn unpack(buf: &mut &[u8]) -> (r: Result<Self, UnpackError>) {
        let bytes = match unpack_bytes(buf, 1) {
            Ok(b) => b,
            Err(e) => {
                return Err(e);
            },
        };
        let v = be_acc(bytes);
        proof {
            lemma_be_val_bound(bytes@);
            lemma_pow256_vals();
            assert(bytes@ == old(buf)@.take(1));
            assert(v < 0x100);
            assert((BigEndian(v as u8)).deep_view() == v as u8);
        }
        Ok(BigEndian(v as u8))
    }
}

impl Unpack for BigEndian<u16> {
    type Error = UnpackError;

    open spec fn spec_unpack(bytes: Seq<u8>) -> (Result<u16, UnpackError>, int) {
        if bytes.len() >= 2 {
            (Ok(be_val(bytes.take(2)) as u16), 2)
        } else {
            (Err(UnpackError::NotEnoughBytes { expected: 2, found: bytes.len() as usize }), 0)
        }
    }

    fn unpack(buf: &mut &[u8]) -> (r: Result<Self, UnpackError>) {
        let bytes = match unpack_bytes(buf, 2) {
            Ok(b) => b,
            Err(e) => {
                return Err(e);
            },
        };
        let v = be_acc(bytes);
        proof {
            lemma_be_val_bound(bytes@);
            lemma_pow256_vals();
            assert(bytes@ == old(buf)@.take(2));
            assert(v < 0x10000);
            assert((BigEndian(v as u16)).deep_view() == v as u16);
        }
        Ok(BigEndian(v as u16))
    }
}

impl Unpack for BigEndian<u32> {
    type Error = UnpackError;

    open spec fn spec_unpack(bytes: Seq<u8>) -> (Result<u32, UnpackError>, int) {
        if bytes.len() >= 4 {
            (Ok(be_val(bytes.take(4)) as u32), 4)
        } else {
            (Err(UnpackError::NotEnoughBytes { expected: 4, found: bytes.len() as usize }), 0)
        }
    }

    fn unpack(buf: &mut &[u8]) -> (r: Result<Self, UnpackError>) {
        let bytes = match unpack_bytes(buf, 4) {
            Ok(b) => b,
            Err(e) => {
                return Err(e);
            },
        };
        let v = be_acc(bytes);
        proof {
            lemma_be_val_bound(bytes@);
            lemma_pow256_vals();
            assert(bytes@ == old(buf)@.take(4));
            assert(v < 0x100000000);
            assert((BigEndian(v as u32)).deep_view() == v as u32);
        }
        Ok(BigEndian(v as u32))
    }
}

impl Unpack for BigEndian<u64> {
    type Error = UnpackError;

    open spec fn spec_unpack(bytes: Seq<u8>) -> (Result<u64, UnpackError>, int) {
        if bytes.len() >= 8 {
            (Ok(be_val(bytes.take(8)) as u64), 8)
        } else {
            (Err(UnpackError::NotEnoughBytes { expected: 8, found: bytes.len() as usize }), 0)
        }
    }

    fn unpack(buf: &mut &[u8]) -> (r: Result<Self, UnpackError>) {
        let bytes = match unpack_bytes(buf, 8) {
            Ok(b) => b,
            Err(e) => {
                return Err(e);
            },
        };
        let v = be_acc(bytes);
        proof {
            lemma_be_val_bound(bytes@);
            lemma_pow256_vals();
            assert(bytes@ == old(buf)@.take(8));
            assert(v < 0x10000000000000000);
            assert((BigEndian(v as u64)).deep_view() == v as u64);
        }
        Ok(BigEndian(v as u64))
    }
}

impl Unpack for BigEndian<u128> {
    type Error = UnpackError;

    open spec fn spec_unpack(bytes: Seq<u8>) -> (Result<u128, UnpackError>, int) {
        if bytes.len() >= 16 {
            (Ok(be_val(bytes.take(16)) as u128), 16)
        } else {
            (Err(UnpackError::NotEnoughBytes { expected: 16, found: bytes.len() as usize }), 0)
        }
    }

    fn unpack(buf: &mut &[u8]) -> (r: Result<Self, UnpackError>) {
        let bytes = match unpack_bytes(buf, 16) {
            Ok(b) => b,
            Err(e) => {
                return Err(e);
            },
        };
        let v = be_acc(bytes);
        proof {
            lemma_be_val_bound(bytes@);
            lemma_pow256_vals();
            assert(bytes@ == old(buf)@.take(16));
            assert(v < 0x100000000000000000000000000000000);
            assert((BigEndian(v as u128)).deep_view() == v as u128);
        }
        Ok(BigEndian(v as u128))
    }
}

impl Unpack for LittleEndian<u8> {
    type Error = UnpackError;

    open spec fn spec_unpack(bytes: Seq<u8>) -> (Result<u8, UnpackError>, int) {
        if bytes.len() >= 1 {
            (Ok(le_val(bytes.take(1)) as u8), 1)
        } else {
            (Err(UnpackError::NotEnoughBytes { expected: 1, found: bytes.len() as usize }), 0)
        }
    }

    fn unpack(buf: &mut &[u8]) -> (r: Result<Self, UnpackError>) {
        let bytes = match unpack_bytes(buf, 1) {
            Ok(b) => b,
            Err(e) => {
                return Err(e);
            },
        };
        let v = le_acc(bytes);
        proof {
            lemma_le_val_bound(bytes@);
            lemma_pow256_vals();
            assert(bytes@ == old(buf)@.take(1));
            assert(v < 0x100);
            assert((LittleEndian(v as u8)).deep_view() == v as u8);
        }
        Ok(LittleEndian(v as u8))
    }
}

impl Unpack for LittleEndian<u16> {
    type Error = UnpackError;

    open spec fn spec_unpack(bytes: Seq<u8>) -> (Result<u16, UnpackError>, int) {
        if bytes.len() >= 2 {
            (Ok(le_val(bytes.take(2)) as u16), 2)
        } else {
            (Err(UnpackError::NotEnoughBytes { expected: 2, found: bytes.len() as usize }), 0)
        }
    }

    fn unpack(buf: &mut &[u8]) -> (r: Result<Self, UnpackError>) {
        let bytes = match unpack_bytes(buf, 2) {
            Ok(b) => b,
            Err(e) => {
                return Err(e);
            },
        };
        let v = le_acc(bytes);
        proof {
            lemma_le_val_bound(bytes@);
            lemma_pow256_vals();
            assert(bytes@ == old(buf)@.take(2));
            assert(v < 0x10000);
            assert((LittleEndian(v as u16)).deep_view() == v as u16);
        }
        Ok(LittleEndian(v as u16))
    }
}

impl Unpack for LittleEndian<u32> {
    type Error = UnpackError;

    open spec fn spec_unpack(bytes: Seq<u8>) -> (Result<u32, UnpackError>, int) {
        if bytes.len() >= 4 {
            (Ok(le_val(bytes.take(4)) as u32), 4)
        } else {
            (Err(UnpackError::NotEnoughBytes { expected: 4, found: bytes.len() as usize }), 0)
        }
    }

    fn unpack(buf: &mut &[u8]) -> (r: Result<Self, UnpackError>) {
        let bytes = match unpack_bytes(buf, 4) {
            Ok(b) => b,
            Err(e) => {
                return Err(e);
            },
        };
        let v = le_acc(bytes);
        proof {
            lemma_le_val_bound(bytes@);
            lemma_pow256_vals();
            assert(bytes@ == old(buf)@.take(4));
            assert(v < 0x100000000);
            assert((LittleEndian(v as u32)).deep_view() == v as u32);
        }
        Ok(LittleEndian(v as u32))
    }
}

impl Unpack for LittleEndian<u64> {
    type Error = UnpackError;

    open spec fn spec_unpack(bytes: Seq<u8>) -> (Result<u64, UnpackError>, int) {
        if bytes.len() >= 8 {
            (Ok(le_val(bytes.take(8)) as u64), 8)
        } else {
            (Err(UnpackError::NotEnoughBytes { expected: 8, found: bytes.len() as usize }), 0)
        }
    }

    fn unpack(buf: &mut &[u8]) -> (r: Result<Self, UnpackError>) {
        let bytes = match unpack_bytes(buf, 8) {
            Ok(b) => b,
            Err(e) => {
                return Err(e);
            },
        };
        let v = le_acc(bytes);
        proof {
            lemma_le_val_bound(bytes@);
            lemma_pow256_vals();
            assert(bytes@ == old(buf)@.take(8));
            assert(v < 0x10000000000000000);
            assert((LittleEndian(v as u64)).deep_view() == v as u64);
        }
        Ok(LittleEndian(v as u64))
    }
}

impl Unpack for LittleEndian<u128> {
    type Error = UnpackError;

    open spec fn spec_unpack(bytes: Seq<u8>) -> (Result<u128, UnpackError>, int) {
        if bytes.len() >= 16 {
            (Ok(le_val(bytes.take(16)) as u128), 16)
        } else {
            (Err(UnpackError::NotEnoughBytes { expected: 16, found: bytes.len() as usize }), 0)
        }
    }

    fn unpack(buf: &mut &[u8]) -> (r: Result<Self, UnpackError>) {
        let bytes = match unpack_bytes(buf, 16) {
            Ok(b) => b,
            Err(e) => {
                return Err(e);
            },
        };
        let v = le_acc(bytes);
        proof {
            lemma_le_val_bound(bytes@);
            lemma_pow256_vals();
            assert(bytes@ == old(buf)@.take(16));
            assert(v < 0x100000000000000000000000000000000);
            assert((LittleEndian(v as u128)).deep_view() == v as u128);
        }
        Ok(LittleEndian(v as u128))
    }
}

/// Decoding a 16-bit integer consumes exactly its two leading bytes and
/// leaves the rest, for either byte order, whenever two bytes remain.
pub proof fn lemma_prefix_consumption(bytes: Seq<u8>)
    requires
        bytes.len() >= 2,
    ensures
        <BigEndian<u16> as Unpack>::spec_unpack(bytes).0 is Ok,
        <BigEndian<u16> as Unpack>::spec_unpack(bytes).1 == 2,
        <LittleEndian<u16> as Unpack>::spec_unpack(bytes).0 is Ok,
        <LittleEndian<u16> as Unpack>::spec_unpack(bytes).1 == 2,
{
}

/// Decoding a 16-bit integer from fewer than two bytes fails with the
/// missing-input error and consumes nothing, for either byte order.
pub proof fn lemma_insufficient_input(bytes: Seq<u8>)
    requires
        bytes.len() < 2,
    ensures
        <BigEndian<u16> as Unpack>::spec_unpack(bytes) == (Result::<u16, UnpackError>::Err(
            UnpackError::NotEnoughBytes { expected: 2, found: bytes.len() as usize },
        ), 0int),
        <LittleEndian<u16> as Unpack>::spec_unpack(bytes) == (Result::<u16, UnpackError>::Err(
            UnpackError::NotEnoughBytes { expected: 2, found: bytes.len() as usize },
        ), 0int),
{
}

impl Unpack for BigEndian<i16> {
    type Error = UnpackError;

    open spec fn spec_unpack(bytes: Seq<u8>) -> (Result<i16, UnpackError>, int) {
        if bytes.len() >= 2 {
            (Ok(be_ival(bytes.take(2)) as i16), 2)
        } else {
            (Err(UnpackError::NotEnoughBytes { expected: 2, found: bytes.len() as usize }), 0)
        }
    }

    fn unpack(buf: &mut &[u8]) -> (r: Result<Self, UnpackError>) {
        let bytes = match unpack_bytes(buf, 2) {
            Ok(b) => b,
            Err(e) => {
                return Err(e);
            },
        };
        let v = be_acc(bytes);
        proof {
            lemma_be_val_bound(bytes@);
            lemma_pow256_vals();
            assert(bytes@ == old(buf)@.take(2));
            assert(v < 0x10000);
        }
        let sv = v as i128;
        let x: i16 = if sv >= 0x8000 {
            (sv - 0x10000) as i16
        } else {
            sv as i16
        };
        proof {
            assert((BigEndian(x)).deep_view() == x);
            assert(x == be_ival(bytes@) as i16);
        }
        Ok(BigEndian(x))
    }
}

impl Unpack for BigEndian<i8> {
    type Error = UnpackError;

    open spec fn spec_unpack(bytes: Seq<u8>) -> (Result<i8, UnpackError>, int) {
        if bytes.len() >= 1 {
            (Ok(be_ival(bytes.take(1)) as i8), 1)
        } else {
            (Err(UnpackError::NotEnoughBytes { expected: 1, found: bytes.len() as usize }), 0)
        }
    }

    fn unpack(buf: &mut &[u8]) -> (r: Result<Self, UnpackError>) {
        let bytes = match unpack_bytes(buf, 1) {
            Ok(b) => b,
            Err(e) => {
                return Err(e);
            },
        };
        let v = be_acc(bytes);
        proof {
            lemma_be_val_bound(bytes@);
            lemma_pow256_vals();
            assert(bytes@ == old(buf)@.take(1));
            assert(v < 0x100);
        }
        let sv = v as i128;
        let x: i8 = if sv >= 0x80 {
            (sv - 0x100) as i8
        } else {
            sv as i8
        };
        proof {
            assert((BigEndian(x)).deep_view() == x);
            assert(x == be_ival(bytes@) as i8);
        }
        Ok(BigEndian(x))
    }
}

impl Unpack for BigEndian<i32> {
    type Error = UnpackError;

    open spec fn spec_unpack(bytes: Seq<u8>) -> (Result<i32, UnpackError>, int) {
        if bytes.len() >= 4 {
            (Ok(be_ival(bytes.take(4)) as i32), 4)
        } else {
            (Err(UnpackError::NotEnoughBytes { expected: 4, found: bytes.len() as usize }), 0)
        }
    }

    fn unpack(buf: &mut &[u8]) -> (r: Result<Self, UnpackError>) {
        let bytes = match unpack_bytes(buf, 4) {
            Ok(b) => b,
            Err(e) => {
                return Err(e);
            },
        };
        let v = be_acc(bytes);
        proof {
            lemma_be_val_bound(bytes@);
            lemma_pow256_vals();
            assert(bytes@ == old(buf)@.take(4));
            assert(v < 0x100000000);
        }
        let sv = v as i128;
        let x: i32 = if sv >= 0x80000000 {
            (sv - 0x100000000) as i32
        } else {
            sv as i32
        };
        proof {
            assert((BigEndian(x)).deep_view() == x);
            assert(x == be_ival(bytes@) as i32);
        }
        Ok(BigEndian(x))
    }
}

impl Unpack for BigEndian<i64> {
    type Error = UnpackError;

    open spec fn spec_unpack(bytes: Seq<u8>) -> (Result<i64, UnpackError>, int) {
        if bytes.len() >= 8 {
            (Ok(be_ival(bytes.take(8)) as i64), 8)
        } else {
            (Err(UnpackError::NotEnoughBytes { expected: 8, found: bytes.len() as usize }), 0)
        }
    }

    fn unpack(buf: &mut &[u8]) -> (r: Result<Self, UnpackError>) {
        let bytes = match unpack_bytes(buf, 8) {
            Ok(b) => b,
            Err(e) => {
                return Err(e);
            },
        };
        let v = be_acc(bytes);
        proof {
            lemma_be_val_bound(bytes@);
            lemma_pow256_vals();
            assert(bytes@ == old(buf)@.take(8));
            assert(v < 0x10000000000000000);
        }
        let sv = v as i128;
        let x: i64 = if sv >= 0x8000000000000000 {
            (sv - 0x10000000000000000) as i64
        } else {
            sv as i64
        };
        proof {
            assert((BigEndian(x)).deep_view() == x);
            assert(x == be_ival(bytes@) as i64);
        }
        Ok(BigEndian(x))
    }
}

impl Unpack for BigEndian<i128> {
    type Error = UnpackError;

    open spec fn spec_unpack(bytes: Seq<u8>) -> (Result<i128, UnpackError>, int) {
        if bytes.len() >= 16 {
            (Ok(be_ival(bytes.take(16)) as i128), 16)
        } else {
            (Err(UnpackError::NotEnoughBytes { expected: 16, found: bytes.len() as usize }), 0)
        }
    }

    fn unpack(buf: &mut &[u8]) -> (r: Result<Self, UnpackError>) {
        let bytes = match unpack_bytes(buf, 16) {
            Ok(b) => b,
            Err(e) => {
                return Err(e);
            },
        };
        let v = be_acc(bytes);
        proof {
            lemma_be_val_bound(bytes@);
            lemma_pow256_vals();
            assert(bytes@ == old(buf)@.take(16));
        }
        let x: i128 = if v >= 0x80000000000000000000000000000000u128 {
            ((v - 0x80000000000000000000000000000000u128) as i128) + i128::MIN
        } else {
            v as i128
        };
        proof {
            assert((BigEndian(x)).deep_view() == x);
            assert(x == be_ival(bytes@) as i128);
        }
        Ok(BigEndian(x))
    }
}

impl Unpack for LittleEndian<i8> {
    type Error = UnpackError;

    open spec fn spec_unpack(bytes: Seq<u8>) -> (Result<i8, UnpackError>, int) {
        if bytes.len() >= 1 {
            (Ok(le_ival(bytes.take(1)) as i8), 1)
        } else {
            (Err(UnpackError::NotEnoughBytes { expected: 1, found: bytes.len() as usize }), 0)
        }
    }

    fn unpack(buf: &mut &[u8]) -> (r: Result<Self, UnpackError>) {
        let bytes = match unpack_bytes(buf, 1) {
            Ok(b) => b,
            Err(e) => {
                return Err(e);
            },
        };
        let v = le_acc(bytes);
        proof {
            lemma_le_val_bound(bytes@);
            lemma_pow256_vals();
            assert(bytes@ == old(buf)@.take(1));
            assert(v < 0x100);
        }
        let sv = v as i128;
        let x: i8 = if sv >= 0x80 {
            (sv - 0x100) as i8
        } else {
            sv as i8
        };
        proof {
            assert((LittleEndian(x)).deep_view() == x);
            assert(x == le_ival(bytes@) as i8);
        }
        Ok(LittleEndian(x))
    }
}

impl Unpack for LittleEndian<i16> {
    type Error = UnpackError;

    open spec fn spec_unpack(bytes: Seq<u8>) -> (Result<i16, UnpackError>, int) {
        if bytes.len() >= 2 {
            (Ok(le_ival(bytes.take(2)) as i16), 2)
        } else {
            (Err(UnpackError::NotEnoughBytes { expected: 2, found: bytes.len() as usize }), 0)
        }
    }

    fn unpack(buf: &mut &[u8]) -> (r: Result<Self, UnpackError>) {
        let bytes = match unpack_bytes(buf, 2) {
            Ok(b) => b,
            Err(e) => {
                return Err(e);
            },
        };
        let v = le_acc(bytes);
        proof {
            lemma_le_val_bound(bytes@);
            lemma_pow256_vals();
            assert(bytes@ == old(buf)@.take(2));
            assert(v < 0x10000);
        }
        let sv = v as i128;
        let x: i16 = if sv >= 0x8000 {
            (sv - 0x10000) as i16
        } else {
            sv as i16
        };
        proof {
            assert((LittleEndian(x)).deep_view() == x);
            assert(x == le_ival(bytes@) as i16);
        }
        Ok(LittleEndian(x))
    }
}

impl Unpack for LittleEndian<i32> {
    type Error = UnpackError;

    open spec fn spec_unpack(bytes: Seq<u8>) -> (Result<i32, UnpackError>, int) {
        if bytes.len() >= 4 {
            (Ok(le_ival(bytes.take(4)) as i32), 4)
        } else {
            (Err(UnpackError::NotEnoughBytes { expected: 4, found: bytes.len() as usize }), 0)
        }
    }

    fn unpack(buf: &mut &[u8]) -> (r: Result<Self, UnpackError>) {
        let bytes = match unpack_bytes(buf, 4) {
            Ok(b) => b,
            Err(e) => {
                return Err(e);
            },
        };
        let v = le_acc(bytes);
        proof {
            lemma_le_val_bound(bytes@);
            lemma_pow256_vals();
            assert(bytes@ == old(buf)@.take(4));
            assert(v < 0x100000000);
        }
        let sv = v as i128;
        let x: i32 = if sv >= 0x80000000 {
            (sv - 0x100000000) as i32
        } else {
            sv as i32
        };
        proof {
            assert((LittleEndian(x)).deep_view() == x);
            assert(x == le_ival(bytes@) as i32);
        }
        Ok(LittleEndian(x))
    }
}

impl Unpack for LittleEndian<i64> {
    type Error = UnpackError;

    open spec fn spec_unpack(bytes: Seq<u8>) -> (Result<i64, UnpackError>, int) {
        if bytes.len() >= 8 {
            (Ok(le_ival(bytes.take(8)) as i64), 8)
        } else {
            (Err(UnpackError::NotEnoughBytes { expected: 8, found: bytes.len() as usize }), 0)
        }
    }

    fn unpack(buf: &mut &[u8]) -> (r: Result<Self, UnpackError>) {
        let bytes = match unpack_bytes(buf, 8) {
            Ok(b) => b,
            Err(e) => {
                return Err(e);
            },
        };
        let v = le_acc(bytes);
        proof {
            lemma_le_val_bound(bytes@);
            lemma_pow256_vals();
            assert(bytes@ == old(buf)@.take(8));
            assert(v < 0x10000000000000000);
        }
        let sv = v as i128;
        let x: i64 = if sv >= 0x8000000000000000 {
            (sv - 0x10000000000000000) as i64
        } else {
            sv as i64
        };
        proof {
            assert((LittleEndian(x)).deep_view() == x);
            assert(x == le_ival(bytes@) as i64);
        }
        Ok(LittleEndian(x))
    }
}

impl Unpack for LittleEndian<i128> {
    type Error = UnpackError;

    open spec fn spec_unpack(bytes: Seq<u8>) -> (Result<i128, UnpackError>, int) {
        if bytes.len() >= 16 {
            (Ok(le_ival(bytes.take(16)) as i128), 16)
        } else {
            (Err(UnpackError::NotEnoughBytes { expected: 16, found: bytes.len() as usize }), 0)
        }
    }

    fn unpack(buf: &mut &[u8]) -> (r: Result<Self, UnpackError>) {
        let bytes = match unpack_bytes(buf, 16) {
            Ok(b) => b,
            Err(e) => {
                return Err(e);
            },
        };
        let v = le_acc(bytes);
        proof {
            lemma_le_val_bound(bytes@);
            lemma_pow256_vals();
            assert(bytes@ == old(buf)@.take(16));
        }
        let x: i128 = if v >= 0x80000000000000000000000000000000u128 {
            ((v - 0x80000000000000000000000000000000u128) as i128) + i128::MIN
        } else {
            v as i128
        };
        proof {
            assert((LittleEndian(x)).deep_view() == x);
            assert(x == le_ival(bytes@) as i128);
        }
        Ok(LittleEndian(x))
    }
}

} // verus!
