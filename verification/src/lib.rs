//! A binary deserialization library: decoders consume a prefix of a byte
//! buffer and advance it, returning either a fully decoded value or a
//! definitive error.
//!
//! The buffer cursor is a `&mut &[u8]`: decoding moves the inner slice
//! forward over the bytes it consumed. Every decoder's behaviour is pinned
//! by a `spec_unpack` model function: for any input bytes it gives the
//! decoded value (or the error) together with the exact number of bytes
//! consumed.

use vstd::prelude::*;
use vstd::string::StringSliceAdditionalSpecFns;
use vstd::utf8::decode_utf8;
use vstd::utf8::valid_utf8;

mod number;
mod unpack;

pub use number::BigEndian;
pub use number::LittleEndian;
pub use number::be_ival;
pub use number::be_val;
pub use number::le_ival;
pub use number::le_val;
pub use number::lemma_insufficient_input;
pub use number::lemma_prefix_consumption;
pub use unpack::ArrayString;
pub use unpack::ArrayVec;
pub use unpack::FromHex;
pub use unpack::HexError;
pub use unpack::hex_bytes;
pub use unpack::hex_digit_val;
pub use unpack::hex_error_of;
pub use unpack::hex_valid;
pub use unpack::is_hex_digit;
pub use unpack::lemma_capacity_exceeded;

verus! {

/// Errors reported by the decoders.
#[derive(Copy, Clone, PartialEq, Eq, Structural, Debug)]
pub enum UnpackError {
    /// Fewer bytes remain in the buffer than the decode requires.
    NotEnoughBytes { expected: usize, found: usize },
    /// The consumed bytes are not well-formed UTF-8 where text was required.
    Utf8Error,
    /// A requested length exceeds a bounded container's fixed capacity.
    TooManyBytes { expected: usize, found: usize },
    /// A hex convenience input is not valid hex.
    DecodeHex(crate::unpack::HexError),
}

/// The UTF-8 reading of `bytes`: `Some` of their decoded characters exactly
/// when the bytes are a well-formed encoding.
pub open spec fn utf8_decode(bytes: Seq<u8>) -> Option<Seq<char>> {
    if valid_utf8(bytes) {
        Some(decode_utf8(bytes))
    } else {
        None
    }
}

/// Relies on `std::str::from_utf8`: it returns `Ok` exactly when the bytes
/// are well-formed UTF-8, and the returned string views those same bytes.
#[verifier::external_body]
pub(crate) fn bytes_as_str<'a>(b: &'a [u8]) -> (r: Option<&'a str>)
    ensures
        match r {
            Some(s) => valid_utf8(b@) && s@ == decode_utf8(b@) && s.spec_bytes() == b@,
            None => !valid_utf8(b@),
        },
{
    std::str::from_utf8(b).ok()
}

/// The deep view of a byte slice is its sequence of bytes.
pub proof fn lemma_bytes_deep_view(s: &[u8])
    ensures
        s.deep_view() == s@,
{
    assert(s.deep_view() =~= s@);
}

/// The deep view of a byte vector is its sequence of bytes.
pub proof fn lemma_vec_u8_deep_view(v: &Vec<u8>)
    ensures
        v.deep_view() == v@,
{
    assert(v.deep_view() =~= v@);
}

/// The outcome of decoding a borrowed byte slice of length `len`, and the
/// count of bytes consumed.
pub open spec fn spec_unpack_bytes(bytes: Seq<u8>, len: int) -> (Result<Seq<u8>, UnpackError>, int) {
    if len <= bytes.len() {
        (Ok(bytes.take(len)), len)
    } else {
        (Err(UnpackError::NotEnoughBytes { expected: len as usize, found: bytes.len() as usize }), 0)
    }
}

/// The outcome of decoding text of byte length `len`, and the count of
/// bytes consumed. A failed encoding check consumes exactly `len` bytes.
pub open spec fn spec_unpack_str(bytes: Seq<u8>, len: int) -> (Result<Seq<char>, UnpackError>, int) {
    if len > bytes.len() {
        (Err(UnpackError::NotEnoughBytes { expected: len as usize, found: bytes.len() as usize }), 0)
    } else {
        match utf8_decode(bytes.take(len)) {
            Some(chars) => (Ok(chars), len),
            None => (Err(UnpackError::Utf8Error), len),
        }
    }
}

/// Decodes the next `len` bytes as a zero-copy view and advances `buf` past
/// them; fails without consuming anything when fewer than `len` remain.
pub fn unpack_bytes<'b>(buf: &mut &'b [u8], len: usize) -> (r: Result<&'b [u8], UnpackError>)
    ensures
        ({
            let (res, n) = spec_unpack_bytes(old(buf)@, len as int);
            &&& 0 <= n <= old(buf)@.len()
            &&& final(buf)@ == old(buf)@.skip(n)
            &&& match res {
                Ok(m) => r matches Ok(v) && v@ == m,
                Err(e) => r matches Err(e2) && e2 == e,
            }
        }),
{
    if buf.len() < len {
        Err(UnpackError::NotEnoughBytes { expected: len, found: buf.len() })
    } else {
        let head = vstd::slice::slice_subrange(*buf, 0, len);
        let rest = vstd::slice::slice_subrange(*buf, len, buf.len());
        *buf = rest;
        proof {
            assert(head@ =~= old(buf)@.take(len as int));
            assert(rest@ =~= old(buf)@.skip(len as int));
        }
        Ok(head)
    }
}

/// Decodes the next `len` bytes as borrowed text, advancing `buf` past them
/// even when the encoding check fails.
pub fn unpack_str<'b>(buf: &mut &'b [u8], len: usize) -> (r: Result<&'b str, UnpackError>)
    ensures
        ({
            let (res, n) = spec_unpack_str(old(buf)@, len as int);
            &&& 0 <= n <= old(buf)@.len()
            &&& final(buf)@ == old(buf)@.skip(n)
            &&& match res {
                Ok(m) => r matches Ok(v) && v@ == m && v.spec_bytes() == old(buf)@.take(
                    len as int,
                ),
                Err(e) => r matches Err(e2) && e2 == e,
            }
        }),
{
    let bytes: &'b [u8] = match unpack_bytes(buf, len) {
        Ok(b) => b,
        Err(e) => {
            return Err(e);
        },
    };
    match bytes_as_str(bytes) {
        Some(s) => Ok(s),
        None => Err(UnpackError::Utf8Error),
    }
}

/// A decoder whose byte length is supplied by the caller at the call site.
///
/// `spec_unpack(bytes, len)` is the mathematical meaning of the decode: the
/// result (a deep view of the decoded value, or the error) and how many of
/// the leading bytes the decode consumes, in both outcomes.
pub trait UnpackLength<'a>: Sized + DeepView {
    type Error;

    /// The decode's outcome and the number of bytes consumed.
    spec fn spec_unpack(bytes: Seq<u8>, len: int) -> (Result<<Self as DeepView>::V, Self::Error>, int);

    /// Decodes `Self` from the next `len` bytes of `buf`, advancing `buf`
    /// over exactly the consumed bytes.
    fn unpack(buf: &mut &'a [u8], len: usize) -> (r: Result<Self, Self::Error>)
        ensures
            ({
                let (res, n) = Self::spec_unpack(old(buf)@, len as int);
                &&& 0 <= n <= old(buf)@.len()
                &&& final(buf)@ == old(buf)@.skip(n)
                &&& match res {
                    Ok(m) => r matches Ok(v) && v.deep_view() == m,
                    Err(e) => r matches Err(e2) && e2 == e,
                }
            }),
    ;

    /// Runs the decode against the current position without advancing it.
    fn peek(buf: &'a [u8], len: usize) -> (r: Result<Self, Self::Error>)
        ensures
            ({
                let (res, n) = Self::spec_unpack(buf@, len as int);
                match res {
                    Ok(m) => r matches Ok(v) && v.deep_view() == m,
                    Err(e) => r matches Err(e2) && e2 == e,
                }
            }),
    {
        let mut b: &'a [u8] = buf;
        Self::unpack(&mut b, len)
    }
}

/// A decoder whose byte length is fixed by the decoded type itself.
///
/// `spec_unpack(bytes)` is the mathematical meaning of the decode: the
/// result (a deep view of the decoded value, or the error) and how many of
/// the leading bytes the decode consumes, in both outcomes.
pub trait Unpack: Sized + DeepView {
    type Error;

    /// The decode's outcome and the number of bytes consumed.
    spec fn spec_unpack(bytes: Seq<u8>) -> (Result<<Self as DeepView>::V, Self::Error>, int);

    /// Decodes `Self` from the front of `buf`, advancing `buf` over exactly
    /// the consumed bytes.
    fn unpack(buf: &mut &[u8]) -> (r: Result<Self, Self::Error>)
        ensures
            ({
                let (res, n) = Self::spec_unpack(old(buf)@);
                &&& 0 <= n <= old(buf)@.len()
                &&& final(buf)@ == old(buf)@.skip(n)
                &&& match res {
                    Ok(m) => r matches Ok(v) && v.deep_view() == m,
                    Err(e) => r matches Err(e2) && e2 == e,
                }
            }),
    ;

    /// Runs the decode against the current position without advancing it.
    fn peek(buf: &[u8]) -> (r: Result<Self, Self::Error>)
        ensures
            ({
                let (res, n) = Self::spec_unpack(buf@);
                match res {
                    Ok(m) => r matches Ok(v) && v.deep_view() == m,
                    Err(e) => r matches Err(e2) && e2 == e,
                }
            }),
    {
        let mut b: &[u8] = buf;
        Self::unpack(&mut b)
    }
}

impl<'a> UnpackLength<'a> for &'a [u8] {
    type Error = UnpackError;

    open spec fn spec_unpack(bytes: Seq<u8>, len: int) -> (Result<Seq<u8>, UnpackError>, int) {
        spec_unpack_bytes(bytes, len)
    }

    fn unpack(buf: &mut &'a [u8], len: usize) -> (r: Result<&'a [u8], UnpackError>) {
        let r = unpack_bytes(buf, len);
        proof {
            if r is Ok {
                lemma_bytes_deep_view(r->Ok_0);
            }
        }
        r
    }
}

impl<'a> UnpackLength<'a> for &'a str {
    type Error = UnpackError;

    open spec fn spec_unpack(bytes: Seq<u8>, len: int) -> (Result<Seq<char>, UnpackError>, int) {
        spec_unpack_str(bytes, len)
    }

    fn unpack(buf: &mut &'a [u8], len: usize) -> (r: Result<&'a str, UnpackError>) {
        let r = unpack_str(buf, len);
        proof {
            if r is Ok {
                assert((r->Ok_0).deep_view() == (r->Ok_0)@);
            }
        }
        r
    }
}

impl<'a> UnpackLength<'a> for Vec<u8> {
    type Error = UnpackError;

    open spec fn spec_unpack(bytes: Seq<u8>, len: int) -> (Result<Seq<u8>, UnpackError>, int) {
        spec_unpack_bytes(bytes, len)
    }

    fn unpack(buf: &mut &'a [u8], len: usize) -> (r: Result<Vec<u8>, UnpackError>) {
        let bytes: &[u8] = match unpack_bytes(buf, len) {
            Ok(b) => b,
            Err(e) => {
                return Err(e);
            },
        };
        let v = vstd::slice::slice_to_vec(bytes);
        proof {
            lemma_vec_u8_deep_view(&v);
        }
        Ok(v)
    }
}

impl<'a> UnpackLength<'a> for String {
    type Error = UnpackError;

    open spec fn spec_unpack(bytes: Seq<u8>, len: int) -> (Result<Seq<char>, UnpackError>, int) {
        spec_unpack_str(bytes, len)
    }

    fn unpack(buf: &mut &'a [u8], len: usize) -> (r: Result<String, UnpackError>) {
        let s: &str = match unpack_str(buf, len) {
            Ok(s) => s,
            Err(e) => {
                return Err(e);
            },
        };
        Ok(s.to_owned())
    }
}

/// Relies on `<&[u8] as TryInto<[u8; N]>>::try_into`: a slice of length `N`
/// converts into the array holding the same bytes.
#[verifier::external_body]
fn slice_to_array<const N: usize>(b: &[u8]) -> (r: [u8; N])
    requires
        b@.len() == N,
    ensures
        r@ == b@,
{
    b.try_into().unwrap()
}

/// Relies on `<Vec<T> as TryInto<[T; N]>>::try_into`: a vector of length `N`
/// converts into the array holding the same elements.
#[verifier::external_body]
fn vec_to_array<T, const N: usize>(v: Vec<T>) -> (r: [T; N])
    requires
        v@.len() == N,
    ensures
        r@ == v@,
{
    v.try_into().ok().unwrap()
}

/// The outcome of decoding `count` elements of type `U` in order, and the
/// total count of bytes consumed; the first element failure aborts the
/// sequence with that element's own error.
pub open spec fn spec_unpack_elems<U: Unpack>(bytes: Seq<u8>, count: int) -> (Result<
    Seq<<U as DeepView>::V>,
    U::Error,
>, int)
    decreases count,
{
    if count <= 0 {
        (Ok(Seq::empty()), 0)
    } else {
        let (r0, n0) = U::spec_unpack(bytes);
        match r0 {
            Err(e) => (Err(e), n0),
            Ok(m) => {
                let (r1, n1) = spec_unpack_elems::<U>(bytes.skip(n0), count - 1);
                match r1 {
                    Err(e) => (Err(e), n0 + n1),
                    Ok(ms) => (Ok(ms.insert(0, m)), n0 + n1),
                }
            },
        }
    }
}

/// Decodes `count` elements of type `U` in order, aborting on the first
/// element failure; a successfully decoded prefix is discarded.
pub fn unpack_elems<U: Unpack>(buf: &mut &[u8], count: usize) -> (r: Result<Vec<U>, U::Error>)
    ensures
        ({
            let (res, n) = spec_unpack_elems::<U>(old(buf)@, count as int);
            &&& 0 <= n <= old(buf)@.len()
            &&& final(buf)@ == old(buf)@.skip(n)
            &&& match res {
                Ok(m) => r matches Ok(v) && v.deep_view() == m,
                Err(e) => r matches Err(e2) && e2 == e,
            }
        }),
    decreases count,
{
    if count == 0 {
        let empty: Vec<U> = Vec::new();
        proof {
            assert(old(buf)@.skip(0) =~= old(buf)@);
            assert(empty.deep_view() =~= Seq::<<U as DeepView>::V>::empty());
        }
        Ok(empty)
    } else {
        let ghost (r0, n0) = U::spec_unpack(old(buf)@);
        let item = match U::unpack(buf) {
            Ok(i) => i,
            Err(e) => {
                return Err(e);
            },
        };
        let ghost mid = buf@;
        let ghost (r1, n1) = spec_unpack_elems::<U>(mid, count - 1);
        let mut rest = match unpack_elems::<U>(buf, count - 1) {
            Ok(v) => v,
            Err(e) => {
                proof {
                    assert(old(buf)@.skip(n0).skip(n1) =~= old(buf)@.skip(n0 + n1));
                }
                return Err(e);
            },
        };
        proof {
            assert(old(buf)@.skip(n0).skip(n1) =~= old(buf)@.skip(n0 + n1));
        }
        let ghost prev = rest@;
        let ghost ms = rest.deep_view();
        rest.insert(0, item);
        proof {
            let full = ms.insert(0, item.deep_view());
            prev.insert_ensures(0, item);
            ms.insert_ensures(0, item.deep_view());
            assert forall|i: int| 0 <= i < rest.deep_view().len() implies rest.deep_view()[i]
                == full[i] by {
                if i == 0 {
                    assert(rest@[0] == item);
                } else {
                    assert(rest@[i] == prev[i - 1]);
                    assert(full[i] == ms[i - 1]);
                }
            }
            assert(rest.deep_view() =~= full);
        }
        Ok(rest)
    }
}

impl<const N: usize> Unpack for [u8; N] {
    type Error = UnpackError;

    open spec fn spec_unpack(bytes: Seq<u8>) -> (Result<Seq<u8>, UnpackError>, int) {
        spec_unpack_bytes(bytes, N as int)
    }

    fn unpack(buf: &mut &[u8]) -> (r: Result<[u8; N], UnpackError>) {
        let bytes = match unpack_bytes(buf, N) {
            Ok(b) => b,
            Err(e) => {
                return Err(e);
            },
        };
        let arr = slice_to_array::<N>(bytes);
        proof {
            assert(arr.deep_view() =~= arr@);
        }
        Ok(arr)
    }
}

impl<const N: usize, T: Unpack> Unpack for [T; N] {
    type Error = T::Error;

    open spec fn spec_unpack(bytes: Seq<u8>) -> (Result<Seq<<T as DeepView>::V>, T::Error>, int) {
        spec_unpack_elems::<T>(bytes, N as int)
    }

    fn unpack(buf: &mut &[u8]) -> (r: Result<[T; N], T::Error>) {
        let items: Vec<T> = match unpack_elems::<T>(buf, N) {
            Ok(v) => v,
            Err(e) => {
                return Err(e);
            },
        };
        proof {
            lemma_spec_unpack_elems_count::<T>(old(buf)@, N as int);
        }
        let arr = vec_to_array::<T, N>(items);
        proof {
            assert(arr.deep_view() =~= items.deep_view());
        }
        Ok(arr)
    }
}

/// A successful element-sequence decode yields exactly `count` elements.
pub proof fn lemma_spec_unpack_elems_count<U: Unpack>(bytes: Seq<u8>, count: int)
    ensures
        ({
            let (res, n) = spec_unpack_elems::<U>(bytes, count);
            res matches Ok(m) ==> m.len() == if count <= 0 {
                0
            } else {
                count
            }
        }),
    decreases count,
{
    if count > 0 {
        let (r0, n0) = U::spec_unpack(bytes);
        if r0 is Ok {
            lemma_spec_unpack_elems_count::<U>(bytes.skip(n0), count - 1);
        }
    }
}

/// A fixed-size byte-array decode is observably identical to the
/// length-qualified slice decode whose length is the array's size: same
/// value bytes, same error, same consumption.
pub proof fn lemma_array_matches_slice<const N: usize>(bytes: Seq<u8>)
    ensures
        <[u8; N] as Unpack>::spec_unpack(bytes) == spec_unpack_bytes(bytes, N as int),
{
}

/// Length-valid but encoding-invalid bytes fail the text decode with the
/// encoding error, while the same bytes succeed as a raw slice decode.
pub proof fn lemma_text_encoding_boundary(bytes: Seq<u8>, len: int)
    requires
        0 <= len <= bytes.len(),
        utf8_decode(bytes.take(len)) is None,
    ensures
        spec_unpack_str(bytes, len).0 == Result::<Seq<char>, UnpackError>::Err(
            UnpackError::Utf8Error,
        ),
        spec_unpack_str(bytes, len).1 == len,
        spec_unpack_bytes(bytes, len).0 == Result::<Seq<u8>, UnpackError>::Ok(bytes.take(len)),
{
}

impl<'a, U: Unpack> UnpackLength<'a> for Vec<U> {
    type Error = U::Error;

    open spec fn spec_unpack(bytes: Seq<u8>, len: int) -> (Result<
        Seq<<U as DeepView>::V>,
        U::Error,
    >, int) {
        spec_unpack_elems::<U>(bytes, len)
    }

    fn unpack(buf: &mut &'a [u8], len: usize) -> (r: Result<Vec<U>, U::Error>) {
        unpack_elems::<U>(buf, len)
    }
}

} // verus!
