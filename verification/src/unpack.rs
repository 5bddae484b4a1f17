//! Bounded-capacity container decoding and hex-based construction.
//!
//! `ArrayVec` and `ArrayString` hold at most `N` elements or bytes; a
//! length-qualified decode whose requested length exceeds that capacity
//! fails before consuming anything. `FromHex` builds any self-describing
//! decodable value from an ASCII hex string.

use vstd::prelude::*;
use vstd::string::StringSliceAdditionalSpecFns;
use vstd::utf8::decode_utf8;
use vstd::utf8::decode_utf8_encode_utf8;
use vstd::utf8::encode_utf8;
use vstd::utf8::valid_utf8;

use crate::Unpack;
use crate::UnpackError;
use crate::UnpackLength;
use crate::bytes_as_str;
use crate::lemma_vec_u8_deep_view;
use crate::spec_unpack_bytes;
use crate::spec_unpack_elems;
use crate::spec_unpack_str;
use crate::unpack_bytes;
use crate::unpack_elems;
use crate::utf8_decode;

verus! {

/// The ways a hex input can be malformed.
#[derive(Copy, Clone, PartialEq, Eq, Structural, Debug)]
pub enum HexError {
    /// The input holds an odd number of digits.
    OddLength,
    /// The byte at `index`, shown as `c`, is not an ASCII hex digit.
    InvalidHexCharacter { c: char, index: usize },
    /// Reported by fixed-destination hex decoding only; the decoding used
    /// here never produces it.
    InvalidStringLength,
}

/// Whether the byte `b` is an ASCII hex digit.
pub open spec fn is_hex_digit(b: u8) -> bool {
    (0x30 <= b && b <= 0x39) || (0x61 <= b && b <= 0x66) || (0x41 <= b && b <= 0x46)
}

/// The numeric value of the ASCII hex digit `b`.
pub open spec fn hex_digit_val(b: u8) -> nat {
    if 0x30 <= b && b <= 0x39 {
        (b - 0x30) as nat
    } else if 0x61 <= b && b <= 0x66 {
        (b - 0x61 + 10) as nat
    } else if 0x41 <= b && b <= 0x46 {
        (b - 0x41 + 10) as nat
    } else {
        0
    }
}

/// Whether `s` is well-formed hex: even length, hex digits throughout.
pub open spec fn hex_valid(s: Seq<u8>) -> bool {
    &&& s.len() % 2 == 0
    &&& forall|i: int| 0 <= i < s.len() ==> is_hex_digit(#[trigger] s[i])
}

/// The bytes a well-formed hex string denotes: one byte per digit pair.
pub open spec fn hex_bytes(s: Seq<u8>) -> Seq<u8>
    decreases s.len(),
{
    if s.len() < 2 {
        Seq::empty()
    } else {
        seq![(hex_digit_val(s[0]) * 16 + hex_digit_val(s[1])) as u8] + hex_bytes(s.skip(2))
    }
}

/// The error an ill-formed hex input is reported with: its odd length, or
/// else its first non-digit byte.
pub open spec fn hex_error_of(s: Seq<u8>) -> HexError {
    if s.len() % 2 != 0 {
        HexError::OddLength
    } else {
        let i = choose|i: int|
            0 <= i < s.len() && !is_hex_digit(s[i]) && (forall|j: int|
                0 <= j < i ==> is_hex_digit(#[trigger] s[j]));
        HexError::InvalidHexCharacter { c: s[i] as char, index: i as usize }
    }
}

/// Relies on `hex::decode`: an even run of hex digits decodes pairwise into
/// bytes; otherwise the error names the odd length, or the first byte that
/// is not a hex digit together with its position.
#[verifier::external_body]
fn hex_decode(s: &[u8]) -> (r: Result<Vec<u8>, HexError>)
    ensures
        match r {
            Ok(v) => hex_valid(s@) && v@ == hex_bytes(s@),
            Err(e) => !hex_valid(s@) && match e {
                HexError::OddLength => s@.len() % 2 != 0,
                HexError::InvalidHexCharacter { c, index } => {
                    &&& s@.len() % 2 == 0
                    &&& 0 <= index < s@.len()
                    &&& c == s@[index as int] as char
                    &&& !is_hex_digit(s@[index as int])
                    &&& forall|j: int| 0 <= j < index ==> is_hex_digit(#[trigger] s@[j])
                },
                HexError::InvalidStringLength => false,
            },
        },
{
    match hex::decode(s) {
        Ok(v) => Ok(v),
        Err(hex::FromHexError::OddLength) => Err(HexError::OddLength),
        Err(hex::FromHexError::InvalidHexCharacter { c, index }) => Err(
            HexError::InvalidHexCharacter { c, index },
        ),
        Err(hex::FromHexError::InvalidStringLength) => Err(HexError::InvalidStringLength),
    }
}

/// Construction of a decodable value from an ASCII hex string.
///
/// Provided for every self-describing decoder that reports the shared
/// `UnpackError`; a decoder with an error type of its own does not take
/// part, since the hex failure could not be carried in it.
pub trait FromHex: Sized + DeepView {
    /// The outcome: a hex-decode failure, or the value the denoted bytes
    /// decode to.
    spec fn spec_from_hex(hex: Seq<u8>) -> Result<<Self as DeepView>::V, UnpackError>;

    /// Hex-decodes `hex`, then decodes `Self` from the front of the
    /// resulting bytes.
    fn from_hex(hex: &[u8]) -> (r: Result<Self, UnpackError>)
        ensures
            match Self::spec_from_hex(hex@) {
                Ok(m) => r matches Ok(v) && v.deep_view() == m,
                Err(e) => r matches Err(e2) && e2 == e,
            },
    ;
}

impl<U: Unpack<Error = UnpackError>> FromHex for U {
    open spec fn spec_from_hex(hex: Seq<u8>) -> Result<<U as DeepView>::V, UnpackError> {
        if !hex_valid(hex) {
            Err(UnpackError::DecodeHex(hex_error_of(hex)))
        } else {
            U::spec_unpack(hex_bytes(hex)).0
        }
    }

    fn from_hex(hex: &[u8]) -> (r: Result<U, UnpackError>) {
        let bytes = match hex_decode(hex) {
            Ok(v) => v,
            Err(e) => {
                proof {
                    match e {
                        HexError::InvalidHexCharacter { c: _, index } => {
                            let i = choose|i: int|
                                0 <= i < hex@.len() && !is_hex_digit(hex@[i]) && (forall|j: int|
                                    0 <= j < i ==> is_hex_digit(#[trigger] hex@[j]));
                            if i < index {
                                assert(is_hex_digit(hex@[i]));
                            }
                            if index < i {
                                assert(is_hex_digit(hex@[index as int]));
                            }
                            assert(i == index);
                        },
                        _ => {},
                    }
                }
                return Err(UnpackError::DecodeHex(e));
            },
        };
        let mut rest: &[u8] = bytes.as_slice();
        match U::unpack(&mut rest) {
            Ok(v) => Ok(v),
            Err(e) => Err(e),
        }
    }
}

/// A vector holding at most `N` elements: the fixed capacity is enforced
/// when the vector is decoded.
#[derive(Debug)]
pub struct ArrayVec<T, const N: usize> {
    data: Vec<T>,
}

impl<T: DeepView, const N: usize> DeepView for ArrayVec<T, N> {
    type V = Seq<T::V>;

    closed spec fn deep_view(&self) -> Seq<T::V> {
        self.data.deep_view()
    }
}

impl<T, const N: usize> ArrayVec<T, N> {
    /// The fixed capacity never holds more than `N` elements.
    #[verifier::type_invariant]
    closed spec fn inv(self) -> bool {
        self.data@.len() <= N
    }
}

impl<T: DeepView, const N: usize> ArrayVec<T, N> {
    /// How many elements are held.
    pub fn len(&self) -> (r: usize)
        ensures
            r == self.deep_view().len(),
            r <= N,
    {
        proof {
            use_type_invariant(self);
        }
        self.data.len()
    }

    /// The fixed capacity.
    pub fn capacity(&self) -> (r: usize)
        ensures
            r == N,
    {
        N
    }

    /// A borrowed view of the elements held.
    pub fn as_slice(&self) -> (r: &[T])
        ensures
            r.deep_view() == self.deep_view(),
            r@.len() <= N,
    {
        proof {
            use_type_invariant(self);
        }
        self.data.as_slice()
    }
}

impl<'a, const N: usize> UnpackLength<'a> for ArrayVec<u8, N> {
    type Error = UnpackError;

    open spec fn spec_unpack(bytes: Seq<u8>, len: int) -> (Result<Seq<u8>, UnpackError>, int) {
        if len > N {
            (Err(UnpackError::TooManyBytes { expected: N, found: len as usize }), 0)
        } else {
            spec_unpack_bytes(bytes, len)
        }
    }

    fn unpack(buf: &mut &'a [u8], len: usize) -> (r: Result<ArrayVec<u8, N>, UnpackError>) {
        if len > N {
            Err(UnpackError::TooManyBytes { expected: N, found: len })
        } else {
            let bytes = match unpack_bytes(buf, len) {
                Ok(b) => b,
                Err(e) => {
                    return Err(e);
                },
            };
            let data = vstd::slice::slice_to_vec(bytes);
            proof {
                lemma_vec_u8_deep_view(&data);
            }
            Ok(ArrayVec { data })
        }
    }
}

/// Element types decode with the shared `UnpackError`, so the capacity
/// failure can be reported in the same error type as an element failure.
impl<'a, const N: usize, T: Unpack<Error = UnpackError>> UnpackLength<'a> for ArrayVec<T, N> {
    type Error = UnpackError;

    open spec fn spec_unpack(bytes: Seq<u8>, len: int) -> (Result<
        Seq<<T as DeepView>::V>,
        UnpackError,
    >, int) {
        if len > N {
            (Err(UnpackError::TooManyBytes { expected: N, found: len as usize }), 0)
        } else {
            spec_unpack_elems::<T>(bytes, len)
        }
    }

    fn unpack(buf: &mut &'a [u8], len: usize) -> (r: Result<ArrayVec<T, N>, UnpackError>) {
        if len > N {
            Err(UnpackError::TooManyBytes { expected: N, found: len })
        } else {
            match unpack_elems::<T>(buf, len) {
                Ok(data) => {
                    proof {
                        crate::lemma_spec_unpack_elems_count::<T>(old(buf)@, len as int);
                    }
                    Ok(ArrayVec { data })
                },
                Err(e) => Err(e),
            }
        }
    }
}

impl<const N: usize> Unpack for ArrayVec<u8, N> {
    type Error = UnpackError;

    open spec fn spec_unpack(bytes: Seq<u8>) -> (Result<Seq<u8>, UnpackError>, int) {
        spec_unpack_bytes(bytes, N as int)
    }

    fn unpack(buf: &mut &[u8]) -> (r: Result<ArrayVec<u8, N>, UnpackError>) {
        let bytes = match unpack_bytes(buf, N) {
            Ok(b) => b,
            Err(e) => {
                return Err(e);
            },
        };
        let data = vstd::slice::slice_to_vec(bytes);
        proof {
            lemma_vec_u8_deep_view(&data);
        }
        Ok(ArrayVec { data })
    }
}

impl<const N: usize, T: Unpack<Error = UnpackError>> Unpack for ArrayVec<T, N> {
    type Error = UnpackError;

    open spec fn spec_unpack(bytes: Seq<u8>) -> (Result<Seq<<T as DeepView>::V>, UnpackError>, int) {
        spec_unpack_elems::<T>(bytes, N as int)
    }

    fn unpack(buf: &mut &[u8]) -> (r: Result<ArrayVec<T, N>, UnpackError>) {
        let data = match unpack_elems::<T>(buf, N) {
            Ok(v) => v,
            Err(e) => {
                return Err(e);
            },
        };
        proof {
            crate::lemma_spec_unpack_elems_count::<T>(old(buf)@, N as int);
        }
        Ok(ArrayVec { data })
    }
}

/// A length-qualified decode into a bounded vector whose requested length
/// exceeds the capacity fails `TooManyBytes` and consumes no bytes, for
/// every input buffer.
pub proof fn lemma_capacity_exceeded<'a, const N: usize>(bytes: Seq<u8>, len: int)
    requires
        len > N,
        0 <= len <= usize::MAX,
    ensures
        <ArrayVec<u8, N> as UnpackLength<'a>>::spec_unpack(bytes, len) == (Result::<
            Seq<u8>,
            UnpackError,
        >::Err(UnpackError::TooManyBytes { expected: N, found: len as usize }), 0int),
{
}

/// A text buffer holding at most `N` bytes of well-formed UTF-8: the fixed
/// capacity is enforced when the text is decoded.
#[derive(Debug)]
pub struct ArrayString<const N: usize> {
    data: Vec<u8>,
}

impl<const N: usize> DeepView for ArrayString<N> {
    type V = Seq<char>;

    closed spec fn deep_view(&self) -> Seq<char> {
        utf8_decode(self.data@).unwrap()
    }
}

impl<const N: usize> ArrayString<N> {
    /// The bytes held are well-formed UTF-8 and fit the fixed capacity.
    #[verifier::type_invariant]
    closed spec fn inv(self) -> bool {
        self.data@.len() <= N && utf8_decode(self.data@) is Some
    }

    /// The UTF-8 bytes the text occupies.
    pub closed spec fn spec_bytes(self) -> Seq<u8> {
        self.data@
    }

    /// How many bytes the text occupies. The stored bytes are well-formed
    /// UTF-8 and are exactly the encoding of the decoded view.
    pub fn len(&self) -> (r: usize)
        ensures
            r == self.spec_bytes().len(),
            r <= N,
            valid_utf8(self.spec_bytes()),
            self.deep_view() == decode_utf8(self.spec_bytes()),
            self.spec_bytes() == encode_utf8(self.deep_view()),
    {
        proof {
            use_type_invariant(self);
            decode_utf8_encode_utf8(self.data@);
        }
        self.data.len()
    }

    /// The fixed capacity, in bytes.
    pub fn capacity(&self) -> (r: usize)
        ensures
            r == N,
    {
        N
    }

    /// A borrowed view of the text held; it views exactly the stored bytes.
    pub fn as_str(&self) -> (r: &str)
        ensures
            r@ == self.deep_view(),
            r.spec_bytes() == self.spec_bytes(),
    {
        proof {
            use_type_invariant(self);
        }
        match bytes_as_str(self.data.as_slice()) {
            Some(s) => s,
            None => vstd::pervasive::unreached(),
        }
    }

    /// Decodes text of byte length `len`, checking the capacity before
    /// consuming anything; a successfully decoded buffer holds exactly the
    /// consumed bytes.
    pub fn unpack_with_len<'a>(buf: &mut &'a [u8], len: usize) -> (r: Result<
        ArrayString<N>,
        UnpackError,
    >)
        ensures
            ({
                let (res, n) = <ArrayString<N> as UnpackLength<'a>>::spec_unpack(
                    old(buf)@,
                    len as int,
                );
                &&& 0 <= n <= old(buf)@.len()
                &&& final(buf)@ == old(buf)@.skip(n)
                &&& match res {
                    Ok(m) => r matches Ok(v) && v.deep_view() == m && v.spec_bytes() == old(
                        buf,
                    )@.take(len as int),
                    Err(e) => r matches Err(e2) && e2 == e,
                }
            }),
    {
        if len > N {
            Err(UnpackError::TooManyBytes { expected: N, found: len })
        } else {
            let bytes = match unpack_bytes(buf, len) {
                Ok(b) => b,
                Err(e) => {
                    return Err(e);
                },
            };
            match bytes_as_str(bytes) {
                Some(_) => {
                    let data = vstd::slice::slice_to_vec(bytes);
                    proof {
                        lemma_vec_u8_deep_view(&data);
                    }
                    Ok(ArrayString { data })
                },
                None => Err(UnpackError::Utf8Error),
            }
        }
    }

    /// Decodes exactly `N` bytes of text; a successfully decoded buffer
    /// holds exactly those bytes.
    pub fn unpack_exact(buf: &mut &[u8]) -> (r: Result<ArrayString<N>, UnpackError>)
        ensures
            ({
                let (res, n) = <ArrayString<N> as Unpack>::spec_unpack(old(buf)@);
                &&& 0 <= n <= old(buf)@.len()
                &&& final(buf)@ == old(buf)@.skip(n)
                &&& match res {
                    Ok(m) => r matches Ok(v) && v.deep_view() == m && v.spec_bytes() == old(
                        buf,
                    )@.take(N as int),
                    Err(e) => r matches Err(e2) && e2 == e,
                }
            }),
    {
        let bytes = match unpack_bytes(buf, N) {
            Ok(b) => b,
            Err(e) => {
                return Err(e);
            },
        };
        match bytes_as_str(bytes) {
            Some(_) => {
                let data = vstd::slice::slice_to_vec(bytes);
                proof {
                    lemma_vec_u8_deep_view(&data);
                }
                Ok(ArrayString { data })
            },
            None => Err(UnpackError::Utf8Error),
        }
    }
}

impl<'a, const N: usize> UnpackLength<'a> for ArrayString<N> {
    type Error = UnpackError;

    open spec fn spec_unpack(bytes: Seq<u8>, len: int) -> (Result<Seq<char>, UnpackError>, int) {
        if len > N {
            (Err(UnpackError::TooManyBytes { expected: N, found: len as usize }), 0)
        } else {
            spec_unpack_str(bytes, len)
        }
    }

    fn unpack(buf: &mut &'a [u8], len: usize) -> (r: Result<ArrayString<N>, UnpackError>) {
        ArrayString::<N>::unpack_with_len(buf, len)
    }
}

impl<const N: usize> Unpack for ArrayString<N> {
    type Error = UnpackError;

    open spec fn spec_unpack(bytes: Seq<u8>) -> (Result<Seq<char>, UnpackError>, int) {
        spec_unpack_str(bytes, N as int)
    }

    fn unpack(buf: &mut &[u8]) -> (r: Result<ArrayString<N>, UnpackError>) {
        ArrayString::<N>::unpack_exact(buf)
    }
}

} // verus!
