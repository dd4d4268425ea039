use vstd::prelude::*;
use vstd::utf8::encode_utf8;

use crate::bytes::{lex_lt_spec, lemma_lex_first_diff, lemma_lex_prepend};
use crate::errors::DocDbError;

verus! {

// One-byte type tags. They are printable ASCII, strictly greater than
// the two separator bytes used in key composition, and their raw byte
// order realises the engine's inter-type order:
// Null < Bool(false) < Bool(true) < Number < String.
pub const TAG_NULL: u8 = 0x28;

pub const TAG_FALSE: u8 = 0x29;

pub const TAG_TRUE: u8 = 0x2a;

pub const TAG_NUMBER: u8 = 0x2b;

pub const TAG_STRING: u8 = 0x2c;

/// A scalar the engine can store in keys. Numbers are 64-bit IEEE-754
/// floating point values, carried by their raw bit pattern so that all
/// reasoning stays on plain integers; use [`TaggableValue::from`] on an
/// `i64`, or a bit pattern obtained from `f64::to_bits`, to build one.
#[derive(Debug, PartialEq)]
pub enum TaggableValue {
    Null,
    Bool(bool),
    Number(u64),
    String(String),
}

impl Clone for TaggableValue {
    fn clone(&self) -> (r: TaggableValue)
        ensures
            r == *self,
    {
        match self {
            TaggableValue::Null => TaggableValue::Null,
            TaggableValue::Bool(b) => TaggableValue::Bool(*b),
            TaggableValue::Number(n) => TaggableValue::Number(*n),
            TaggableValue::String(s) => TaggableValue::String(s.clone()),
        }
    }
}

/// The UTF-8 bytes of a string value.
pub open spec fn str_bytes(s: Seq<char>) -> Seq<u8> {
    encode_utf8(s)
}

/// Bit pattern of an IEEE-754 NaN: exponent all ones, mantissa nonzero.
pub open spec fn is_nan_bits(b: u64) -> bool {
    (b >> 52) & 0x7ff == 0x7ff && b & 0xf_ffff_ffff_ffff != 0
}

/// The sort key of a number: a u64 whose unsigned order equals the
/// numeric order of the encoded floats. Non-negative numbers (sign bit
/// clear, and negative zero, which compares equal to zero) get their
/// sign bit flipped; negative numbers get all bits inverted.
pub open spec fn num_sort_key(b: u64) -> u64 {
    if b & 0x8000_0000_0000_0000 == 0 || b == 0x8000_0000_0000_0000 {
        b ^ 0x8000_0000_0000_0000
    } else {
        !b
    }
}

/// Big-endian byte decomposition of a u64.
pub open spec fn spec_be_bytes(x: u64) -> Seq<u8> {
    seq![
        ((x >> 56) & 0xff) as u8,
        ((x >> 48) & 0xff) as u8,
        ((x >> 40) & 0xff) as u8,
        ((x >> 32) & 0xff) as u8,
        ((x >> 24) & 0xff) as u8,
        ((x >> 16) & 0xff) as u8,
        ((x >> 8) & 0xff) as u8,
        (x & 0xff) as u8,
    ]
}

/// The tag byte of a value.
pub open spec fn spec_tag(v: TaggableValue) -> u8 {
    match v {
        TaggableValue::Null => TAG_NULL,
        TaggableValue::Bool(b) => if b {
            TAG_TRUE
        } else {
            TAG_FALSE
        },
        TaggableValue::Number(_) => TAG_NUMBER,
        TaggableValue::String(_) => TAG_STRING,
    }
}

/// The order-preserving encoding of a scalar: the tag byte followed by
/// the payload. Null and booleans are a bare tag; a number is the
/// big-endian bytes of its sort key; a string is its raw UTF-8 bytes.
pub open spec fn spec_encode_tagged(v: TaggableValue) -> Seq<u8> {
    match v {
        TaggableValue::Null => seq![TAG_NULL],
        TaggableValue::Bool(b) => if b {
            seq![TAG_TRUE]
        } else {
            seq![TAG_FALSE]
        },
        TaggableValue::Number(n) => seq![TAG_NUMBER] + spec_be_bytes(num_sort_key(n)),
        TaggableValue::String(s) => seq![TAG_STRING] + str_bytes(s@),
    }
}

/// A value the engine accepts in keys: numbers must not be NaN, and
/// string bytes must stay clear of the two reserved separator bytes.
pub open spec fn value_wf(v: TaggableValue) -> bool {
    match v {
        TaggableValue::Null => true,
        TaggableValue::Bool(_) => true,
        TaggableValue::Number(n) => !is_nan_bits(n),
        TaggableValue::String(s) => forall|i: int|
            0 <= i < str_bytes(s@).len() ==> str_bytes(s@)[i] >= 2,
    }
}

/// The engine's total order on scalars: by tag byte first (which
/// realises the inter-type order), then numbers by their sort key and
/// strings bytewise.
pub open spec fn value_lt(a: TaggableValue, b: TaggableValue) -> bool {
    if spec_tag(a) != spec_tag(b) {
        spec_tag(a) < spec_tag(b)
    } else {
        match (a, b) {
            (TaggableValue::Number(x), TaggableValue::Number(y)) => num_sort_key(x)
                < num_sort_key(y),
            (TaggableValue::String(x), TaggableValue::String(y)) => lex_lt_spec(
                str_bytes(x@),
                str_bytes(y@),
            ),
            _ => false,
        }
    }
}

/// Unsigned order on u64 is carried to lexicographic order by the
/// big-endian byte decomposition.
pub proof fn lemma_be_bytes_order(x: u64, y: u64)
    requires
        x < y,
    ensures
        lex_lt_spec(spec_be_bytes(x), spec_be_bytes(y)),
{
    let a = spec_be_bytes(x);
    let b = spec_be_bytes(y);
    assert forall|z: u64| true implies {
        &&& (z >> 56) & 0xff <= 0xff
        &&& (z >> 48) & 0xff <= 0xff
        &&& (z >> 40) & 0xff <= 0xff
        &&& (z >> 32) & 0xff <= 0xff
        &&& (z >> 24) & 0xff <= 0xff
        &&& (z >> 16) & 0xff <= 0xff
        &&& (z >> 8) & 0xff <= 0xff
        &&& z & 0xff <= 0xff
    } by {
        assert((z >> 56) & 0xff <= 0xff && (z >> 48) & 0xff <= 0xff && (z >> 40) & 0xff <= 0xff && (
        z >> 32) & 0xff <= 0xff && (z >> 24) & 0xff <= 0xff && (z >> 16) & 0xff <= 0xff && (z >> 8)
            & 0xff <= 0xff && z & 0xff <= 0xff) by (bit_vector);
    }
    assert(x < y ==> {
        ||| (x >> 56) & 0xff < (y >> 56) & 0xff
        ||| ((x >> 56) & 0xff == (y >> 56) & 0xff && {
            ||| (x >> 48) & 0xff < (y >> 48) & 0xff
            ||| ((x >> 48) & 0xff == (y >> 48) & 0xff && {
                ||| (x >> 40) & 0xff < (y >> 40) & 0xff
                ||| ((x >> 40) & 0xff == (y >> 40) & 0xff && {
                    ||| (x >> 32) & 0xff < (y >> 32) & 0xff
                    ||| ((x >> 32) & 0xff == (y >> 32) & 0xff && {
                        ||| (x >> 24) & 0xff < (y >> 24) & 0xff
                        ||| ((x >> 24) & 0xff == (y >> 24) & 0xff && {
                            ||| (x >> 16) & 0xff < (y >> 16) & 0xff
                            ||| ((x >> 16) & 0xff == (y >> 16) & 0xff && {
                                ||| (x >> 8) & 0xff < (y >> 8) & 0xff
                                ||| ((x >> 8) & 0xff == (y >> 8) & 0xff && x & 0xff < y & 0xff)
                            })
                        })
                    })
                })
            })
        })
    }) by (bit_vector);
    if (x >> 56) & 0xff < (y >> 56) & 0xff {
        lemma_lex_first_diff(a, b, 0);
    } else if (x >> 48) & 0xff < (y >> 48) & 0xff {
        lemma_lex_first_diff(a, b, 1);
    } else if (x >> 40) & 0xff < (y >> 40) & 0xff {
        lemma_lex_first_diff(a, b, 2);
    } else if (x >> 32) & 0xff < (y >> 32) & 0xff {
        lemma_lex_first_diff(a, b, 3);
    } else if (x >> 24) & 0xff < (y >> 24) & 0xff {
        lemma_lex_first_diff(a, b, 4);
    } else if (x >> 16) & 0xff < (y >> 16) & 0xff {
        lemma_lex_first_diff(a, b, 5);
    } else if (x >> 8) & 0xff < (y >> 8) & 0xff {
        lemma_lex_first_diff(a, b, 6);
    } else {
        lemma_lex_first_diff(a, b, 7);
    }
}

/// Order preservation of the scalar encoding: whenever `a` comes before
/// `b` in the engine's total order, the encoding of `a` comes before
/// the encoding of `b` in bytewise lexicographic order.
pub proof fn lemma_encode_tagged_order(a: TaggableValue, b: TaggableValue)
    requires
        value_lt(a, b),
    ensures
        lex_lt_spec(spec_encode_tagged(a), spec_encode_tagged(b)),
{
    let ea = spec_encode_tagged(a);
    let eb = spec_encode_tagged(b);
    if spec_tag(a) != spec_tag(b) {
        assert(ea[0] == spec_tag(a));
        assert(eb[0] == spec_tag(b));
        lemma_lex_first_diff(ea, eb, 0);
    } else {
        match (a, b) {
            (TaggableValue::Number(x), TaggableValue::Number(y)) => {
                lemma_be_bytes_order(num_sort_key(x), num_sort_key(y));
                lemma_lex_prepend(
                    seq![TAG_NUMBER],
                    spec_be_bytes(num_sort_key(x)),
                    spec_be_bytes(num_sort_key(y)),
                );
            },
            (TaggableValue::String(x), TaggableValue::String(y)) => {
                lemma_lex_prepend(seq![TAG_STRING], str_bytes(x@), str_bytes(y@));
            },
            _ => {
                assert(false);
            },
        }
    }
}

/// Appends the big-endian bytes of `x`.
pub fn push_be_bytes(out: &mut Vec<u8>, x: u64)
    ensures
        final(out)@ == old(out)@ + spec_be_bytes(x),
{
    proof {
        assert((x >> 56) & 0xff <= 0xff && (x >> 48) & 0xff <= 0xff && (x >> 40) & 0xff <= 0xff
            && (x >> 32) & 0xff <= 0xff && (x >> 24) & 0xff <= 0xff && (x >> 16) & 0xff <= 0xff && (
        x >> 8) & 0xff <= 0xff && x & 0xff <= 0xff) by (bit_vector);
    }
    out.push(((x >> 56) & 0xff) as u8);
    out.push(((x >> 48) & 0xff) as u8);
    out.push(((x >> 40) & 0xff) as u8);
    out.push(((x >> 32) & 0xff) as u8);
    out.push(((x >> 24) & 0xff) as u8);
    out.push(((x >> 16) & 0xff) as u8);
    out.push(((x >> 8) & 0xff) as u8);
    out.push((x & 0xff) as u8);
    proof {
        assert(final(out)@ =~= old(out)@ + spec_be_bytes(x));
    }
}

impl TaggableValue {
    /// Whether the engine accepts this value in keys; rejects NaN
    /// numbers and strings holding a reserved separator byte.
    pub fn is_wf(&self) -> (r: bool)
        ensures
            r == value_wf(*self),
    {
        match self {
            TaggableValue::Null => true,
            TaggableValue::Bool(_) => true,
            TaggableValue::Number(n) => {
                let exp_all_ones = (*n >> 52) & 0x7ff == 0x7ff;
                let mantissa_nonzero = *n & 0xf_ffff_ffff_ffff != 0;
                !(exp_all_ones && mantissa_nonzero)
            },
            TaggableValue::String(s) => str_has_no_separators(s.as_str()),
        }
    }

    /// Appends the order-preserving encoding of this value, or fails
    /// with `BadValue` exactly when the value is not accepted in keys.
    pub fn encode_onto(&self, out: &mut Vec<u8>) -> (r: Result<(), DocDbError>)
        ensures
            r is Ok <==> value_wf(*self),
            r is Ok ==> final(out)@ == old(out)@ + spec_encode_tagged(*self),
            r is Err ==> final(out)@ == old(out)@ && r == Err::<(), DocDbError>(
                DocDbError::BadValue,
            ),
    {
        if !self.is_wf() {
            return Err(DocDbError::BadValue);
        }
        self.encode_onto_unchecked(out);
        Ok(())
    }

    /// Appends the order-preserving encoding of this value without the
    /// acceptance test: used only to compute the keys of entries being
    /// removed, which writes nothing new into the store.
    pub(crate) fn encode_onto_unchecked(&self, out: &mut Vec<u8>)
        ensures
            final(out)@ == old(out)@ + spec_encode_tagged(*self),
    {
        match self {
            TaggableValue::Null => {
                out.push(TAG_NULL);
                proof {
                    assert(out@ =~= old(out)@ + spec_encode_tagged(*self));
                }
            },
            TaggableValue::Bool(b) => {
                if *b {
                    out.push(TAG_TRUE);
                } else {
                    out.push(TAG_FALSE);
                }
                proof {
                    assert(out@ =~= old(out)@ + spec_encode_tagged(*self));
                }
            },
            TaggableValue::Number(n) => {
                out.push(TAG_NUMBER);
                let key = num_sort_key_exec(*n);
                push_be_bytes(out, key);
                proof {
                    assert(out@ =~= old(out)@ + spec_encode_tagged(*self));
                }
            },
            TaggableValue::String(s) => {
                out.push(TAG_STRING);
                let bytes = s.as_str().as_bytes();
                out.extend_from_slice(bytes);
                proof {
                    assert(out@ =~= old(out)@ + spec_encode_tagged(*self));
                }
            },
        }
    }

    /// The order-preserving encoding of this value on its own, or
    /// `BadValue` exactly when the value is not accepted in keys.
    pub fn encode(&self) -> (r: Result<Vec<u8>, DocDbError>)
        ensures
            r is Ok <==> value_wf(*self),
            r matches Ok(b) ==> b@ == spec_encode_tagged(*self),
            r is Err ==> r == Err::<Vec<u8>, DocDbError>(DocDbError::BadValue),
    {
        let mut out: Vec<u8> = Vec::new();
        match self.encode_onto(&mut out) {
            Ok(()) => {
                proof {
                    assert(out@ =~= spec_encode_tagged(*self));
                }
                Ok(out)
            },
            Err(e) => Err(e),
        }
    }
}

/// The IEEE-754 double bit pattern of a non-negative integer
/// magnitude, rounding to nearest with ties to even, exactly as Rust's
/// integer-to-float conversion does.
pub open spec fn spec_f64_bits_of_mag(m: u64) -> u64 {
    if m == 0 {
        0u64
    } else {
        let (x0, s0) = if m & 0xffff_ffff_0000_0000 == 0 {
            ((m << 32) as u64, 32u64)
        } else {
            (m, 0u64)
        };
        let (x1, s1) = if x0 & 0xffff_0000_0000_0000 == 0 {
            ((x0 << 16) as u64, (s0 + 16) as u64)
        } else {
            (x0, s0)
        };
        let (x2, s2) = if x1 & 0xff00_0000_0000_0000 == 0 {
            ((x1 << 8) as u64, (s1 + 8) as u64)
        } else {
            (x1, s1)
        };
        let (x3, s3) = if x2 & 0xf000_0000_0000_0000 == 0 {
            ((x2 << 4) as u64, (s2 + 4) as u64)
        } else {
            (x2, s2)
        };
        let (x4, s4) = if x3 & 0xc000_0000_0000_0000 == 0 {
            ((x3 << 2) as u64, (s3 + 2) as u64)
        } else {
            (x3, s3)
        };
        let (x5, s5) = if x4 & 0x8000_0000_0000_0000 == 0 {
            ((x4 << 1) as u64, (s4 + 1) as u64)
        } else {
            (x4, s4)
        };
        let e = (63 - s5) as u64;
        let base = x5 >> 11;
        let rem = x5 & 0x7ff;
        let rounded = if rem > 0x400 || (rem == 0x400 && base & 1 == 1) {
            (base + 1) as u64
        } else {
            base
        };
        if rounded == 0x20_0000_0000_0000 {
            (((e + 1024) as u64) << 52) as u64
        } else {
            ((((e + 1023) as u64) << 52) | (rounded & 0xf_ffff_ffff_ffff)) as u64
        }
    }
}

/// The IEEE-754 double bit pattern of a signed integer, as Rust's
/// integer-to-float conversion computes it.
pub open spec fn spec_f64_bits_of_i64(i: i64) -> u64 {
    if i >= 0 {
        spec_f64_bits_of_mag(i as u64)
    } else {
        spec_f64_bits_of_mag((-(i as int)) as u64) | 0x8000_0000_0000_0000
    }
}

/// Computes the IEEE-754 double bit pattern of an integer magnitude.
pub fn f64_bits_of_mag(m: u64) -> (r: u64)
    ensures
        r == spec_f64_bits_of_mag(m),
{
    if m == 0 {
        return 0u64;
    }
    let mut x: u64 = m;
    let mut s: u64 = 0;
    if x & 0xffff_ffff_0000_0000 == 0 {
        x = x << 32;
        s = s + 32;
    }
    if x & 0xffff_0000_0000_0000 == 0 {
        x = x << 16;
        s = s + 16;
    }
    if x & 0xff00_0000_0000_0000 == 0 {
        x = x << 8;
        s = s + 8;
    }
    if x & 0xf000_0000_0000_0000 == 0 {
        x = x << 4;
        s = s + 4;
    }
    if x & 0xc000_0000_0000_0000 == 0 {
        x = x << 2;
        s = s + 2;
    }
    if x & 0x8000_0000_0000_0000 == 0 {
        x = x << 1;
        s = s + 1;
    }
    let e = 63 - s;
    let base = x >> 11;
    let rem = x & 0x7ff;
    proof {
        assert(x >> 11 < 0x20_0000_0000_0000) by (bit_vector);
    }
    let rounded = if rem > 0x400 || (rem == 0x400 && base & 1 == 1) {
        base + 1
    } else {
        base
    };
    if rounded == 0x20_0000_0000_0000 {
        (e + 1024) << 52
    } else {
        ((e + 1023) << 52) | (rounded & 0xf_ffff_ffff_ffff)
    }
}

/// Computes the IEEE-754 double bit pattern of a signed integer.
pub fn f64_bits_of_i64(i: i64) -> (r: u64)
    ensures
        r == spec_f64_bits_of_i64(i),
{
    if i >= 0 {
        f64_bits_of_mag(i as u64)
    } else {
        let mag: u64 = if i == i64::MIN {
            0x8000_0000_0000_0000u64
        } else {
            (-i) as u64
        };
        f64_bits_of_mag(mag) | 0x8000_0000_0000_0000
    }
}

impl From<bool> for TaggableValue {
    fn from(value: bool) -> (r: TaggableValue) {
        TaggableValue::Bool(value)
    }
}

impl vstd::std_specs::convert::FromSpecImpl<bool> for TaggableValue {
    open spec fn obeys_from_spec() -> bool {
        true
    }

    open spec fn from_spec(value: bool) -> TaggableValue {
        TaggableValue::Bool(value)
    }
}

impl<'a> From<&'a str> for TaggableValue {
    fn from(s: &'a str) -> (r: TaggableValue) {
        TaggableValue::String(s.to_owned())
    }
}

impl<'a> vstd::std_specs::convert::FromSpecImpl<&'a str> for TaggableValue {
    open spec fn obeys_from_spec() -> bool {
        // No spec pins down the owned `String` value a borrowed `&str`
        // turns into; only its view is known, through `from_str_view`.
        false
    }

    open spec fn from_spec(s: &'a str) -> TaggableValue {
        TaggableValue::String(vstd::pervasive::arbitrary())
    }
}

impl TaggableValue {
    /// Builds a string value from a borrowed string slice.
    pub fn from_str_view(s: &str) -> (r: TaggableValue)
        ensures
            r matches TaggableValue::String(o) && o@ == s@,
    {
        TaggableValue::String(s.to_owned())
    }
}

impl From<String> for TaggableValue {
    fn from(value: String) -> (r: TaggableValue) {
        TaggableValue::String(value)
    }
}

impl vstd::std_specs::convert::FromSpecImpl<String> for TaggableValue {
    open spec fn obeys_from_spec() -> bool {
        true
    }

    open spec fn from_spec(value: String) -> TaggableValue {
        TaggableValue::String(value)
    }
}

impl From<i64> for TaggableValue {
    fn from(i: i64) -> (r: TaggableValue) {
        TaggableValue::Number(f64_bits_of_i64(i))
    }
}

impl vstd::std_specs::convert::FromSpecImpl<i64> for TaggableValue {
    open spec fn obeys_from_spec() -> bool {
        true
    }

    open spec fn from_spec(i: i64) -> TaggableValue {
        TaggableValue::Number(spec_f64_bits_of_i64(i))
    }
}

/// Builds a scalar from anything a scalar can be made from; the
/// conversion's own specification says which scalar comes back.
pub fn tv<T>(v: T) -> (r: TaggableValue) where TaggableValue: From<T>
    ensures
        <TaggableValue as vstd::std_specs::convert::FromSpec<T>>::obeys_from_spec() ==> r == <
        TaggableValue as vstd::std_specs::convert::FromSpec<T>>::from_spec(v),
{
    TaggableValue::from(v)
}

/// Two strings with the same UTF-8 bytes have the same characters.
pub proof fn lemma_str_bytes_inj(a: Seq<char>, b: Seq<char>)
    ensures
        (str_bytes(a) == str_bytes(b)) == (a == b),
{
    if str_bytes(a) == str_bytes(b) {
        vstd::utf8::encode_utf8_decode_utf8(a);
        vstd::utf8::encode_utf8_decode_utf8(b);
    }
}

impl TaggableValue {
    /// The tag byte of this value.
    pub fn tag_byte(&self) -> (r: u8)
        ensures
            r == spec_tag(*self),
    {
        match self {
            TaggableValue::Null => TAG_NULL,
            TaggableValue::Bool(b) => if *b {
                TAG_TRUE
            } else {
                TAG_FALSE
            },
            TaggableValue::Number(_) => TAG_NUMBER,
            TaggableValue::String(_) => TAG_STRING,
        }
    }
}

/// Whether `a` comes before `b` in the engine's total order.
pub fn value_lt_exec(a: &TaggableValue, b: &TaggableValue) -> (r: bool)
    ensures
        r == value_lt(*a, *b),
{
    let ta = a.tag_byte();
    let tb = b.tag_byte();
    if ta != tb {
        return ta < tb;
    }
    match (a, b) {
        (TaggableValue::Number(x), TaggableValue::Number(y)) => {
            num_sort_key_exec(*x) < num_sort_key_exec(*y)
        },
        (TaggableValue::String(x), TaggableValue::String(y)) => {
            crate::bytes::lex_lt_slices(x.as_str().as_bytes(), y.as_str().as_bytes())
        },
        _ => false,
    }
}

/// Computes the number sort key of a bit pattern.
pub fn num_sort_key_exec(b: u64) -> (r: u64)
    ensures
        r == num_sort_key(b),
{
    if b & 0x8000_0000_0000_0000 == 0 || b == 0x8000_0000_0000_0000 {
        b ^ 0x8000_0000_0000_0000
    } else {
        !b
    }
}

/// Whether every byte of the string stays clear of the two reserved
/// separator bytes (`0x00` and `0x01`).
pub fn str_has_no_separators(s: &str) -> (r: bool)
    ensures
        r == forall|i: int| 0 <= i < str_bytes(s@).len() ==> str_bytes(s@)[i] >= 2,
{
    let bytes = s.as_bytes();
    let mut i: usize = 0;
    loop
        invariant
            i <= bytes@.len(),
            bytes@ == str_bytes(s@),
            forall|j: int| 0 <= j < i ==> str_bytes(s@)[j] >= 2,
        decreases bytes@.len() - i,
    {
        if i >= bytes.len() {
            return true;
        }
        if bytes[i] < 2 {
            return false;
        }
        i = i + 1;
    }
}

} // verus!
