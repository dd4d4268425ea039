use vstd::prelude::*;
use vstd::slice::{slice_index_get, slice_subrange};
use vstd::string::StringSliceAdditionalSpecFns;
use vstd::utf8::{
    decode_utf8, encode_utf8, encode_utf8_decode_utf8, encode_utf8_valid_utf8, valid_utf8,
};

use crate::json::JsonValue;
use crate::keys::bytes_to_str;
use crate::values::{push_be_bytes, spec_be_bytes};

verus! {

// Type bytes of the stored body format: a compact self-describing
// binary layout. Each node is one type byte followed by its payload;
// strings, arrays and objects carry a big-endian u64 length first, so
// a document round-trips losslessly and decoding is unambiguous.
pub const CT_NULL: u8 = 0;

pub const CT_FALSE: u8 = 1;

pub const CT_TRUE: u8 = 2;

pub const CT_NUMBER: u8 = 3;

pub const CT_STRING: u8 = 4;

pub const CT_ARRAY: u8 = 5;

pub const CT_OBJECT: u8 = 6;

/// The mathematical shape of a document body: what two bodies share
/// exactly when they are the same JSON value.
pub enum JsonModel {
    Null,
    Bool(bool),
    Number(u64),
    String(Seq<char>),
    Array(Seq<JsonModel>),
    Object(Seq<(Seq<char>, JsonModel)>),
}

/// The model of a document body value.
pub open spec fn json_view(v: JsonValue) -> JsonModel
    decreases v, 0int,
{
    match v {
        JsonValue::Null => JsonModel::Null,
        JsonValue::Bool(b) => JsonModel::Bool(b),
        JsonValue::Number(n) => JsonModel::Number(n),
        JsonValue::String(s) => JsonModel::String(s@),
        JsonValue::Array(a) => JsonModel::Array(json_view_arr(a, a.len() as int)),
        JsonValue::Object(o) => JsonModel::Object(json_view_obj(o, o.len() as int)),
    }
}

/// Models of the first `i` elements of an array.
pub open spec fn json_view_arr(a: Vec<JsonValue>, i: int) -> Seq<JsonModel>
    decreases a, i,
{
    if i <= 0 || i > a.len() {
        seq![]
    } else {
        json_view_arr(a, i - 1).push(json_view(a[i - 1]))
    }
}

/// Models of the first `i` fields of an object.
pub open spec fn json_view_obj(o: Vec<(String, JsonValue)>, i: int) -> Seq<(Seq<char>, JsonModel)>
    decreases o, i,
{
    if i <= 0 || i > o.len() {
        seq![]
    } else {
        json_view_obj(o, i - 1).push((o[i - 1].0@, json_view(o[i - 1].1)))
    }
}

/// The partial array view of the first `i` elements has `i` entries.
pub proof fn lemma_json_view_arr_len(a: Vec<JsonValue>, i: int)
    requires
        0 <= i <= a.len(),
    ensures
        json_view_arr(a, i).len() == i,
    decreases i,
{
    if i > 0 {
        lemma_json_view_arr_len(a, i - 1);
    }
}

/// Element `j` of the partial array view is the view of element `j`.
pub proof fn lemma_json_view_arr_index(a: Vec<JsonValue>, i: int, j: int)
    requires
        0 <= i <= a.len(),
        0 <= j < i,
    ensures
        json_view_arr(a, i).len() == i,
        json_view_arr(a, i)[j] == json_view(a[j]),
    decreases i,
{
    lemma_json_view_arr_len(a, i);
    if j < i - 1 {
        lemma_json_view_arr_index(a, i - 1, j);
    } else {
        lemma_json_view_arr_len(a, i - 1);
    }
}

/// The partial object view of the first `i` fields has `i` entries.
pub proof fn lemma_json_view_obj_len(o: Vec<(String, JsonValue)>, i: int)
    requires
        0 <= i <= o.len(),
    ensures
        json_view_obj(o, i).len() == i,
    decreases i,
{
    if i > 0 {
        lemma_json_view_obj_len(o, i - 1);
    }
}

/// Field `j` of the partial object view is the view of field `j`.
pub proof fn lemma_json_view_obj_index(o: Vec<(String, JsonValue)>, i: int, j: int)
    requires
        0 <= i <= o.len(),
        0 <= j < i,
    ensures
        json_view_obj(o, i).len() == i,
        json_view_obj(o, i)[j] == (o[j].0@, json_view(o[j].1)),
    decreases i,
{
    lemma_json_view_obj_len(o, i);
    if j < i - 1 {
        lemma_json_view_obj_index(o, i - 1, j);
    } else {
        lemma_json_view_obj_len(o, i - 1);
    }
}

/// The stored byte form of a body.
pub open spec fn spec_encode_model(m: JsonModel) -> Seq<u8>
    decreases m, 0int,
{
    match m {
        JsonModel::Null => seq![CT_NULL],
        JsonModel::Bool(b) => if b {
            seq![CT_TRUE]
        } else {
            seq![CT_FALSE]
        },
        JsonModel::Number(n) => seq![CT_NUMBER] + spec_be_bytes(n),
        JsonModel::String(s) => seq![CT_STRING] + spec_be_bytes(encode_utf8(s).len() as u64)
            + encode_utf8(s),
        JsonModel::Array(es) => seq![CT_ARRAY] + spec_be_bytes(es.len() as u64)
            + spec_encode_elems(es, 0),
        JsonModel::Object(fs) => seq![CT_OBJECT] + spec_be_bytes(fs.len() as u64)
            + spec_encode_fields(fs, 0),
    }
}

/// The byte form of the elements of an array from position `i` on.
pub open spec fn spec_encode_elems(es: Seq<JsonModel>, i: int) -> Seq<u8>
    decreases es, es.len() - i,
{
    if i < 0 || i >= es.len() {
        seq![]
    } else {
        spec_encode_model(es[i]) + spec_encode_elems(es, i + 1)
    }
}

/// The byte form of the fields of an object from position `i` on: each
/// field is a length-prefixed name followed by the value.
pub open spec fn spec_encode_fields(fs: Seq<(Seq<char>, JsonModel)>, i: int) -> Seq<u8>
    decreases fs, fs.len() - i,
{
    if i < 0 || i >= fs.len() {
        seq![]
    } else {
        spec_be_bytes(encode_utf8(fs[i].0).len() as u64) + encode_utf8(fs[i].0)
            + spec_encode_model(fs[i].1) + spec_encode_fields(fs, i + 1)
    }
}

/// Serializes a document body into the stored byte form.
pub fn encode_body(v: &JsonValue) -> (r: Vec<u8>)
    ensures
        r@ == spec_encode_model(json_view(*v)),
{
    let mut out: Vec<u8> = Vec::new();
    encode_body_onto(v, &mut out);
    proof {
        assert(out@ =~= Seq::<u8>::empty() + spec_encode_model(json_view(*v)));
    }
    out
}

/// Appends the stored byte form of `v`.
#[verifier::loop_isolation(false)]
#[verifier::rlimit(60)]
fn encode_body_onto(v: &JsonValue, out: &mut Vec<u8>)
    ensures
        final(out)@ == old(out)@ + spec_encode_model(json_view(*v)),
    decreases *v,
{
    match v {
        JsonValue::Null => {
            out.push(CT_NULL);
            proof {
                assert(out@ =~= old(out)@ + spec_encode_model(json_view(*v)));
            }
        },
        JsonValue::Bool(b) => {
            if *b {
                out.push(CT_TRUE);
            } else {
                out.push(CT_FALSE);
            }
            proof {
                assert(out@ =~= old(out)@ + spec_encode_model(json_view(*v)));
            }
        },
        JsonValue::Number(n) => {
            out.push(CT_NUMBER);
            push_be_bytes(out, *n);
            proof {
                assert(out@ =~= old(out)@ + spec_encode_model(json_view(*v)));
            }
        },
        JsonValue::String(s) => {
            out.push(CT_STRING);
            let bytes = s.as_str().as_bytes();
            push_be_bytes(out, bytes.len() as u64);
            out.extend_from_slice(bytes);
            proof {
                assert(out@ =~= old(out)@ + spec_encode_model(json_view(*v)));
            }
        },
        JsonValue::Array(a) => {
            out.push(CT_ARRAY);
            push_be_bytes(out, a.len() as u64);
            let ghost es = json_view_arr(*a, a.len() as int);
            let ghost base = out@;
            let n = a.len();
            proof {
                assert(es.len() == n) by {
                    if n > 0 {
                        lemma_json_view_arr_index(*a, n as int, 0);
                    }
                }
            }
            let mut i: usize = 0;
            while i < n
                invariant
                    i <= n,
                    out@ + spec_encode_elems(es, i as int) == base + spec_encode_elems(es, 0),
                decreases n - i,
            {
                proof {
                    lemma_json_view_arr_index(*a, n as int, i as int);
                    assert(decreases_to!(*v => a@[i as int]));
                }
                encode_body_onto(&a[i], out);
                i = i + 1;
            }
            proof {
                assert(spec_encode_elems(es, n as int) =~= Seq::<u8>::empty());
                assert(out@ =~= out@ + spec_encode_elems(es, n as int));
                assert(out@ =~= old(out)@ + spec_encode_model(json_view(*v)));
            }
        },
        JsonValue::Object(o) => {
            out.push(CT_OBJECT);
            push_be_bytes(out, o.len() as u64);
            let ghost fs = json_view_obj(*o, o.len() as int);
            let ghost base = out@;
            let n = o.len();
            proof {
                assert(fs.len() == n) by {
                    if n > 0 {
                        lemma_json_view_obj_index(*o, n as int, 0);
                    }
                }
            }
            let mut i: usize = 0;
            while i < n
                invariant
                    i <= n,
                    out@ + spec_encode_fields(fs, i as int) == base + spec_encode_fields(fs, 0),
                decreases n - i,
            {
                proof {
                    lemma_json_view_obj_index(*o, n as int, i as int);
                }
                let key_bytes = o[i].0.as_str().as_bytes();
                push_be_bytes(out, key_bytes.len() as u64);
                out.extend_from_slice(key_bytes);
                proof {
                    assert(decreases_to!(*v => o@[i as int].1));
                }
                encode_body_onto(&o[i].1, out);
                i = i + 1;
            }
            proof {
                assert(spec_encode_fields(fs, n as int) =~= Seq::<u8>::empty());
                assert(out@ =~= out@ + spec_encode_fields(fs, n as int));
                assert(out@ =~= old(out)@ + spec_encode_model(json_view(*v)));
            }
        },
    }
}


/// The big-endian u64 read from eight bytes starting at `pos`.
pub open spec fn spec_read_u64(b: Seq<u8>, pos: int) -> u64 {
    (((b[pos] as u64) << 56) | ((b[pos + 1] as u64) << 48) | ((b[pos + 2] as u64) << 40) | ((b[pos
        + 3] as u64) << 32) | ((b[pos + 4] as u64) << 24) | ((b[pos + 5] as u64) << 16) | ((b[pos
        + 6] as u64) << 8) | (b[pos + 7] as u64)) as u64
}

/// Reading back the big-endian bytes of `n` yields `n`.
pub proof fn lemma_read_of_be(b: Seq<u8>, pos: int, n: u64)
    requires
        0 <= pos,
        pos + 8 <= b.len(),
        b.subrange(pos, pos + 8) == spec_be_bytes(n),
    ensures
        spec_read_u64(b, pos) == n,
{
    assert forall|k: int| 0 <= k < 8 implies b[pos + k] == spec_be_bytes(n)[k] by {
        assert(b.subrange(pos, pos + 8)[k] == b[pos + k]);
    }
    assert((((((n >> 56) & 0xff) as u8 as u64) << 56) | ((((n >> 48) & 0xff) as u8 as u64) << 48)
        | ((((n >> 40) & 0xff) as u8 as u64) << 40) | ((((n >> 32) & 0xff) as u8 as u64) << 32) | (
    (((n >> 24) & 0xff) as u8 as u64) << 24) | ((((n >> 16) & 0xff) as u8 as u64) << 16) | ((((n
        >> 8) & 0xff) as u8 as u64) << 8) | ((n & 0xff) as u8 as u64)) == n) by (bit_vector);
}

/// What the decoder finds at position `pos`: the decoded node and the
/// position right after it, or nothing when the bytes are malformed.
pub open spec fn spec_decode_at(b: Seq<u8>, pos: int) -> Option<(JsonModel, int)>
    decreases b.len() - pos, 0int,
{
    if pos < 0 || pos >= b.len() {
        None
    } else {
        let t = b[pos];
        if t == CT_NULL {
            Some((JsonModel::Null, pos + 1))
        } else if t == CT_FALSE {
            Some((JsonModel::Bool(false), pos + 1))
        } else if t == CT_TRUE {
            Some((JsonModel::Bool(true), pos + 1))
        } else if t == CT_NUMBER {
            if pos + 9 <= b.len() {
                Some((JsonModel::Number(spec_read_u64(b, pos + 1)), pos + 9))
            } else {
                None
            }
        } else if t == CT_STRING {
            if pos + 9 <= b.len() {
                let n = spec_read_u64(b, pos + 1) as int;
                if pos + 9 + n <= b.len() && valid_utf8(b.subrange(pos + 9, pos + 9 + n)) {
                    Some(
                        (
                            JsonModel::String(decode_utf8(b.subrange(pos + 9, pos + 9 + n))),
                            pos + 9 + n,
                        ),
                    )
                } else {
                    None
                }
            } else {
                None
            }
        } else if t == CT_ARRAY {
            if pos + 9 <= b.len() {
                let n = spec_read_u64(b, pos + 1) as int;
                match spec_decode_elems(b, pos + 9, n) {
                    Some((es, end)) => Some((JsonModel::Array(es), end)),
                    None => None,
                }
            } else {
                None
            }
        } else if t == CT_OBJECT {
            if pos + 9 <= b.len() {
                let n = spec_read_u64(b, pos + 1) as int;
                match spec_decode_fields(b, pos + 9, n) {
                    Some((fs, end)) => Some((JsonModel::Object(fs), end)),
                    None => None,
                }
            } else {
                None
            }
        } else {
            None
        }
    }
}

/// Decodes `n` consecutive nodes starting at `pos`.
pub open spec fn spec_decode_elems(b: Seq<u8>, pos: int, n: int) -> Option<(Seq<JsonModel>, int)>
    decreases b.len() - pos, n,
{
    if n <= 0 {
        if 0 <= pos <= b.len() {
            Some((seq![], pos))
        } else {
            None
        }
    } else if pos < 0 || pos >= b.len() {
        None
    } else {
        match spec_decode_at(b, pos) {
            None => None,
            Some((m, p2)) => if p2 <= pos || p2 > b.len() {
                None
            } else {
                match spec_decode_elems(b, p2, n - 1) {
                    None => None,
                    Some((es, end)) => Some((seq![m] + es, end)),
                }
            },
        }
    }
}

/// Decodes `n` consecutive length-prefixed fields starting at `pos`.
pub open spec fn spec_decode_fields(b: Seq<u8>, pos: int, n: int) -> Option<
    (Seq<(Seq<char>, JsonModel)>, int),
>
    decreases b.len() - pos, n,
{
    if n <= 0 {
        if 0 <= pos <= b.len() {
            Some((seq![], pos))
        } else {
            None
        }
    } else if pos < 0 || pos + 8 > b.len() {
        None
    } else {
        let klen = spec_read_u64(b, pos) as int;
        if pos + 8 + klen <= b.len() && valid_utf8(b.subrange(pos + 8, pos + 8 + klen)) {
            let key = decode_utf8(b.subrange(pos + 8, pos + 8 + klen));
            match spec_decode_at(b, pos + 8 + klen) {
                None => None,
                Some((m, p2)) => if p2 <= pos || p2 > b.len() {
                    None
                } else {
                    match spec_decode_fields(b, p2, n - 1) {
                        None => None,
                        Some((fs, end)) => Some((seq![(key, m)] + fs, end)),
                    }
                },
            }
        } else {
            None
        }
    }
}

/// Lengths in the body stay below what an eight-byte prefix can carry.
pub open spec fn model_bounded(m: JsonModel) -> bool
    decreases m, 0int,
{
    match m {
        JsonModel::Null => true,
        JsonModel::Bool(_) => true,
        JsonModel::Number(_) => true,
        JsonModel::String(s) => encode_utf8(s).len() < 0x1_0000_0000_0000_0000,
        JsonModel::Array(es) => {
            &&& es.len() < 0x1_0000_0000_0000_0000
            &&& forall|i: int| 0 <= i < es.len() ==> model_bounded(#[trigger] es[i])
        },
        JsonModel::Object(fs) => {
            &&& fs.len() < 0x1_0000_0000_0000_0000
            &&& forall|i: int|
                0 <= i < fs.len() ==> encode_utf8(#[trigger] fs[i].0).len()
                    < 0x1_0000_0000_0000_0000
            &&& forall|i: int| 0 <= i < fs.len() ==> model_bounded(#[trigger] fs[i].1)
        },
    }
}

/// The byte form of a node is never empty, and starts with the type
/// byte of its variant.
pub proof fn lemma_encode_model_len(m: JsonModel)
    ensures
        spec_encode_model(m).len() >= 1,
        spec_encode_model(m)[0] == (match m {
            JsonModel::Null => CT_NULL,
            JsonModel::Bool(b) => if b {
                CT_TRUE
            } else {
                CT_FALSE
            },
            JsonModel::Number(_) => CT_NUMBER,
            JsonModel::String(_) => CT_STRING,
            JsonModel::Array(_) => CT_ARRAY,
            JsonModel::Object(_) => CT_OBJECT,
        }),
{
}


/// Decoding starts over at the bytes of an encoded node embedded at
/// position `pos` and recovers exactly that node.
pub proof fn lemma_decode_encode(b: Seq<u8>, pos: int, m: JsonModel)
    requires
        model_bounded(m),
        0 <= pos,
        pos + spec_encode_model(m).len() <= b.len(),
        b.subrange(pos, pos + spec_encode_model(m).len() as int) == spec_encode_model(m),
    ensures
        spec_decode_at(b, pos) == Some((m, pos + spec_encode_model(m).len())),
    decreases m, 0int,
{
    let enc = spec_encode_model(m);
    let ll = enc.len() as int;
    assert forall|k: int| pos <= k < pos + ll implies b[k] == enc[k - pos] by {
        assert(b.subrange(pos, pos + ll)[k - pos] == b[k]);
    }
    match m {
        JsonModel::Null => {},
        JsonModel::Bool(_) => {},
        JsonModel::Number(n) => {
            assert(b.subrange(pos + 1, pos + 9) =~= spec_be_bytes(n));
            lemma_read_of_be(b, pos + 1, n);
        },
        JsonModel::String(s) => {
            let sb = encode_utf8(s);
            let bl = sb.len() as u64;
            assert(b.subrange(pos + 1, pos + 9) =~= spec_be_bytes(bl));
            lemma_read_of_be(b, pos + 1, bl);
            assert(b.subrange(pos + 9, pos + 9 + sb.len()) =~= sb);
            encode_utf8_valid_utf8(s);
            encode_utf8_decode_utf8(s);
        },
        JsonModel::Array(es) => {
            let cnt = es.len() as u64;
            assert(b.subrange(pos + 1, pos + 9) =~= spec_be_bytes(cnt));
            lemma_read_of_be(b, pos + 1, cnt);
            let body = spec_encode_elems(es, 0);
            assert(b.subrange(pos + 9, pos + 9 + body.len()) =~= body);
            lemma_decode_encode_elems(b, pos + 9, es, 0);
            assert(es.skip(0) =~= es);
        },
        JsonModel::Object(fs) => {
            let cnt = fs.len() as u64;
            assert(b.subrange(pos + 1, pos + 9) =~= spec_be_bytes(cnt));
            lemma_read_of_be(b, pos + 1, cnt);
            let body = spec_encode_fields(fs, 0);
            assert(b.subrange(pos + 9, pos + 9 + body.len()) =~= body);
            lemma_decode_encode_fields(b, pos + 9, fs, 0);
            assert(fs.skip(0) =~= fs);
        },
    }
}

/// The element decoder recovers the elements whose encodings are
/// embedded at position `pos`, from element `i` on.
pub proof fn lemma_decode_encode_elems(b: Seq<u8>, pos: int, es: Seq<JsonModel>, i: int)
    requires
        forall|j: int| 0 <= j < es.len() ==> model_bounded(#[trigger] es[j]),
        0 <= i <= es.len(),
        0 <= pos,
        pos + spec_encode_elems(es, i).len() <= b.len(),
        b.subrange(pos, pos + spec_encode_elems(es, i).len() as int) == spec_encode_elems(es, i),
    ensures
        spec_decode_elems(b, pos, es.len() - i) == Some(
            (es.skip(i), pos + spec_encode_elems(es, i).len()),
        ),
    decreases es, es.len() - i,
{
    let enc = spec_encode_elems(es, i);
    let ll = enc.len() as int;
    if i == es.len() {
        assert(es.skip(i) =~= Seq::<JsonModel>::empty());
    } else {
        assert forall|k: int| pos <= k < pos + ll implies b[k] == enc[k - pos] by {
            assert(b.subrange(pos, pos + ll)[k - pos] == b[k]);
        }
        let e0 = spec_encode_model(es[i]);
        let rest = spec_encode_elems(es, i + 1);
        assert(b.subrange(pos, pos + e0.len()) =~= e0);
        lemma_decode_encode(b, pos, es[i]);
        lemma_encode_model_len(es[i]);
        let p2 = pos + e0.len() as int;
        assert(b.subrange(p2, p2 + rest.len()) =~= rest);
        lemma_decode_encode_elems(b, p2, es, i + 1);
        assert(seq![es[i]] + es.skip(i + 1) =~= es.skip(i));
    }
}

/// The field decoder recovers the fields whose encodings are embedded
/// at position `pos`, from field `i` on.
#[verifier::rlimit(100)]
#[verifier::spinoff_prover]
pub proof fn lemma_decode_encode_fields(
    b: Seq<u8>,
    pos: int,
    fs: Seq<(Seq<char>, JsonModel)>,
    i: int,
)
    requires
        forall|j: int| 0 <= j < fs.len() ==> model_bounded(#[trigger] fs[j].1),
        forall|j: int|
            0 <= j < fs.len() ==> encode_utf8(#[trigger] fs[j].0).len() < 0x1_0000_0000_0000_0000,
        0 <= i <= fs.len(),
        0 <= pos,
        pos + spec_encode_fields(fs, i).len() <= b.len(),
        b.subrange(pos, pos + spec_encode_fields(fs, i).len() as int) == spec_encode_fields(fs, i),
    ensures
        spec_decode_fields(b, pos, fs.len() - i) == Some(
            (fs.skip(i), pos + spec_encode_fields(fs, i).len()),
        ),
    decreases fs, fs.len() - i,
{
    let enc = spec_encode_fields(fs, i);
    let ll = enc.len() as int;
    if i == fs.len() {
        assert(fs.skip(i) =~= Seq::<(Seq<char>, JsonModel)>::empty());
    } else {
        assert forall|k: int| pos <= k < pos + ll implies b[k] == enc[k - pos] by {
            assert(b.subrange(pos, pos + ll)[k - pos] == b[k]);
        }
        let kb = encode_utf8(fs[i].0);
        let kl = kb.len() as int;
        let e0 = spec_encode_model(fs[i].1);
        let rest = spec_encode_fields(fs, i + 1);
        assert(b.subrange(pos, pos + 8) =~= spec_be_bytes(kl as u64));
        lemma_read_of_be(b, pos, kl as u64);
        assert(b.subrange(pos + 8, pos + 8 + kl) =~= kb);
        encode_utf8_valid_utf8(fs[i].0);
        encode_utf8_decode_utf8(fs[i].0);
        assert(b.subrange(pos + 8 + kl, pos + 8 + kl + e0.len()) =~= e0);
        lemma_decode_encode(b, pos + 8 + kl, fs[i].1);
        lemma_encode_model_len(fs[i].1);
        let p2 = pos + 8 + kl + e0.len() as int;
        assert(b.subrange(p2, p2 + rest.len()) =~= rest);
        lemma_decode_encode_fields(b, p2, fs, i + 1);
        assert(seq![(fs[i].0, fs[i].1)] + fs.skip(i + 1) =~= fs.skip(i));
    }
}

/// Decoding the stored byte form of a body gives that body back whole:
/// serialization round-trips losslessly.
pub proof fn lemma_body_round_trip(m: JsonModel)
    requires
        model_bounded(m),
    ensures
        spec_decode_at(spec_encode_model(m), 0) == Some(
            (m, spec_encode_model(m).len() as int),
        ),
{
    let enc = spec_encode_model(m);
    assert(enc.subrange(0, enc.len() as int) =~= enc);
    lemma_decode_encode(enc, 0, m);
}

/// Reads a big-endian u64 from eight bytes starting at `pos`.
fn read_be_u64(b: &[u8], pos: usize) -> (r: u64)
    requires
        pos + 8 <= b@.len(),
    ensures
        r == spec_read_u64(b@, pos as int),
{
    let blen = b.len();
    let b0 = *slice_index_get(b, pos);
    let b1 = *slice_index_get(b, pos + 1);
    let b2 = *slice_index_get(b, pos + 2);
    let b3 = *slice_index_get(b, pos + 3);
    let b4 = *slice_index_get(b, pos + 4);
    let b5 = *slice_index_get(b, pos + 5);
    let b6 = *slice_index_get(b, pos + 6);
    let b7 = *slice_index_get(b, pos + 7);
    ((b0 as u64) << 56) | ((b1 as u64) << 48) | ((b2 as u64) << 40) | ((b3 as u64) << 32) | ((
    b4 as u64) << 24) | ((b5 as u64) << 16) | ((b6 as u64) << 8) | (b7 as u64)
}

/// Decodes one node at `pos`, mirroring `spec_decode_at`.
fn decode_at(b: &[u8], pos: usize) -> (r: Option<(JsonValue, usize)>)
    ensures
        match spec_decode_at(b@, pos as int) {
            Some((m, e)) => r matches Some(p) && json_view(p.0) == m && p.1 == e,
            None => r is None,
        },
    decreases b@.len() - pos, 0int,
{
    if pos >= b.len() {
        return None;
    }
    let t = *slice_index_get(b, pos);
    if t == CT_NULL {
        Some((JsonValue::Null, pos + 1))
    } else if t == CT_FALSE {
        Some((JsonValue::Bool(false), pos + 1))
    } else if t == CT_TRUE {
        Some((JsonValue::Bool(true), pos + 1))
    } else if t == CT_NUMBER {
        if b.len() - pos >= 9 {
            let x = read_be_u64(b, pos + 1);
            Some((JsonValue::Number(x), pos + 9))
        } else {
            None
        }
    } else if t == CT_STRING {
        if b.len() - pos >= 9 {
            let nlen = read_be_u64(b, pos + 1);
            let remaining = b.len() - (pos + 9);
            if nlen <= remaining as u64 {
                let n = nlen as usize;
                let sub = slice_subrange(b, pos + 9, pos + 9 + n);
                match bytes_to_str(sub) {
                    Some(s) => {
                        let owned = s.to_owned();
                        proof {
                            encode_utf8_decode_utf8(s@);
                        }
                        Some((JsonValue::String(owned), pos + 9 + n))
                    },
                    None => None,
                }
            } else {
                None
            }
        } else {
            None
        }
    } else if t == CT_ARRAY {
        if b.len() - pos >= 9 {
            let cnt = read_be_u64(b, pos + 1);
            match decode_elems(b, pos + 9, cnt) {
                Some((vs, end)) => {
                    proof {
                        let spec = spec_decode_elems(b@, pos + 9, cnt as int);
                        let es = spec->Some_0.0;
                        assert forall|j: int| 0 <= j < es.len() implies json_view_arr(
                            vs,
                            vs.len() as int,
                        )[j] == es[j] by {
                            lemma_json_view_arr_index(vs, vs.len() as int, j);
                        }
                        lemma_json_view_arr_len(vs, vs.len() as int);
                        assert(json_view_arr(vs, vs.len() as int) =~= es);
                    }
                    Some((JsonValue::Array(vs), end))
                },
                None => None,
            }
        } else {
            None
        }
    } else if t == CT_OBJECT {
        if b.len() - pos >= 9 {
            let cnt = read_be_u64(b, pos + 1);
            match decode_fields(b, pos + 9, cnt) {
                Some((vs, end)) => {
                    proof {
                        let spec = spec_decode_fields(b@, pos + 9, cnt as int);
                        let fs = spec->Some_0.0;
                        assert forall|j: int| 0 <= j < fs.len() implies json_view_obj(
                            vs,
                            vs.len() as int,
                        )[j] == fs[j] by {
                            lemma_json_view_obj_index(vs, vs.len() as int, j);
                        }
                        lemma_json_view_obj_len(vs, vs.len() as int);
                        assert(json_view_obj(vs, vs.len() as int) =~= fs);
                    }
                    Some((JsonValue::Object(vs), end))
                },
                None => None,
            }
        } else {
            None
        }
    } else {
        None
    }
}

/// Decodes `n` consecutive nodes at `pos`, mirroring
/// `spec_decode_elems`.
fn decode_elems(b: &[u8], pos: usize, n: u64) -> (r: Option<(Vec<JsonValue>, usize)>)
    ensures
        match spec_decode_elems(b@, pos as int, n as int) {
            Some((es, e)) => r matches Some(p) && p.1 == e && p.0@.len() == es.len() && forall|
                j: int,
            | 0 <= j < es.len() ==> json_view(#[trigger] p.0@[j]) == es[j],
            None => r is None,
        },
    decreases b@.len() - pos, n as int,
{
    if n == 0 {
        if pos <= b.len() {
            Some((Vec::new(), pos))
        } else {
            None
        }
    } else if pos >= b.len() {
        None
    } else {
        match decode_at(b, pos) {
            None => None,
            Some((v, p2)) => {
                if p2 <= pos || p2 > b.len() {
                    return None;
                }
                match decode_elems(b, p2, n - 1) {
                    None => None,
                    Some((vs, end)) => {
                        let mut vs = vs;
                        vs.insert(0, v);
                        Some((vs, end))
                    },
                }
            },
        }
    }
}

/// Decodes `n` consecutive length-prefixed fields at `pos`, mirroring
/// `spec_decode_fields`.
fn decode_fields(b: &[u8], pos: usize, n: u64) -> (r: Option<(Vec<(String, JsonValue)>, usize)>)
    ensures
        match spec_decode_fields(b@, pos as int, n as int) {
            Some((fs, e)) => r matches Some(p) && p.1 == e && p.0@.len() == fs.len() && forall|
                j: int,
            |
                0 <= j < fs.len() ==> (#[trigger] p.0@[j]).0@ == fs[j].0 && json_view(p.0@[j].1)
                    == fs[j].1,
            None => r is None,
        },
    decreases b@.len() - pos, n as int,
{
    if n == 0 {
        if pos <= b.len() {
            Some((Vec::new(), pos))
        } else {
            None
        }
    } else if pos >= b.len() || b.len() - pos < 8 {
        None
    } else {
        let klen = read_be_u64(b, pos);
        let remaining = b.len() - (pos + 8);
        if klen > remaining as u64 {
            return None;
        }
        let kl = klen as usize;
        let sub = slice_subrange(b, pos + 8, pos + 8 + kl);
        match bytes_to_str(sub) {
            None => None,
            Some(s) => {
                let key = s.to_owned();
                proof {
                    encode_utf8_decode_utf8(s@);
                }
                match decode_at(b, pos + 8 + kl) {
                    None => None,
                    Some((v, p2)) => {
                        if p2 <= pos || p2 > b.len() {
                            return None;
                        }
                        match decode_fields(b, p2, n - 1) {
                            None => None,
                            Some((fs, end)) => {
                                let mut fs = fs;
                                fs.insert(0, (key, v));
                                Some((fs, end))
                            },
                        }
                    },
                }
            },
        }
    }
}

/// Deserializes a stored document body: succeeds exactly when the bytes
/// are one whole encoded body, and then returns that body.
pub fn decode_body(b: &[u8]) -> (r: Option<JsonValue>)
    ensures
        match spec_decode_at(b@, 0) {
            Some((m, e)) => if e == b@.len() {
                r matches Some(v) && json_view(v) == m
            } else {
                r is None
            },
            None => r is None,
        },
{
    match decode_at(b, 0) {
        Some((v, end)) => {
            if end == b.len() {
                Some(v)
            } else {
                None
            }
        },
        None => None,
    }
}

} // verus!
