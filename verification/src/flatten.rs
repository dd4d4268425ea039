use vstd::prelude::*;

use crate::codec::{
    json_view, json_view_arr, json_view_obj, lemma_json_view_arr_index, lemma_json_view_arr_len,
    lemma_json_view_obj_index, lemma_json_view_obj_len,
};
use crate::json::{json_wf, JsonValue};
use crate::keys::{path_wf, spec_encode_path, PATH_SEP};
use crate::values::{
    f64_bits_of_mag, is_nan_bits, spec_encode_tagged, spec_f64_bits_of_mag, value_wf,
    TaggableValue,
};

verus! {

/// The leaves of a document below a path prefix: every `(path, scalar)`
/// pair the index derives from it. Array elements extend the path by
/// their position (as a number); object fields extend it by their name.
/// Children are listed from the last to the first, the order in which
/// a stack-driven walk emits them.
pub open spec fn spec_flatten(path: Seq<TaggableValue>, v: JsonValue) -> Seq<
    (Seq<TaggableValue>, TaggableValue),
>
    decreases v, 0int,
{
    match v {
        JsonValue::Null => seq![(path, TaggableValue::Null)],
        JsonValue::Bool(b) => seq![(path, TaggableValue::Bool(b))],
        JsonValue::Number(n) => seq![(path, TaggableValue::Number(n))],
        JsonValue::String(s) => seq![(path, TaggableValue::String(s))],
        JsonValue::Array(a) => spec_flatten_arr(path, a, a.len() as int),
        JsonValue::Object(o) => spec_flatten_obj(path, o, o.len() as int),
    }
}

/// The leaves of the first `i` elements of an array, last element
/// first.
pub open spec fn spec_flatten_arr(path: Seq<TaggableValue>, a: Vec<JsonValue>, i: int) -> Seq<
    (Seq<TaggableValue>, TaggableValue),
>
    decreases a, i,
{
    if i <= 0 || i > a.len() {
        seq![]
    } else {
        spec_flatten(
            path.push(TaggableValue::Number(spec_f64_bits_of_mag((i - 1) as u64))),
            a[i - 1],
        ) + spec_flatten_arr(path, a, i - 1)
    }
}

/// The leaves of the first `i` fields of an object, last field first.
pub open spec fn spec_flatten_obj(
    path: Seq<TaggableValue>,
    o: Vec<(String, JsonValue)>,
    i: int,
) -> Seq<(Seq<TaggableValue>, TaggableValue)>
    decreases o, i,
{
    if i <= 0 || i > o.len() {
        seq![]
    } else {
        spec_flatten(path.push(TaggableValue::String(o[i - 1].0)), o[i - 1].1)
            + spec_flatten_obj(path, o, i - 1)
    }
}

/// The view of a produced leaf list: paths as sequences.
pub open spec fn pv_view(r: Seq<(Vec<TaggableValue>, TaggableValue)>) -> Seq<
    (Seq<TaggableValue>, TaggableValue),
> {
    r.map_values(|pv: (Vec<TaggableValue>, TaggableValue)| (pv.0@, pv.1))
}

/// Walks a document and produces its `(path, scalar)` leaves, exactly
/// the pairs of `spec_flatten` from an empty path.
pub fn get_path_values(v: &JsonValue) -> (r: Vec<(Vec<TaggableValue>, TaggableValue)>)
    ensures
        pv_view(r@) == spec_flatten(Seq::empty(), *v),
{
    let path: Vec<TaggableValue> = Vec::new();
    let mut acc: Vec<(Vec<TaggableValue>, TaggableValue)> = Vec::new();
    flatten_onto(&path, v, &mut acc);
    proof {
        assert(pv_view(acc@) =~= Seq::empty() + spec_flatten(path@, *v));
        assert(path@ =~= Seq::<TaggableValue>::empty());
    }
    acc
}

/// Appends the leaves of `v` below `path` onto `acc`.
#[verifier::loop_isolation(false)]
fn flatten_onto(
    path: &Vec<TaggableValue>,
    v: &JsonValue,
    acc: &mut Vec<(Vec<TaggableValue>, TaggableValue)>,
)
    ensures
        pv_view(final(acc)@) == pv_view(old(acc)@) + spec_flatten(path@, *v),
    decreases *v,
{
    match v {
        JsonValue::Null => {
            acc.push((path.clone(), TaggableValue::Null));
            proof {
                assert(pv_view(acc@) =~= pv_view(old(acc)@) + spec_flatten(path@, *v));
            }
        },
        JsonValue::Bool(b) => {
            acc.push((path.clone(), TaggableValue::Bool(*b)));
            proof {
                assert(pv_view(acc@) =~= pv_view(old(acc)@) + spec_flatten(path@, *v));
            }
        },
        JsonValue::Number(n) => {
            acc.push((path.clone(), TaggableValue::Number(*n)));
            proof {
                assert(pv_view(acc@) =~= pv_view(old(acc)@) + spec_flatten(path@, *v));
            }
        },
        JsonValue::String(s) => {
            acc.push((path.clone(), TaggableValue::String(s.clone())));
            proof {
                assert(pv_view(acc@) =~= pv_view(old(acc)@) + spec_flatten(path@, *v));
            }
        },
        JsonValue::Array(a) => {
            let n = a.len();
            let mut i: usize = n;
            while i > 0
                invariant
                    i <= n,
                    n == a@.len(),
                    pv_view(acc@) + spec_flatten_arr(path@, *a, i as int) == pv_view(old(acc)@)
                        + spec_flatten_arr(path@, *a, n as int),
                decreases i,
            {
                let mut child_path = path.clone();
                child_path.push(TaggableValue::Number(f64_bits_of_mag((i - 1) as u64)));
                proof {
                    assert(child_path@ =~= path@.push(
                        TaggableValue::Number(spec_f64_bits_of_mag((i - 1) as u64)),
                    ));
                }
                proof {
                    assert(decreases_to!(*v => a@[i - 1]));
                }
                flatten_onto(&child_path, &a[i - 1], acc);
                i = i - 1;
            }
            proof {
                assert(spec_flatten_arr(path@, *a, 0int) =~= Seq::<
                    (Seq<TaggableValue>, TaggableValue),
                >::empty());
                assert(pv_view(acc@) =~= pv_view(acc@) + spec_flatten_arr(path@, *a, 0int));
                assert(pv_view(acc@) =~= pv_view(old(acc)@) + spec_flatten(path@, *v));
            }
        },
        JsonValue::Object(o) => {
            let n = o.len();
            let mut i: usize = n;
            while i > 0
                invariant
                    i <= n,
                    n == o@.len(),
                    pv_view(acc@) + spec_flatten_obj(path@, *o, i as int) == pv_view(old(acc)@)
                        + spec_flatten_obj(path@, *o, n as int),
                decreases i,
            {
                let mut child_path = path.clone();
                child_path.push(TaggableValue::String(o[i - 1].0.clone()));
                proof {
                    assert(child_path@ =~= path@.push(TaggableValue::String(o@[i - 1].0)));
                }
                proof {
                    assert(decreases_to!(*v => o@[i - 1].1));
                }
                flatten_onto(&child_path, &o[i - 1].1, acc);
                i = i - 1;
            }
            proof {
                assert(spec_flatten_obj(path@, *o, 0int) =~= Seq::<
                    (Seq<TaggableValue>, TaggableValue),
                >::empty());
                assert(pv_view(acc@) =~= pv_view(acc@) + spec_flatten_obj(path@, *o, 0int));
                assert(pv_view(acc@) =~= pv_view(old(acc)@) + spec_flatten(path@, *v));
            }
        },
    }
}


/// Appending a component to a path appends its encoding, with the path
/// separator in between unless the path was empty.
pub proof fn lemma_encode_path_push(p: Seq<TaggableValue>, c: TaggableValue)
    ensures
        spec_encode_path(p.push(c)) == if p.len() == 0 {
            spec_encode_tagged(c)
        } else {
            spec_encode_path(p) + seq![PATH_SEP] + spec_encode_tagged(c)
        },
{
    let q = p.push(c);
    assert(q.drop_last() =~= p);
    assert(q.last() == c);
}

/// A number built from an integer magnitude is never NaN: its exponent
/// field stays below the NaN range.
pub proof fn lemma_mag_bits_not_nan(m: u64)
    ensures
        !is_nan_bits(spec_f64_bits_of_mag(m)),
{
    if m == 0 {
        assert(!is_nan_bits(0u64)) by (bit_vector);
    } else {
        let (x0, s0) = if m & 0xffff_ffff_0000_0000 == 0 {
            ((m << 32) as u64, 32u64)
        } else {
            (m, 0u64)
        };
        let (x1, s1) = if x0 & 0xffff_0000_0000_0000 == 0 {
            ((x0 << 16) as u64, (s0 + 16) as u64)
        } else {
            (x0, s0)
        };
        let (x2, s2) = if x1 & 0xff00_0000_0000_0000 == 0 {
            ((x1 << 8) as u64, (s1 + 8) as u64)
        } else {
            (x1, s1)
        };
        let (x3, s3) = if x2 & 0xf000_0000_0000_0000 == 0 {
            ((x2 << 4) as u64, (s2 + 4) as u64)
        } else {
            (x2, s2)
        };
        let (x4, s4) = if x3 & 0xc000_0000_0000_0000 == 0 {
            ((x3 << 2) as u64, (s3 + 2) as u64)
        } else {
            (x3, s3)
        };
        let (x5, s5) = if x4 & 0x8000_0000_0000_0000 == 0 {
            ((x4 << 1) as u64, (s4 + 1) as u64)
        } else {
            (x4, s4)
        };
        let e = (63 - s5) as u64;
        let base = x5 >> 11;
        let rem = x5 & 0x7ff;
        let rounded = if rem > 0x400 || (rem == 0x400 && base & 1 == 1) {
            (base + 1) as u64
        } else {
            base
        };
        assert(s5 <= 63);
        assert(e <= 63);
        if rounded == 0x20_0000_0000_0000 {
            let field = (e + 1024) as u64;
            assert(field <= 1087 ==> ((((field << 52) as u64) >> 52) & 0x7ff == field && ((
            field << 52) as u64) & 0xf_ffff_ffff_ffff == 0)) by (bit_vector);
        } else {
            let field = (e + 1023) as u64;
            let r = rounded;
            assert(field <= 1087 ==> ((((field << 52) | (r & 0xf_ffff_ffff_ffff)) as u64 >> 52)
                & 0x7ff == field)) by (bit_vector);
        }
    }
}

/// Every leaf of a well-formed document below a well-formed path prefix
/// has a well-formed path and value.
pub proof fn lemma_flatten_wf(path: Seq<TaggableValue>, v: JsonValue)
    requires
        json_wf(v),
        path_wf(path),
    ensures
        forall|j: int|
            0 <= j < spec_flatten(path, v).len() ==> path_wf(
                (#[trigger] spec_flatten(path, v)[j]).0,
            ) && value_wf(spec_flatten(path, v)[j].1),
    decreases v, 1int,
{
    match v {
        JsonValue::Null => {},
        JsonValue::Bool(_) => {},
        JsonValue::Number(_) => {},
        JsonValue::String(_) => {},
        JsonValue::Array(a) => {
            assert(forall|j: int| 0 <= j < a@.len() ==> json_wf(#[trigger] a@[j]));
            lemma_flatten_wf_arr(path, a, a.len() as int);
            assert(spec_flatten(path, v) == spec_flatten_arr(path, a, a.len() as int));
            assert forall|j: int| 0 <= j < spec_flatten(path, v).len() implies path_wf(
                (#[trigger] spec_flatten(path, v)[j]).0,
            ) && value_wf(spec_flatten(path, v)[j].1) by {
                assert(spec_flatten(path, v)[j] == spec_flatten_arr(path, a, a.len() as int)[j]);
            }
        },
        JsonValue::Object(o) => {
            assert(forall|j: int| 0 <= j < o@.len() ==> json_wf(#[trigger] o@[j].1));
            assert(forall|j: int|
                0 <= j < o@.len() ==> crate::json::bytes_sep_free(
                    crate::values::str_bytes(#[trigger] o@[j].0@),
                ));
            lemma_flatten_wf_obj(path, o, o.len() as int);
            assert(spec_flatten(path, v) == spec_flatten_obj(path, o, o.len() as int));
            assert forall|j: int| 0 <= j < spec_flatten(path, v).len() implies path_wf(
                (#[trigger] spec_flatten(path, v)[j]).0,
            ) && value_wf(spec_flatten(path, v)[j].1) by {
                assert(spec_flatten(path, v)[j] == spec_flatten_obj(path, o, o.len() as int)[j]);
            }
        },
    }
}

proof fn lemma_flatten_wf_arr(path: Seq<TaggableValue>, a: Vec<JsonValue>, i: int)
    requires
        forall|j: int| 0 <= j < a@.len() ==> json_wf(#[trigger] a@[j]),
        path_wf(path),
        0 <= i <= a.len(),
    ensures
        forall|j: int|
            0 <= j < spec_flatten_arr(path, a, i).len() ==> path_wf(
                (#[trigger] spec_flatten_arr(path, a, i)[j]).0,
            ) && value_wf(spec_flatten_arr(path, a, i)[j].1),
    decreases a, i,
{
    if i > 0 {
        let comp = TaggableValue::Number(spec_f64_bits_of_mag((i - 1) as u64));
        lemma_mag_bits_not_nan((i - 1) as u64);
        let child_path = path.push(comp);
        assert(path_wf(child_path)) by {
            assert(forall|j: int| 0 <= j < path.len() ==> child_path[j] == path[j]);
            assert(child_path[path.len() as int] == comp);
        }
        assert(a[i - 1] == a@[i - 1]);
        assert(json_wf(a@[i - 1]));
        lemma_flatten_wf(child_path, a[i - 1]);
        lemma_flatten_wf_arr(path, a, i - 1);
        assert(spec_flatten_arr(path, a, i) == spec_flatten(child_path, a[i - 1])
            + spec_flatten_arr(path, a, i - 1));
    }
}

proof fn lemma_flatten_wf_obj(path: Seq<TaggableValue>, o: Vec<(String, JsonValue)>, i: int)
    requires
        forall|j: int| 0 <= j < o@.len() ==> json_wf(#[trigger] o@[j].1),
        forall|j: int|
            0 <= j < o@.len() ==> crate::json::bytes_sep_free(
                crate::values::str_bytes(#[trigger] o@[j].0@),
            ),
        path_wf(path),
        0 <= i <= o.len(),
    ensures
        forall|j: int|
            0 <= j < spec_flatten_obj(path, o, i).len() ==> path_wf(
                (#[trigger] spec_flatten_obj(path, o, i)[j]).0,
            ) && value_wf(spec_flatten_obj(path, o, i)[j].1),
    decreases o, i,
{
    if i > 0 {
        let comp = TaggableValue::String(o[i - 1].0);
        let child_path = path.push(comp);
        assert(o[i - 1] == o@[i - 1]);
        assert(crate::json::bytes_sep_free(crate::values::str_bytes(o@[i - 1].0@)));
        assert(value_wf(comp));
        assert(path_wf(child_path)) by {
            assert(forall|j: int| 0 <= j < path.len() ==> child_path[j] == path[j]);
            assert(child_path[path.len() as int] == comp);
        }
        assert(json_wf(o@[i - 1].1));
        lemma_flatten_wf(child_path, o[i - 1].1);
        lemma_flatten_wf_obj(path, o, i - 1);
        assert(spec_flatten_obj(path, o, i) == spec_flatten(child_path, o[i - 1].1)
            + spec_flatten_obj(path, o, i - 1));
    }
}

/// What a leaf list contributes to the index depends only on the
/// document's mathematical shape: two bodies with the same model
/// produce, below prefixes that encode alike, leaf lists of the same
/// length whose paths and values encode alike pairwise.
pub proof fn lemma_flatten_view_det(
    p1: Seq<TaggableValue>,
    p2: Seq<TaggableValue>,
    v1: JsonValue,
    v2: JsonValue,
)
    requires
        json_view(v1) == json_view(v2),
        p1.len() == p2.len(),
        spec_encode_path(p1) == spec_encode_path(p2),
    ensures
        spec_flatten(p1, v1).len() == spec_flatten(p2, v2).len(),
        forall|j: int|
            0 <= j < spec_flatten(p1, v1).len() ==> {
                &&& (#[trigger] spec_flatten(p1, v1)[j]).0.len() == spec_flatten(p2, v2)[j].0.len()
                &&& spec_encode_path(spec_flatten(p1, v1)[j].0) == spec_encode_path(
                    spec_flatten(p2, v2)[j].0,
                )
                &&& spec_encode_tagged(spec_flatten(p1, v1)[j].1) == spec_encode_tagged(
                    spec_flatten(p2, v2)[j].1,
                )
            },
    decreases v1, 1int,
{
    match (v1, v2) {
        (JsonValue::Null, JsonValue::Null) => {},
        (JsonValue::Bool(_), JsonValue::Bool(_)) => {},
        (JsonValue::Number(_), JsonValue::Number(_)) => {},
        (JsonValue::String(s1), JsonValue::String(s2)) => {
            assert(s1@ == s2@);
        },
        (JsonValue::Array(a1), JsonValue::Array(a2)) => {
            lemma_json_view_arr_len(a1, a1.len() as int);
            lemma_json_view_arr_len(a2, a2.len() as int);
            lemma_flatten_view_det_arr(p1, p2, v1, v2, a1, a2, a1.len() as int);
        },
        (JsonValue::Object(o1), JsonValue::Object(o2)) => {
            lemma_json_view_obj_len(o1, o1.len() as int);
            lemma_json_view_obj_len(o2, o2.len() as int);
            lemma_flatten_view_det_obj(p1, p2, v1, v2, o1, o2, o1.len() as int);
        },
        _ => {
            assert(false);
        },
    }
}

proof fn lemma_flatten_view_det_arr(
    p1: Seq<TaggableValue>,
    p2: Seq<TaggableValue>,
    v1: JsonValue,
    v2: JsonValue,
    a1: Vec<JsonValue>,
    a2: Vec<JsonValue>,
    i: int,
)
    requires
        v1 == JsonValue::Array(a1),
        v2 == JsonValue::Array(a2),
        json_view(v1) == json_view(v2),
        a1.len() == a2.len(),
        p1.len() == p2.len(),
        spec_encode_path(p1) == spec_encode_path(p2),
        0 <= i <= a1.len(),
    ensures
        spec_flatten_arr(p1, a1, i).len() == spec_flatten_arr(p2, a2, i).len(),
        forall|j: int|
            0 <= j < spec_flatten_arr(p1, a1, i).len() ==> {
                &&& (#[trigger] spec_flatten_arr(p1, a1, i)[j]).0.len() == spec_flatten_arr(
                    p2,
                    a2,
                    i,
                )[j].0.len()
                &&& spec_encode_path(spec_flatten_arr(p1, a1, i)[j].0) == spec_encode_path(
                    spec_flatten_arr(p2, a2, i)[j].0,
                )
                &&& spec_encode_tagged(spec_flatten_arr(p1, a1, i)[j].1) == spec_encode_tagged(
                    spec_flatten_arr(p2, a2, i)[j].1,
                )
            },
    decreases a1, i,
{
    if i > 0 {
        let comp = TaggableValue::Number(spec_f64_bits_of_mag((i - 1) as u64));
        let c1 = p1.push(comp);
        let c2 = p2.push(comp);
        lemma_encode_path_push(p1, comp);
        lemma_encode_path_push(p2, comp);
        lemma_json_view_arr_index(a1, a1.len() as int, i - 1);
        lemma_json_view_arr_index(a2, a2.len() as int, i - 1);
        assert(json_view(a1[i - 1]) == json_view(a2[i - 1]));
        lemma_flatten_view_det(c1, c2, a1[i - 1], a2[i - 1]);
        lemma_flatten_view_det_arr(p1, p2, v1, v2, a1, a2, i - 1);
    }
}

proof fn lemma_flatten_view_det_obj(
    p1: Seq<TaggableValue>,
    p2: Seq<TaggableValue>,
    v1: JsonValue,
    v2: JsonValue,
    o1: Vec<(String, JsonValue)>,
    o2: Vec<(String, JsonValue)>,
    i: int,
)
    requires
        v1 == JsonValue::Object(o1),
        v2 == JsonValue::Object(o2),
        json_view(v1) == json_view(v2),
        o1.len() == o2.len(),
        p1.len() == p2.len(),
        spec_encode_path(p1) == spec_encode_path(p2),
        0 <= i <= o1.len(),
    ensures
        spec_flatten_obj(p1, o1, i).len() == spec_flatten_obj(p2, o2, i).len(),
        forall|j: int|
            0 <= j < spec_flatten_obj(p1, o1, i).len() ==> {
                &&& (#[trigger] spec_flatten_obj(p1, o1, i)[j]).0.len() == spec_flatten_obj(
                    p2,
                    o2,
                    i,
                )[j].0.len()
                &&& spec_encode_path(spec_flatten_obj(p1, o1, i)[j].0) == spec_encode_path(
                    spec_flatten_obj(p2, o2, i)[j].0,
                )
                &&& spec_encode_tagged(spec_flatten_obj(p1, o1, i)[j].1) == spec_encode_tagged(
                    spec_flatten_obj(p2, o2, i)[j].1,
                )
            },
    decreases o1, i,
{
    if i > 0 {
        let k1 = TaggableValue::String(o1[i - 1].0);
        let k2 = TaggableValue::String(o2[i - 1].0);
        let c1 = p1.push(k1);
        let c2 = p2.push(k2);
        lemma_encode_path_push(p1, k1);
        lemma_encode_path_push(p2, k2);
        lemma_json_view_obj_index(o1, o1.len() as int, i - 1);
        lemma_json_view_obj_index(o2, o2.len() as int, i - 1);
        assert(o1[i - 1].0@ == o2[i - 1].0@);
        assert(spec_encode_tagged(k1) == spec_encode_tagged(k2));
        assert(json_view(o1[i - 1].1) == json_view(o2[i - 1].1));
        lemma_flatten_view_det(c1, c2, o1[i - 1].1, o2[i - 1].1);
        lemma_flatten_view_det_obj(p1, p2, v1, v2, o1, o2, i - 1);
    }
}

} // verus!
