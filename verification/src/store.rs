use vstd::prelude::*;

use crate::codec::{
    decode_body, encode_body, json_view, spec_decode_at, spec_encode_model, JsonModel,
};
use crate::errors::DocDbError;
use crate::flatten::{get_path_values, lemma_flatten_view_det, pv_view, spec_flatten};
use crate::json::{bytes_sep_free, json_wf, JsonValue};
use crate::keys::{encode_document_key, spec_doc_key, spec_index_key};
use crate::kv::{apply_ops, kv_contents, BatchOp};
use crate::values::{str_bytes, TaggableValue};

verus! {

/// A doc id the engine accepts in keys: none of its UTF-8 bytes is a
/// reserved separator byte.
pub open spec fn docid_wf(d: Seq<u8>) -> bool {
    bytes_sep_free(d)
}

/// The key of an index entry derived from a leaf of `body` for the
/// document `d`.
pub open spec fn is_derived_key(k: Seq<u8>, d: Seq<u8>, body: JsonValue) -> bool {
    exists|j: int|
        0 <= j < spec_flatten(Seq::empty(), body).len() && k == spec_index_key(
            d,
            (#[trigger] spec_flatten(Seq::empty(), body)[j]).0,
            spec_flatten(Seq::empty(), body)[j].1,
        )
}

/// The store holds a document-body entry for `d`.
pub open spec fn has_doc(m: Map<Seq<u8>, Seq<u8>>, d: Seq<u8>) -> bool {
    m.contains_key(spec_doc_key(d))
}

/// The stored body entry for `d` deserializes as one whole body.
pub open spec fn doc_decodes(m: Map<Seq<u8>, Seq<u8>>, d: Seq<u8>) -> bool {
    has_doc(m, d) && match spec_decode_at(m[spec_doc_key(d)], 0) {
        Some((jm, e)) => e == m[spec_doc_key(d)].len(),
        None => false,
    }
}

/// The model of the stored body of `d`.
pub open spec fn doc_view(m: Map<Seq<u8>, Seq<u8>>, d: Seq<u8>) -> JsonModel {
    spec_decode_at(m[spec_doc_key(d)], 0)->Some_0.0
}

/// Some body whose model is the stored one.
pub open spec fn stored_witness(m: Map<Seq<u8>, Seq<u8>>, d: Seq<u8>) -> JsonValue {
    choose|w: JsonValue| json_view(w) == doc_view(m, d)
}

/// `k` is an index entry derived from the body currently stored for
/// `d`.
pub open spec fn old_derived(m: Map<Seq<u8>, Seq<u8>>, d: Seq<u8>, k: Seq<u8>) -> bool {
    doc_decodes(m, d) && is_derived_key(k, d, stored_witness(m, d))
}

/// Which index entries a body derives depends only on the body's
/// mathematical shape.
pub proof fn lemma_derived_key_view(d: Seq<u8>, v1: JsonValue, v2: JsonValue, k: Seq<u8>)
    requires
        json_view(v1) == json_view(v2),
    ensures
        is_derived_key(k, d, v1) == is_derived_key(k, d, v2),
{
    lemma_flatten_view_det(Seq::empty(), Seq::empty(), v1, v2);
    let f1 = spec_flatten(Seq::<TaggableValue>::empty(), v1);
    let f2 = spec_flatten(Seq::<TaggableValue>::empty(), v2);
    assert forall|j: int| 0 <= j < f1.len() implies spec_index_key(d, (#[trigger] f1[j]).0, f1[j].1)
        == spec_index_key(d, f2[j].0, f2[j].1) by {
        assert(crate::keys::spec_encode_path(f1[j].0) == crate::keys::spec_encode_path(f2[j].0));
        assert(crate::values::spec_encode_tagged(f1[j].1) == crate::values::spec_encode_tagged(
            f2[j].1,
        ));
    }
    if is_derived_key(k, d, v1) {
        let j = choose|j: int| 0 <= j < f1.len() && k == spec_index_key(d, f1[j].0, f1[j].1);
        assert(k == spec_index_key(d, f2[j].0, f2[j].1));
        assert(is_derived_key(k, d, v2));
    }
    if is_derived_key(k, d, v2) {
        let j = choose|j: int| 0 <= j < f2.len() && k == spec_index_key(d, f2[j].0, f2[j].1);
        assert(k == spec_index_key(d, f1[j].0, f1[j].1));
        assert(is_derived_key(k, d, v1));
    }
}

/// The key a batch write touches.
pub open spec fn op_key(op: BatchOp) -> Seq<u8> {
    match op {
        BatchOp::Insert(k, _) => k@,
        BatchOp::Remove(k) => k@,
    }
}

/// Some write of the batch touches `k`.
pub open spec fn ops_touch(ops: Seq<BatchOp>, k: Seq<u8>) -> bool {
    exists|i: int| 0 <= i < ops.len() && op_key(#[trigger] ops[i]) == k
}

/// Applying a concatenation of batches applies them in turn.
pub proof fn lemma_apply_ops_append(m: Map<Seq<u8>, Seq<u8>>, ops1: Seq<BatchOp>, ops2: Seq<
    BatchOp,
>)
    ensures
        apply_ops(m, ops1 + ops2) == apply_ops(apply_ops(m, ops1), ops2),
    decreases ops1.len(),
{
    if ops1.len() == 0 {
        assert(ops1 + ops2 =~= ops2);
    } else {
        let m2 = match ops1[0] {
            BatchOp::Insert(k, v) => m.insert(k@, v@),
            BatchOp::Remove(k) => m.remove(k@),
        };
        assert((ops1 + ops2)[0] == ops1[0]);
        assert((ops1 + ops2).drop_first() =~= ops1.drop_first() + ops2);
        lemma_apply_ops_append(m2, ops1.drop_first(), ops2);
    }
}

/// A batch of removals erases exactly its keys and keeps every other
/// entry.
pub proof fn lemma_apply_removes(m: Map<Seq<u8>, Seq<u8>>, ops: Seq<BatchOp>, k: Seq<u8>)
    requires
        forall|i: int| 0 <= i < ops.len() ==> (#[trigger] ops[i]) is Remove,
    ensures
        apply_ops(m, ops).contains_key(k) <==> (m.contains_key(k) && !ops_touch(ops, k)),
        apply_ops(m, ops).contains_key(k) ==> apply_ops(m, ops)[k] == m[k],
    decreases ops.len(),
{
    if ops.len() > 0 {
        let k0 = op_key(ops[0]);
        let m2 = m.remove(k0);
        let rest = ops.drop_first();
        lemma_apply_removes(m2, rest, k);
        assert(apply_ops(m, ops) == apply_ops(m2, rest));
        if ops_touch(rest, k) {
            let i = choose|i: int| 0 <= i < rest.len() && op_key(rest[i]) == k;
            assert(ops[i + 1] == rest[i]);
            assert(ops_touch(ops, k));
        }
        if k != k0 && ops_touch(ops, k) && !ops_touch(rest, k) {
            let i = choose|i: int| 0 <= i < ops.len() && op_key(ops[i]) == k;
            assert(i >= 1);
            assert(rest[i - 1] == ops[i]);
            assert(ops_touch(rest, k));
        }
        if k == k0 {
            assert(ops_touch(ops, k));
        }
    }
}

/// A batch of insertions with empty values adds exactly its keys, each
/// mapped to the empty value, and keeps every other entry.
pub proof fn lemma_apply_inserts_empty(m: Map<Seq<u8>, Seq<u8>>, ops: Seq<BatchOp>, k: Seq<u8>)
    requires
        forall|i: int|
            0 <= i < ops.len() ==> ((#[trigger] ops[i]) matches BatchOp::Insert(kk, v) && v@
                == Seq::<u8>::empty()),
    ensures
        apply_ops(m, ops).contains_key(k) <==> (m.contains_key(k) || ops_touch(ops, k)),
        ops_touch(ops, k) ==> apply_ops(m, ops)[k] == Seq::<u8>::empty(),
        m.contains_key(k) && !ops_touch(ops, k) ==> apply_ops(m, ops)[k] == m[k],
    decreases ops.len(),
{
    if ops.len() > 0 {
        let k0 = op_key(ops[0]);
        let v0 = ops[0]->Insert_1;
        let m2 = m.insert(k0, v0@);
        let rest = ops.drop_first();
        lemma_apply_inserts_empty(m2, rest, k);
        assert(apply_ops(m, ops) == apply_ops(m2, rest));
        if ops_touch(rest, k) {
            let i = choose|i: int| 0 <= i < rest.len() && op_key(rest[i]) == k;
            assert(ops[i + 1] == rest[i]);
            assert(ops_touch(ops, k));
        }
        if k == k0 {
            assert(ops_touch(ops, k));
            if !ops_touch(rest, k) {
                assert(m2.contains_key(k) && m2[k] == Seq::<u8>::empty());
            }
        } else {
            if ops_touch(ops, k) && !ops_touch(rest, k) {
                let i = choose|i: int| 0 <= i < ops.len() && op_key(ops[i]) == k;
                assert(i >= 1);
                assert(rest[i - 1] == ops[i]);
                assert(ops_touch(rest, k));
            }
        }
    }
}

/// Reads a document by id: returns the stored body, nothing when the id
/// is absent, `Decode` when the stored bytes are not one whole encoded
/// body, and `Storage` when the key-value store itself fails.
pub fn get_document(db: &sled::Db, docid: &str) -> (r: Result<Option<JsonValue>, DocDbError>)
    ensures
        r matches Ok(o) ==> (match o {
            Some(v) => doc_decodes(kv_contents(*db), str_bytes(docid@)) && json_view(v)
                == doc_view(kv_contents(*db), str_bytes(docid@)),
            None => !has_doc(kv_contents(*db), str_bytes(docid@)),
        }),
        r matches Err(e) ==> (e is Storage || (e is Decode && has_doc(
            kv_contents(*db),
            str_bytes(docid@),
        ) && !doc_decodes(kv_contents(*db), str_bytes(docid@)))),
{
    let key = encode_document_key(docid);
    let readvalue = match crate::kv::kv_get(db, &key) {
        Ok(o) => o,
        Err(e) => {
            return Err(DocDbError::Storage(e));
        },
    };
    let packed = match readvalue {
        Some(doc) => doc,
        None => {
            return Ok(None);
        },
    };
    match decode_body(packed.as_slice()) {
        Some(v) => Ok(Some(v)),
        None => Err(DocDbError::Decode),
    }
}


/// A derived index key is never a document-body key: the two key
/// namespaces start with different bytes.
pub proof fn lemma_index_key_not_doc_key(
    d1: Seq<u8>,
    d2: Seq<u8>,
    p: Seq<TaggableValue>,
    vv: TaggableValue,
)
    ensures
        spec_index_key(d1, p, vv) != spec_doc_key(d2),
{
    assert(spec_index_key(d1, p, vv)[0] == crate::keys::KEY_INDEX);
    assert(spec_doc_key(d2)[0] == crate::keys::KEY_DOCUMENT);
}

/// The state after a successful write of `v` under `d`: the body entry
/// holds the encoded body, every index entry derived from `v` is
/// present and empty, every index entry derived from the previously
/// stored body and not from `v` is gone, and nothing else changed.
pub open spec fn store_set_post(
    m: Map<Seq<u8>, Seq<u8>>,
    m2: Map<Seq<u8>, Seq<u8>>,
    d: Seq<u8>,
    v: JsonValue,
) -> bool {
    &&& m2.contains_key(spec_doc_key(d)) && m2[spec_doc_key(d)] == spec_encode_model(json_view(v))
    &&& forall|k: Seq<u8>|
        #![trigger is_derived_key(k, d, v)]
        is_derived_key(k, d, v) ==> m2.contains_key(k) && m2[k] == Seq::<u8>::empty()
    &&& forall|k: Seq<u8>|
        #![trigger m2.contains_key(k)]
        m2.contains_key(k) ==> k == spec_doc_key(d) || is_derived_key(k, d, v) || m.contains_key(k)
    &&& forall|k: Seq<u8>|
        #![trigger m.contains_key(k)]
        m.contains_key(k) && k != spec_doc_key(d) && !is_derived_key(k, d, v) && !old_derived(
            m,
            d,
            k,
        ) ==> m2.contains_key(k) && m2[k] == m[k]
    &&& forall|k: Seq<u8>|
        #![trigger old_derived(m, d, k)]
        old_derived(m, d, k) && !is_derived_key(k, d, v) ==> !m2.contains_key(k)
}

/// The state after a successful removal of the document `d`: the body
/// entry and every index entry derived from the stored body are gone,
/// and nothing else changed.
pub open spec fn store_delete_post(
    m: Map<Seq<u8>, Seq<u8>>,
    m2: Map<Seq<u8>, Seq<u8>>,
    d: Seq<u8>,
) -> bool {
    &&& !m2.contains_key(spec_doc_key(d))
    &&& forall|k: Seq<u8>| #![trigger old_derived(m, d, k)] old_derived(m, d, k)
        ==> !m2.contains_key(k)
    &&& forall|k: Seq<u8>| #![trigger m2.contains_key(k)] m2.contains_key(k) ==> m.contains_key(k)
        && m2[k] == m[k]
    &&& forall|k: Seq<u8>|
        #![trigger m.contains_key(k)]
        m.contains_key(k) && k != spec_doc_key(d) && !old_derived(m, d, k) ==> m2.contains_key(k)
}

/// Builds one removal per index entry derived from `body`, appended
/// onto `ops`. Removal keys need no acceptance test: removing a key
/// writes nothing new into the store.
fn push_removals(docid: &str, body: &JsonValue, ops: &mut Vec<BatchOp>)
    ensures
        ({
            let f = spec_flatten(Seq::empty(), *body);
            &&& final(ops)@.len() == old(ops)@.len() + f.len()
            &&& forall|j: int|
                0 <= j < old(ops)@.len() ==> final(ops)@[j] == #[trigger] old(ops)@[j]
            &&& forall|j2: int|
                old(ops)@.len() <= j2 < final(ops)@.len() ==> (#[trigger] final(ops)@[j2]) is Remove
            &&& forall|j2: int|
                old(ops)@.len() <= j2 < final(ops)@.len() ==> op_key(#[trigger] final(ops)@[j2])
                    == spec_index_key(
                    str_bytes(docid@),
                    f[j2 - old(ops)@.len()].0,
                    f[j2 - old(ops)@.len()].1,
                )
        }),
{
    let pairs = get_path_values(body);
    let ghost f = spec_flatten(Seq::<TaggableValue>::empty(), *body);
    let ghost base = ops@.len();
    let n = pairs.len();
    let mut i: usize = 0;
    while i < n
        invariant
            i <= n,
            n == pairs@.len(),
            pv_view(pairs@) == f,
            ops@.len() == base + i,
            base == old(ops)@.len(),
            forall|j: int| 0 <= j < base ==> ops@[j] == #[trigger] old(ops)@[j],
            forall|j2: int| base <= j2 < ops@.len() ==> (#[trigger] ops@[j2]) is Remove,
            forall|j: int|
                0 <= j < i ==> op_key(#[trigger] ops@[base + j]) == spec_index_key(
                    str_bytes(docid@),
                    (#[trigger] f[j]).0,
                    f[j].1,
                ),
        decreases n - i,
    {
        proof {
            assert(pv_view(pairs@)[i as int] == (pairs@[i as int].0@, pairs@[i as int].1));
        }
        let k = crate::keys::encode_index_key_unchecked(docid, &pairs[i].0, &pairs[i].1);
        let ghost ops_pre = ops@;
        ops.push(BatchOp::Remove(k));
        proof {
            assert((#[trigger] f[i as int]).0 == pairs@[i as int].0@);
            assert(f[i as int].1 == pairs@[i as int].1);
            assert(ops@[base + i as int] == BatchOp::Remove(k));
            assert forall|j: int| 0 <= j < i + 1 implies op_key(#[trigger] ops@[base + j])
                == spec_index_key(str_bytes(docid@), (#[trigger] f[j]).0, f[j].1) by {
                if j < i {
                    assert(ops@[base + j] == ops_pre[base + j]);
                    assert(op_key(ops_pre[base + j]) == spec_index_key(
                        str_bytes(docid@),
                        f[j].0,
                        f[j].1,
                    ));
                }
            }
        }
        i = i + 1;
    }
    proof {
        assert(f.len() == pairs@.len());
        assert forall|j2: int| base <= j2 < ops@.len() implies op_key(#[trigger] ops@[j2])
            == spec_index_key(str_bytes(docid@), f[j2 - base].0, f[j2 - base].1) by {
            assert(op_key(ops@[base + (j2 - base)]) == spec_index_key(
                str_bytes(docid@),
                f[j2 - base].0,
                f[j2 - base].1,
            ));
        }
    }
}

/// Builds one empty-valued insertion per index entry derived from
/// `body`, appended onto `ops`; `body` must be well formed.
fn push_insertions(docid: &str, body: &JsonValue, ops: &mut Vec<BatchOp>)
    requires
        json_wf(*body),
    ensures
        ({
            let f = spec_flatten(Seq::empty(), *body);
            &&& final(ops)@.len() == old(ops)@.len() + f.len()
            &&& forall|j: int|
                0 <= j < old(ops)@.len() ==> final(ops)@[j] == #[trigger] old(ops)@[j]
            &&& forall|j2: int|
                old(ops)@.len() <= j2 < final(ops)@.len() ==> ((#[trigger] final(ops)@[j2])
                    matches BatchOp::Insert(kk, vv) && vv@ == Seq::<u8>::empty())
            &&& forall|j2: int|
                old(ops)@.len() <= j2 < final(ops)@.len() ==> op_key(#[trigger] final(ops)@[j2])
                    == spec_index_key(
                    str_bytes(docid@),
                    f[j2 - old(ops)@.len()].0,
                    f[j2 - old(ops)@.len()].1,
                )
        }),
{
    let pairs = get_path_values(body);
    let ghost f = spec_flatten(Seq::<TaggableValue>::empty(), *body);
    proof {
        crate::flatten::lemma_flatten_wf(Seq::empty(), *body);
    }
    let ghost base = ops@.len();
    let n = pairs.len();
    let mut i: usize = 0;
    while i < n
        invariant
            i <= n,
            n == pairs@.len(),
            pv_view(pairs@) == f,
            forall|j: int|
                0 <= j < f.len() ==> crate::keys::path_wf((#[trigger] f[j]).0)
                    && crate::values::value_wf(f[j].1),
            ops@.len() == base + i,
            base == old(ops)@.len(),
            forall|j: int| 0 <= j < base ==> ops@[j] == #[trigger] old(ops)@[j],
            forall|j2: int|
                base <= j2 < ops@.len() ==> ((#[trigger] ops@[j2]) matches BatchOp::Insert(kk, vv)
                    && vv@ == Seq::<u8>::empty()),
            forall|j: int|
                0 <= j < i ==> op_key(#[trigger] ops@[base + j]) == spec_index_key(
                    str_bytes(docid@),
                    (#[trigger] f[j]).0,
                    f[j].1,
                ),
        decreases n - i,
    {
        proof {
            assert(pv_view(pairs@)[i as int] == (pairs@[i as int].0@, pairs@[i as int].1));
        }
        let k = match crate::keys::encode_index_key(docid, &pairs[i].0, &pairs[i].1) {
            Ok(k) => k,
            Err(_) => {
                proof {
                    assert(false);
                }
                return ;
            },
        };
        let empty_val: Vec<u8> = Vec::new();
        let ghost ev = empty_val@;
        let ghost ops_pre = ops@;
        ops.push(BatchOp::Insert(k, empty_val));
        proof {
            assert((#[trigger] f[i as int]).0 == pairs@[i as int].0@);
            assert(f[i as int].1 == pairs@[i as int].1);
            assert(ev == Seq::<u8>::empty());
            assert(ops@[base + i as int] matches BatchOp::Insert(kk, vv) && kk@ == k@ && vv@
                == Seq::<u8>::empty());
            assert forall|j: int| 0 <= j < i + 1 implies op_key(#[trigger] ops@[base + j])
                == spec_index_key(str_bytes(docid@), (#[trigger] f[j]).0, f[j].1) by {
                if j < i {
                    assert(ops@[base + j] == ops_pre[base + j]);
                    assert(op_key(ops_pre[base + j]) == spec_index_key(
                        str_bytes(docid@),
                        f[j].0,
                        f[j].1,
                    ));
                }
            }
            assert forall|j2: int| base <= j2 < ops@.len() implies ((#[trigger] ops@[j2])
                matches BatchOp::Insert(kk, vv) && vv@ == Seq::<u8>::empty()) by {
                if j2 < base + i {
                    assert(ops@[j2] == ops_pre[j2]);
                }
            }
        }
        i = i + 1;
    }
    proof {
        assert(f.len() == pairs@.len());
        assert forall|j2: int| base <= j2 < ops@.len() implies op_key(#[trigger] ops@[j2])
            == spec_index_key(str_bytes(docid@), f[j2 - base].0, f[j2 - base].1) by {
            assert(op_key(ops@[base + (j2 - base)]) == spec_index_key(
                str_bytes(docid@),
                f[j2 - base].0,
                f[j2 - base].1,
            ));
        }
    }
}


/// Stores `v` under `docid`, replacing any previous document: it reads
/// the prior body, removes the index entries derived from it, and
/// writes the new body and its index entries in one batch. Fails with
/// `BadValue` exactly when the doc id or the body is not accepted,
/// with `Decode` exactly when a prior stored body cannot be read back,
/// and otherwise only with `Storage` when the key-value store fails.
/// Before the batch is handed to the store nothing is written, so every
/// failure but `Storage` leaves the store unchanged; a `Storage`
/// failure is possibly fatal and may leave part of the batch applied.
pub fn set_document(db: &mut sled::Db, docid: &str, v: &JsonValue) -> (r: Result<(), DocDbError>)
    ensures
        r is Err && !(r matches Err(DocDbError::Storage(_))) ==> kv_contents(*final(db))
            == kv_contents(*old(db)),
        r is Err ==> r == Err::<(), DocDbError>(DocDbError::BadValue) || r == Err::<
            (),
            DocDbError,
        >(DocDbError::Decode) || r matches Err(DocDbError::Storage(_)),
        !(docid_wf(str_bytes(docid@)) && json_wf(*v)) <==> r == Err::<(), DocDbError>(
            DocDbError::BadValue,
        ),
        r == Err::<(), DocDbError>(DocDbError::Decode) ==> has_doc(
            kv_contents(*old(db)),
            str_bytes(docid@),
        ) && !doc_decodes(kv_contents(*old(db)), str_bytes(docid@)),
        r is Ok ==> store_set_post(
            kv_contents(*old(db)),
            kv_contents(*final(db)),
            str_bytes(docid@),
            *v,
        ),
{
    let ghost m = kv_contents(*db);
    let ghost d = str_bytes(docid@);
    if !crate::values::str_has_no_separators(docid) {
        return Err(DocDbError::BadValue);
    }
    if !v.is_wf() {
        return Err(DocDbError::BadValue);
    }
    let dockey = encode_document_key(docid);
    let readvalue = match crate::kv::kv_get(db, &dockey) {
        Ok(o) => o,
        Err(e) => {
            return Err(DocDbError::Storage(e));
        },
    };
    let mut ops: Vec<BatchOp> = Vec::new();
    let ghost mut old_body: Option<JsonValue> = None;
    match readvalue {
        None => {
            proof {
                assert(!has_doc(m, d));
            }
        },
        Some(packed) => {
            let old_v = match decode_body(packed.as_slice()) {
                Some(w) => w,
                None => {
                    proof {
                        assert(has_doc(m, d) && !doc_decodes(m, d));
                    }
                    return Err(DocDbError::Decode);
                },
            };
            push_removals(docid, &old_v, &mut ops);
            proof {
                old_body = Some(old_v);
                assert(has_doc(m, d) && doc_decodes(m, d));
                assert(doc_view(m, d) == json_view(old_v));
            }
        },
    }
    let ghost r_end = ops@.len() as int;
    let ghost s1 = ops@;
    let dockey_rm = encode_document_key(docid);
    ops.push(BatchOp::Remove(dockey_rm));
    let ghost s2 = ops@;
    let body_bytes = encode_body(v);
    let ghost enc = body_bytes@;
    let dockey_ins = encode_document_key(docid);
    ops.push(BatchOp::Insert(dockey_ins, body_bytes));
    let ghost s3 = ops@;
    let ghost mid = ops@.len() as int;
    push_insertions(docid, v, &mut ops);
    let ghost total = ops@.len() as int;
    proof {
        assert forall|j: int| 0 <= j < r_end implies ops@[j] == s1[j] by {
            assert(ops@[j] == s3[j]);
            assert(s3[j] == s2[j]);
            assert(s2[j] == s1[j]);
        }
        assert forall|j: int| 0 <= j < r_end implies (#[trigger] ops@[j]) is Remove by {
            assert(ops@[j] == s1[j]);
        }
        if old_body is Some {
            let ghost w = old_body->Some_0;
            assert forall|j: int| 0 <= j < r_end implies op_key(#[trigger] ops@[j])
                == spec_index_key(
                d,
                spec_flatten(Seq::<TaggableValue>::empty(), w)[j].0,
                spec_flatten(Seq::<TaggableValue>::empty(), w)[j].1,
            ) by {
                assert(ops@[j] == s1[j]);
                assert(op_key(s1[j]) == spec_index_key(
                    d,
                    spec_flatten(Seq::empty(), w)[j].0,
                    spec_flatten(Seq::empty(), w)[j].1,
                ));
            }
        }
        assert(ops@[r_end] == s3[r_end]);
        assert(s3[r_end] == s2[r_end]);
        assert(s2[r_end] == BatchOp::Remove(dockey_rm));
        assert(ops@[r_end + 1] == s3[r_end + 1]);
        assert(s3[r_end + 1] == BatchOp::Insert(dockey_ins, body_bytes));
        assert forall|j2: int| mid <= j2 < ops@.len() implies op_key(#[trigger] ops@[j2])
            == spec_index_key(
            d,
            spec_flatten(Seq::<TaggableValue>::empty(), *v)[j2 - mid].0,
            spec_flatten(Seq::<TaggableValue>::empty(), *v)[j2 - mid].1,
        ) by {
        }
    }
    match crate::kv::kv_apply_batch(db, &ops) {
        Err(e) => Err(DocDbError::Storage(e)),
        Ok(()) => {
            proof {
                lemma_set_batch_effect(m, ops@, d, *v, old_body, r_end, enc);
                assert(kv_contents(*db) == apply_ops(m, ops@));
            }
            Ok(())
        },
    }
}

/// The combined effect of the batch that `set_document` builds:
/// removals of the old index entries and the body key, the body write,
/// and the new index entries, applied in order, land in `store_set_post`.
proof fn lemma_set_batch_effect(
    m: Map<Seq<u8>, Seq<u8>>,
    opsq: Seq<BatchOp>,
    d: Seq<u8>,
    v: JsonValue,
    old_body: Option<JsonValue>,
    r_end: int,
    enc: Seq<u8>,
)
    requires
        ({
            let f_old_len: int = match old_body {
                Some(w) => spec_flatten(Seq::empty(), w).len() as int,
                None => 0,
            };
            &&& r_end == f_old_len
            &&& opsq.len() == r_end + 2 + spec_flatten(Seq::empty(), v).len()
            &&& forall|j: int| 0 <= j < r_end ==> (#[trigger] opsq[j]) is Remove
            &&& (match old_body {
                Some(w) => forall|j: int|
                    0 <= j < r_end ==> op_key(#[trigger] opsq[j]) == spec_index_key(
                        d,
                        spec_flatten(Seq::empty(), w)[j].0,
                        spec_flatten(Seq::empty(), w)[j].1,
                    ),
                None => true,
            })
            &&& opsq[r_end] is Remove && op_key(opsq[r_end]) == spec_doc_key(d)
            &&& (opsq[r_end + 1] matches BatchOp::Insert(kk, vv) && kk@ == spec_doc_key(d) && vv@
                == enc)
            &&& enc == spec_encode_model(json_view(v))
            &&& forall|j2: int|
                r_end + 2 <= j2 < opsq.len() ==> ((#[trigger] opsq[j2]) matches BatchOp::Insert(
                    kk,
                    vv,
                ) && vv@ == Seq::<u8>::empty())
            &&& forall|j2: int|
                r_end + 2 <= j2 < opsq.len() ==> op_key(#[trigger] opsq[j2]) == spec_index_key(
                    d,
                    spec_flatten(Seq::empty(), v)[j2 - (r_end + 2)].0,
                    spec_flatten(Seq::empty(), v)[j2 - (r_end + 2)].1,
                )
            &&& (match old_body {
                Some(w) => has_doc(m, d) && doc_decodes(m, d) && doc_view(m, d) == json_view(w),
                None => !has_doc(m, d),
            })
        }),
    ensures
        store_set_post(m, apply_ops(m, opsq), d, v),
{
    let f_new = spec_flatten(Seq::<TaggableValue>::empty(), v);
    let mid = r_end + 2;
    let total = opsq.len() as int;
    let rem = opsq.subrange(0, r_end + 1);
    let midseq = opsq.subrange(r_end + 1, mid);
    let ins = opsq.subrange(mid, total);
    assert(opsq =~= (rem + midseq) + ins);
    lemma_apply_ops_append(m, rem + midseq, ins);
    lemma_apply_ops_append(m, rem, midseq);
    let m_rem = apply_ops(m, rem);
    let m_mid = apply_ops(m_rem, midseq);
    let m2 = apply_ops(m, opsq);
    assert(m2 == apply_ops(m_mid, ins));
    assert(m_mid == m_rem.insert(spec_doc_key(d), enc)) by {
        assert(midseq.len() == 1);
        assert(midseq[0] == opsq[r_end + 1]);
        assert(midseq[0] is Insert);
        assert(midseq[0]->Insert_0@ == spec_doc_key(d));
        assert(midseq[0]->Insert_1@ == enc);
        assert(midseq.drop_first() =~= Seq::<BatchOp>::empty());
        assert(apply_ops(m_rem.insert(spec_doc_key(d), enc), midseq.drop_first()) == m_rem.insert(
            spec_doc_key(d),
            enc,
        ));
    }
    // What the removal segment touches: the body key, and the index
    // entries derived from the previously stored body.
    assert forall|k: Seq<u8>| #![auto] ops_touch(rem, k) <==> (k == spec_doc_key(d) || (
    match old_body {
        Some(w) => is_derived_key(k, d, w),
        None => false,
    }) ) by {
        if ops_touch(rem, k) {
            let i = choose|i: int| 0 <= i < rem.len() && op_key(rem[i]) == k;
            assert(rem[i] == opsq[i]);
            if i < r_end {
                let w = old_body->Some_0;
                let f_old = spec_flatten(Seq::<TaggableValue>::empty(), w);
                assert(op_key(opsq[i]) == spec_index_key(d, f_old[i].0, f_old[i].1));
                assert(r_end == f_old.len());
                assert(is_derived_key(k, d, w));
            } else {
                assert(k == spec_doc_key(d));
            }
        }
        if k == spec_doc_key(d) {
            assert(op_key(rem[r_end]) == k);
            assert(ops_touch(rem, k));
        }
        match old_body {
            Some(w) => {
                if is_derived_key(k, d, w) {
                    let f_old = spec_flatten(Seq::<TaggableValue>::empty(), w);
                    let j = choose|j: int|
                        0 <= j < f_old.len() && k == spec_index_key(d, f_old[j].0, f_old[j].1);
                    assert(rem[j] == opsq[j]);
                    assert(op_key(opsq[j]) == spec_index_key(d, f_old[j].0, f_old[j].1));
                    assert(op_key(rem[j]) == k);
                    assert(ops_touch(rem, k));
                }
            },
            None => {},
        }
    }
    // What the insertion segment touches: the index entries derived
    // from the new body.
    assert forall|k: Seq<u8>| #![auto] ops_touch(ins, k) <==> is_derived_key(k, d, v) by {
        if ops_touch(ins, k) {
            let i = choose|i: int| 0 <= i < ins.len() && op_key(ins[i]) == k;
            assert(ins[i] == opsq[mid + i]);
            assert(op_key(opsq[mid + i]) == spec_index_key(
                d,
                f_new[(mid + i) - mid].0,
                f_new[(mid + i) - mid].1,
            ));
            assert(is_derived_key(k, d, v));
        }
        if is_derived_key(k, d, v) {
            let j = choose|j: int| 0 <= j < f_new.len() && k == spec_index_key(d, f_new[j].0, f_new[j].1);
            assert(ins[j] == opsq[mid + j]);
            assert(op_key(opsq[mid + j]) == spec_index_key(
                d,
                f_new[(mid + j) - mid].0,
                f_new[(mid + j) - mid].1,
            ));
            assert(op_key(ins[j]) == k);
            assert(ops_touch(ins, k));
        }
    }
    // Old derived entries are exactly those derived from the witness
    // body.
    assert forall|k: Seq<u8>| #![auto] old_derived(m, d, k) <==> (match old_body {
        Some(w) => is_derived_key(k, d, w),
        None => false,
    }) by {
        match old_body {
            Some(w) => {
                assert(json_view(w) == doc_view(m, d));
                let sw = stored_witness(m, d);
                assert(json_view(sw) == doc_view(m, d));
                lemma_derived_key_view(d, sw, w, k);
            },
            None => {},
        }
    }
    // A derived index key is never the body key.
    assert forall|k: Seq<u8>, w: JsonValue| #![auto] is_derived_key(k, d, w) implies k
        != spec_doc_key(d) by {
        let f = spec_flatten(Seq::<TaggableValue>::empty(), w);
        let j = choose|j: int| 0 <= j < f.len() && k == spec_index_key(d, f[j].0, f[j].1);
        lemma_index_key_not_doc_key(d, d, f[j].0, f[j].1);
    }
    let dk = spec_doc_key(d);
    assert forall|i: int| 0 <= i < rem.len() implies (#[trigger] rem[i]) is Remove by {
        assert(rem[i] == opsq[i]);
    }
    assert forall|i: int| 0 <= i < ins.len() implies ((#[trigger] ins[i])
        matches BatchOp::Insert(kk, vv) && vv@ == Seq::<u8>::empty()) by {
        assert(ins[i] == opsq[mid + i]);
    }
    // Clause 1: the body entry holds the encoded body.
    assert(m2.contains_key(dk) && m2[dk] == enc) by {
        lemma_apply_inserts_empty(m_mid, ins, dk);
        assert(!ops_touch(ins, dk));
        assert(m_mid.contains_key(dk) && m_mid[dk] == enc);
    }
    // Clause 2: every new index entry is present and empty.
    assert forall|k: Seq<u8>| #![trigger is_derived_key(k, d, v)] is_derived_key(k, d, v) implies
        m2.contains_key(k) && m2[k] == Seq::<u8>::empty() by {
        lemma_apply_inserts_empty(m_mid, ins, k);
        assert(ops_touch(ins, k));
    }
    // Clause 3: nothing appears out of nowhere.
    assert forall|k: Seq<u8>| #![trigger m2.contains_key(k)] m2.contains_key(k) implies k == dk
        || is_derived_key(k, d, v) || m.contains_key(k) by {
        lemma_apply_inserts_empty(m_mid, ins, k);
        if !ops_touch(ins, k) {
            assert(m_mid.contains_key(k));
            if k != dk {
                assert(m_rem.contains_key(k));
                lemma_apply_removes(m, rem, k);
            }
        }
    }
    // Clause 4: untouched entries are kept with their values.
    assert forall|k: Seq<u8>|
        #![trigger m.contains_key(k)]
        m.contains_key(k) && k != dk && !is_derived_key(k, d, v) && !old_derived(m, d, k) implies (
    m2.contains_key(k) && m2[k] == m[k]) by {
        lemma_apply_removes(m, rem, k);
        assert(!ops_touch(rem, k));
        assert(m_rem.contains_key(k) && m_rem[k] == m[k]);
        assert(m_mid.contains_key(k) && m_mid[k] == m[k]);
        lemma_apply_inserts_empty(m_mid, ins, k);
        assert(!ops_touch(ins, k));
    }
    // Clause 5: stale index entries are gone.
    assert forall|k: Seq<u8>|
        #![trigger old_derived(m, d, k)]
        old_derived(m, d, k) && !is_derived_key(k, d, v) implies !m2.contains_key(k) by {
        let w = old_body->Some_0;
        assert(is_derived_key(k, d, w));
        assert(k != dk);
        assert(ops_touch(rem, k));
        lemma_apply_removes(m, rem, k);
        assert(!m_rem.contains_key(k));
        assert(!m_mid.contains_key(k));
        lemma_apply_inserts_empty(m_mid, ins, k);
        assert(!ops_touch(ins, k));
        assert(!m2.contains_key(k));
    }
}

/// Removes the document stored under `docid` together with every index
/// entry derived from its body, in one batch; an absent document is a
/// success. Fails with `Decode` exactly when the stored body cannot be
/// read back, and otherwise only with `Storage` when the key-value
/// store fails. Before the batch is handed to the store nothing is
/// written, so a `Decode` failure leaves the store unchanged; a
/// `Storage` failure is possibly fatal and may leave part of the batch
/// applied.
pub fn delete_document(db: &mut sled::Db, docid: &str) -> (r: Result<(), DocDbError>)
    ensures
        r is Err && !(r matches Err(DocDbError::Storage(_))) ==> kv_contents(*final(db))
            == kv_contents(*old(db)),
        r is Err ==> r == Err::<(), DocDbError>(DocDbError::Decode) || r matches Err(
            DocDbError::Storage(_),
        ),
        r == Err::<(), DocDbError>(DocDbError::Decode) ==> has_doc(
            kv_contents(*old(db)),
            str_bytes(docid@),
        ) && !doc_decodes(kv_contents(*old(db)), str_bytes(docid@)),
        r is Ok ==> (if has_doc(kv_contents(*old(db)), str_bytes(docid@)) {
            doc_decodes(kv_contents(*old(db)), str_bytes(docid@)) && store_delete_post(
                kv_contents(*old(db)),
                kv_contents(*final(db)),
                str_bytes(docid@),
            )
        } else {
            kv_contents(*final(db)) == kv_contents(*old(db))
        }),
{
    let ghost m = kv_contents(*db);
    let ghost d = str_bytes(docid@);
    let dockey = encode_document_key(docid);
    let readvalue = match crate::kv::kv_get(db, &dockey) {
        Ok(o) => o,
        Err(e) => {
            return Err(DocDbError::Storage(e));
        },
    };
    let packed = match readvalue {
        Some(doc) => doc,
        None => {
            return Ok(());
        },
    };
    let old_v = match decode_body(packed.as_slice()) {
        Some(w) => w,
        None => {
            proof {
                assert(has_doc(m, d) && !doc_decodes(m, d));
            }
            return Err(DocDbError::Decode);
        },
    };
    let mut ops: Vec<BatchOp> = Vec::new();
    push_removals(docid, &old_v, &mut ops);
    let ghost r_end = ops@.len() as int;
    let ghost ops_rm = ops@;
    let dockey_rm = encode_document_key(docid);
    ops.push(BatchOp::Remove(dockey_rm));
    proof {
        assert(ops@ == ops_rm.push(BatchOp::Remove(dockey_rm)));
        assert forall|j: int| 0 <= j < r_end implies ops@[j] == ops_rm[j] by {}
        assert(ops@[r_end] == BatchOp::Remove(dockey_rm));
        assert forall|j: int| 0 <= j < r_end implies op_key(#[trigger] ops@[j])
            == spec_index_key(
            d,
            spec_flatten(Seq::<TaggableValue>::empty(), old_v)[j].0,
            spec_flatten(Seq::<TaggableValue>::empty(), old_v)[j].1,
        ) by {
            assert(ops@[j] == ops_rm[j]);
            assert(op_key(ops_rm[j]) == spec_index_key(
                d,
                spec_flatten(Seq::empty(), old_v)[j].0,
                spec_flatten(Seq::empty(), old_v)[j].1,
            ));
        }
    }
    match crate::kv::kv_apply_batch(db, &ops) {
        Err(e) => Err(DocDbError::Storage(e)),
        Ok(()) => {
            proof {
                let opsq = ops@;
                let m2 = apply_ops(m, opsq);
                let f_old = spec_flatten(Seq::<TaggableValue>::empty(), old_v);
                let dk = spec_doc_key(d);
                assert(kv_contents(*db) == m2);
                assert(doc_view(m, d) == json_view(old_v));
                assert forall|i: int| 0 <= i < opsq.len() implies (#[trigger] opsq[i]) is Remove by {
                }
                assert forall|k: Seq<u8>| #![auto] ops_touch(opsq, k) <==> (k == dk
                    || is_derived_key(k, d, old_v)) by {
                    if ops_touch(opsq, k) {
                        let i = choose|i: int| 0 <= i < opsq.len() && op_key(opsq[i]) == k;
                        if i < r_end {
                            assert(op_key(opsq[i]) == spec_index_key(d, f_old[i].0, f_old[i].1));
                            assert(r_end == f_old.len());
                            assert(is_derived_key(k, d, old_v));
                        } else {
                            assert(k == dk);
                        }
                    }
                    if k == dk {
                        assert(op_key(opsq[r_end]) == k);
                        assert(ops_touch(opsq, k));
                    }
                    if is_derived_key(k, d, old_v) {
                        let j = choose|j: int|
                            0 <= j < f_old.len() && k == spec_index_key(d, f_old[j].0, f_old[j].1);
                        assert(op_key(opsq[j]) == k);
                        assert(ops_touch(opsq, k));
                    }
                }
                assert forall|k: Seq<u8>| #![auto] old_derived(m, d, k) <==> is_derived_key(
                    k,
                    d,
                    old_v,
                ) by {
                    let sw = stored_witness(m, d);
                    assert(json_view(old_v) == doc_view(m, d));
                    assert(json_view(sw) == doc_view(m, d));
                    lemma_derived_key_view(d, sw, old_v, k);
                }
                assert(!m2.contains_key(dk)) by {
                    lemma_apply_removes(m, opsq, dk);
                    assert(ops_touch(opsq, dk));
                }
                assert forall|k: Seq<u8>| #![trigger old_derived(m, d, k)] old_derived(
                    m,
                    d,
                    k,
                ) implies !m2.contains_key(k) by {
                    lemma_apply_removes(m, opsq, k);
                    assert(ops_touch(opsq, k));
                }
                assert forall|k: Seq<u8>| #![trigger m2.contains_key(k)] m2.contains_key(
                    k,
                ) implies m.contains_key(k) && m2[k] == m[k] by {
                    lemma_apply_removes(m, opsq, k);
                }
                assert forall|k: Seq<u8>|
                    #![trigger m.contains_key(k)]
                    m.contains_key(k) && k != dk && !old_derived(m, d, k) implies m2.contains_key(
                    k,
                ) by {
                    lemma_apply_removes(m, opsq, k);
                    assert(!ops_touch(opsq, k));
                }
            }
            Ok(())
        },
    }
}

/// Stores `v` under `docid`; the name `set_document` describes the
/// same operation, which overwrites any previous document.
pub fn insert_document(db: &mut sled::Db, docid: &str, v: &JsonValue) -> (r: Result<
    (),
    DocDbError,
>)
    ensures
        r is Err && !(r matches Err(DocDbError::Storage(_))) ==> kv_contents(*final(db))
            == kv_contents(*old(db)),
        r is Err ==> r == Err::<(), DocDbError>(DocDbError::BadValue) || r == Err::<
            (),
            DocDbError,
        >(DocDbError::Decode) || r matches Err(DocDbError::Storage(_)),
        !(docid_wf(str_bytes(docid@)) && json_wf(*v)) <==> r == Err::<(), DocDbError>(
            DocDbError::BadValue,
        ),
        r == Err::<(), DocDbError>(DocDbError::Decode) ==> has_doc(
            kv_contents(*old(db)),
            str_bytes(docid@),
        ) && !doc_decodes(kv_contents(*old(db)), str_bytes(docid@)),
        r is Ok ==> store_set_post(
            kv_contents(*old(db)),
            kv_contents(*final(db)),
            str_bytes(docid@),
            *v,
        ),
{
    set_document(db, docid, v)
}

} // verus!
