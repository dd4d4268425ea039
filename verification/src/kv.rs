use vstd::prelude::*;

use crate::bytes::{lex_le_spec, lex_lt_spec};

verus! {

/// The sled database handle, declared so that it can stand in
/// signatures and fields; verified code reaches it only through the
/// wrappers below.
#[verifier::external_type_specification]
#[verifier::external_body]
pub struct ExDb(sled::Db);

/// What the ordered key-value store holds: a map from byte keys to byte
/// values. Every wrapper below states its effect over this map.
pub uninterp spec fn kv_contents(db: sled::Db) -> Map<Seq<u8>, Seq<u8>>;

/// One write of a batch.
pub enum BatchOp {
    Insert(Vec<u8>, Vec<u8>),
    Remove(Vec<u8>),
}

/// The map after the writes of a batch are applied in order: a later
/// write to a key overrides an earlier one.
pub open spec fn apply_ops(m: Map<Seq<u8>, Seq<u8>>, ops: Seq<BatchOp>) -> Map<Seq<u8>, Seq<u8>>
    decreases ops.len(),
{
    if ops.len() == 0 {
        m
    } else {
        let m2 = match ops[0] {
            BatchOp::Insert(k, v) => m.insert(k@, v@),
            BatchOp::Remove(k) => m.remove(k@),
        };
        apply_ops(m2, ops.drop_first())
    }
}

/// Relies on sled::open: opens the ordered key-value store at the given
/// path, creating it if needed. What it holds depends on the disk, so
/// nothing is promised of the contents.
#[verifier::external_body]
pub fn new_database(path: &str) -> Result<sled::Db, sled::Error> {
    sled::open(path)
}

/// Relies on sled::Tree::get: returns the value stored at the key, or
/// nothing when the key is absent.
#[verifier::external_body]
pub(crate) fn kv_get(db: &sled::Db, k: &Vec<u8>) -> (r: Result<Option<Vec<u8>>, sled::Error>)
    ensures
        r matches Ok(o) ==> (match o {
            Some(v) => kv_contents(*db).contains_key(k@) && kv_contents(*db)[k@] == v@,
            None => !kv_contents(*db).contains_key(k@),
        }),
{
    match db.get(k) {
        Ok(Some(iv)) => Ok(Some(iv.to_vec())),
        Ok(None) => Ok(None),
        Err(e) => Err(e),
    }
}

/// Relies on sled::Tree::apply_batch: on success all writes of the
/// batch are applied; sled's batch keeps one write per key, the last
/// one queued, so the effect is the in-order application of the list.
/// On failure nothing is promised of the contents: the writes go in one
/// at a time, so a storage fault partway through can leave some of them
/// applied (the batch is atomic across a crash, not across an error
/// return). Callers treat a storage error as possibly fatal.
#[verifier::external_body]
pub(crate) fn kv_apply_batch(db: &mut sled::Db, ops: &Vec<BatchOp>) -> (r: Result<
    (),
    sled::Error,
>)
    ensures
        r is Ok ==> kv_contents(*final(db)) == apply_ops(kv_contents(*old(db)), ops@),
{
    let mut batch = sled::Batch::default();
    for op in ops {
        match op {
            BatchOp::Insert(k, v) => batch.insert(k.clone(), v.clone()),
            BatchOp::Remove(k) => batch.remove(k.clone()),
        }
    }
    db.apply_batch(batch)
}

/// Relies on sled::Tree::range: iterates the keys of the half-open
/// range `[lo, hi)` in ascending byte order. Returns the keys only.
#[verifier::external_body]
pub(crate) fn kv_range_keys(db: &sled::Db, lo: &Vec<u8>, hi: &Vec<u8>) -> (r: Result<
    Vec<Vec<u8>>,
    sled::Error,
>)
    ensures
        r matches Ok(keys) ==> {
            &&& forall|i: int|
                0 <= i < keys@.len() ==> {
                    &&& kv_contents(*db).contains_key((#[trigger] keys@[i])@)
                    &&& lex_le_spec(lo@, keys@[i]@)
                    &&& lex_lt_spec(keys@[i]@, hi@)
                }
            &&& forall|k: Seq<u8>|
                #![auto]
                kv_contents(*db).contains_key(k) && lex_le_spec(lo@, k) && lex_lt_spec(k, hi@)
                    ==> exists|i: int| 0 <= i < keys@.len() && keys@[i]@ == k
            &&& forall|i: int, j: int|
                0 <= i < j < keys@.len() ==> lex_lt_spec(
                    #[trigger] keys@[i]@,
                    #[trigger] keys@[j]@,
                )
        },
{
    let mut out: Vec<Vec<u8>> = Vec::new();
    for item in db.range(lo.as_slice()..hi.as_slice()) {
        let (k, _) = item?;
        out.push(k.to_vec());
    }
    Ok(out)
}

} // verus!
