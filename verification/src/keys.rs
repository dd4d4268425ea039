use vstd::prelude::*;
use vstd::slice::{slice_index_get, slice_subrange};
use vstd::string::StringSliceAdditionalSpecFns;
use vstd::utf8::valid_utf8;

use crate::errors::DocDbError;
use crate::values::{
    spec_encode_tagged, str_bytes, value_wf, TaggableValue, TAG_NUMBER, TAG_STRING,
};

verus! {

// Key namespace prefixes: document-body keys and index keys live under
// disjoint first bytes.
pub const KEY_DOCUMENT: u8 = 1;

pub const KEY_INDEX: u8 = 2;

// Reserved separator bytes. COMPONENT_SEP stands between the path, the
// value and the doc id of an index key; PATH_SEP stands between the
// components of a path. Both are smaller than every tag byte and every
// byte of a well-formed string payload.
pub const COMPONENT_SEP: u8 = 0x00;

pub const PATH_SEP: u8 = 0x01;

/// An error decoding a key.
#[derive(Debug, Clone, PartialEq)]
pub struct DecodeError;

/// Every component of the path is a value the engine accepts in keys.
pub open spec fn path_wf(p: Seq<TaggableValue>) -> bool {
    forall|i: int| 0 <= i < p.len() ==> value_wf(p[i])
}

/// Encoding of a path: the scalar encodings of its components joined by
/// `PATH_SEP`, with no trailing separator.
pub open spec fn spec_encode_path(p: Seq<TaggableValue>) -> Seq<u8>
    decreases p.len(),
{
    if p.len() == 0 {
        seq![]
    } else if p.len() == 1 {
        spec_encode_tagged(p[0])
    } else {
        spec_encode_path(p.drop_last()) + seq![PATH_SEP] + spec_encode_tagged(p.last())
    }
}

/// The document-body key for a doc id (given as its UTF-8 bytes).
pub open spec fn spec_doc_key(docid: Seq<u8>) -> Seq<u8> {
    seq![KEY_DOCUMENT, COMPONENT_SEP, TAG_STRING] + docid
}

/// The index key recording that the document `docid` holds the value
/// `v` at the path `p`.
pub open spec fn spec_index_key(docid: Seq<u8>, p: Seq<TaggableValue>, v: TaggableValue) -> Seq<
    u8,
> {
    seq![KEY_INDEX, COMPONENT_SEP] + spec_encode_path(p) + seq![COMPONENT_SEP]
        + spec_encode_tagged(v) + seq![COMPONENT_SEP, TAG_STRING] + docid
}

/// Inclusive lower bound of all index keys for the pair `(p, v)`.
pub open spec fn spec_pv_lower(p: Seq<TaggableValue>, v: TaggableValue) -> Seq<u8> {
    seq![KEY_INDEX, COMPONENT_SEP] + spec_encode_path(p) + seq![COMPONENT_SEP]
        + spec_encode_tagged(v) + seq![COMPONENT_SEP]
}

/// Exclusive upper bound of all index keys for the pair `(p, v)`: the
/// trailing separator is replaced by a byte greater than both
/// separators.
pub open spec fn spec_pv_upper(p: Seq<TaggableValue>, v: TaggableValue) -> Seq<u8> {
    seq![KEY_INDEX, COMPONENT_SEP] + spec_encode_path(p) + seq![COMPONENT_SEP]
        + spec_encode_tagged(v) + seq![2u8]
}

/// Inclusive lower bound of all index keys for the path `p`.
pub open spec fn spec_p_lower(p: Seq<TaggableValue>) -> Seq<u8> {
    seq![KEY_INDEX, COMPONENT_SEP] + spec_encode_path(p) + seq![COMPONENT_SEP]
}

/// Exclusive upper bound of all index keys for the path `p`.
pub open spec fn spec_p_upper(p: Seq<TaggableValue>) -> Seq<u8> {
    seq![KEY_INDEX, COMPONENT_SEP] + spec_encode_path(p) + seq![2u8]
}

/// Builds the document-body key for a doc id.
pub fn encode_document_key(docid: &str) -> (r: Vec<u8>)
    ensures
        r@ == spec_doc_key(str_bytes(docid@)),
{
    let mut k: Vec<u8> = Vec::new();
    k.push(KEY_DOCUMENT);
    k.push(COMPONENT_SEP);
    k.push(TAG_STRING);
    let bytes = docid.as_bytes();
    k.extend_from_slice(bytes);
    proof {
        assert(k@ =~= spec_doc_key(str_bytes(docid@)));
    }
    k
}

/// Appends the encoding of a path, or fails with `BadValue` exactly
/// when some component is not accepted in keys.
fn encode_path_onto(path: &Vec<TaggableValue>, out: &mut Vec<u8>) -> (r: Result<(), DocDbError>)
    ensures
        r is Ok <==> path_wf(path@),
        r is Ok ==> final(out)@ == old(out)@ + spec_encode_path(path@),
        r is Err ==> r == Err::<(), DocDbError>(DocDbError::BadValue),
{
    let n = path.len();
    let mut i: usize = 0;
    proof {
        assert(path@.take(0) =~= Seq::<TaggableValue>::empty());
    }
    while i < n
        invariant
            i <= n,
            n == path@.len(),
            forall|j: int| 0 <= j < i ==> value_wf(path@[j]),
            out@ == old(out)@ + spec_encode_path(path@.take(i as int)),
        decreases n - i,
    {
        if i > 0 {
            out.push(PATH_SEP);
        }
        let r = path[i].encode_onto(out);
        match r {
            Ok(()) => {},
            Err(e) => {
                return Err(DocDbError::BadValue);
            },
        }
        proof {
            let pre = path@.take(i as int);
            let post = path@.take(i + 1);
            assert(post.drop_last() =~= pre);
            assert(post.last() == path@[i as int]);
            if i == 0 {
                assert(out@ =~= old(out)@ + spec_encode_path(post));
            } else {
                assert(out@ =~= old(out)@ + spec_encode_path(post));
            }
        }
        i = i + 1;
    }
    proof {
        assert(path@.take(n as int) =~= path@);
    }
    Ok(())
}

/// Appends the encoding of a path without the acceptance tests: used
/// only to compute the keys of entries being removed, which writes
/// nothing new into the store.
fn encode_path_onto_unchecked(path: &Vec<TaggableValue>, out: &mut Vec<u8>)
    ensures
        final(out)@ == old(out)@ + spec_encode_path(path@),
{
    let n = path.len();
    let mut i: usize = 0;
    proof {
        assert(path@.take(0) =~= Seq::<TaggableValue>::empty());
    }
    while i < n
        invariant
            i <= n,
            n == path@.len(),
            out@ == old(out)@ + spec_encode_path(path@.take(i as int)),
        decreases n - i,
    {
        if i > 0 {
            out.push(PATH_SEP);
        }
        path[i].encode_onto_unchecked(out);
        proof {
            let pre = path@.take(i as int);
            let post = path@.take(i + 1);
            assert(post.drop_last() =~= pre);
            assert(post.last() == path@[i as int]);
            assert(out@ =~= old(out)@ + spec_encode_path(post));
        }
        i = i + 1;
    }
    proof {
        assert(path@.take(n as int) =~= path@);
    }
}

/// Builds the index key for `(docid, path, v)` without the acceptance
/// tests: used only to compute the keys of entries being removed.
pub(crate) fn encode_index_key_unchecked(
    docid: &str,
    path: &Vec<TaggableValue>,
    v: &TaggableValue,
) -> (k: Vec<u8>)
    ensures
        k@ == spec_index_key(str_bytes(docid@), path@, *v),
{
    let mut k: Vec<u8> = Vec::new();
    k.push(KEY_INDEX);
    k.push(COMPONENT_SEP);
    encode_path_onto_unchecked(path, &mut k);
    k.push(COMPONENT_SEP);
    v.encode_onto_unchecked(&mut k);
    k.push(COMPONENT_SEP);
    k.push(TAG_STRING);
    let bytes = docid.as_bytes();
    k.extend_from_slice(bytes);
    proof {
        assert(k@ =~= spec_index_key(str_bytes(docid@), path@, *v));
    }
    k
}

/// Builds the bare encoding of a path, or fails with `BadValue`
/// exactly when some component is not accepted in keys.
pub fn encode_path_bytes(path: &Vec<TaggableValue>) -> (r: Result<Vec<u8>, DocDbError>)
    ensures
        r is Ok <==> path_wf(path@),
        r matches Ok(b) ==> b@ == spec_encode_path(path@),
        r is Err ==> r == Err::<Vec<u8>, DocDbError>(DocDbError::BadValue),
{
    let mut b: Vec<u8> = Vec::new();
    encode_path_onto(path, &mut b)?;
    proof {
        assert(b@ =~= spec_encode_path(path@));
    }
    Ok(b)
}

/// Builds the index key for `(docid, path, v)`, or fails with
/// `BadValue` exactly when the path or the value is not accepted in
/// keys.
pub fn encode_index_key(docid: &str, path: &Vec<TaggableValue>, v: &TaggableValue) -> (r: Result<
    Vec<u8>,
    DocDbError,
>)
    ensures
        r is Ok <==> path_wf(path@) && value_wf(*v),
        r matches Ok(k) ==> k@ == spec_index_key(str_bytes(docid@), path@, *v),
        r is Err ==> r == Err::<Vec<u8>, DocDbError>(DocDbError::BadValue),
{
    let mut k: Vec<u8> = Vec::new();
    k.push(KEY_INDEX);
    k.push(COMPONENT_SEP);
    encode_path_onto(path, &mut k)?;
    k.push(COMPONENT_SEP);
    v.encode_onto(&mut k)?;
    k.push(COMPONENT_SEP);
    k.push(TAG_STRING);
    let bytes = docid.as_bytes();
    k.extend_from_slice(bytes);
    proof {
        assert(k@ =~= spec_index_key(str_bytes(docid@), path@, *v));
    }
    Ok(k)
}

/// Builds the inclusive lower bound of the index keys for the path,
/// narrowed to one value when `v` is given; fails with `BadValue`
/// exactly when the path or the value is not accepted in keys.
pub fn query_lower_bound(p: &Vec<TaggableValue>, v: Option<&TaggableValue>) -> (r: Result<
    Vec<u8>,
    DocDbError,
>)
    ensures
        r is Ok <==> path_wf(p@) && (v matches Some(vv) ==> value_wf(*vv)),
        r matches Ok(k) ==> k@ == (match v {
            Some(vv) => spec_pv_lower(p@, *vv),
            None => spec_p_lower(p@),
        }),
        r is Err ==> r == Err::<Vec<u8>, DocDbError>(DocDbError::BadValue),
{
    let mut k: Vec<u8> = Vec::new();
    k.push(KEY_INDEX);
    k.push(COMPONENT_SEP);
    encode_path_onto(p, &mut k)?;
    match v {
        Some(vv) => {
            k.push(COMPONENT_SEP);
            vv.encode_onto(&mut k)?;
            k.push(COMPONENT_SEP);
            proof {
                assert(k@ =~= spec_pv_lower(p@, *vv));
            }
        },
        None => {
            k.push(COMPONENT_SEP);
            proof {
                assert(k@ =~= spec_p_lower(p@));
            }
        },
    }
    Ok(k)
}

/// Builds the exclusive upper bound of the index keys for the path,
/// narrowed to one value when `v` is given; fails with `BadValue`
/// exactly when the path or the value is not accepted in keys.
pub fn query_upper_bound(p: &Vec<TaggableValue>, v: Option<&TaggableValue>) -> (r: Result<
    Vec<u8>,
    DocDbError,
>)
    ensures
        r is Ok <==> path_wf(p@) && (v matches Some(vv) ==> value_wf(*vv)),
        r matches Ok(k) ==> k@ == (match v {
            Some(vv) => spec_pv_upper(p@, *vv),
            None => spec_p_upper(p@),
        }),
        r is Err ==> r == Err::<Vec<u8>, DocDbError>(DocDbError::BadValue),
{
    let mut k: Vec<u8> = Vec::new();
    k.push(KEY_INDEX);
    k.push(COMPONENT_SEP);
    encode_path_onto(p, &mut k)?;
    match v {
        Some(vv) => {
            k.push(COMPONENT_SEP);
            vv.encode_onto(&mut k)?;
            k.push(2u8);
            proof {
                assert(k@ =~= spec_pv_upper(p@, *vv));
            }
        },
        None => {
            k.push(2u8);
            proof {
                assert(k@ =~= spec_p_upper(p@));
            }
        },
    }
    Ok(k)
}

/// Lower bound of all index keys with the given path.
pub fn encode_index_query_p_start_key(path: &Vec<TaggableValue>) -> (r: Result<Vec<u8>, DocDbError>)
    ensures
        r is Ok <==> path_wf(path@),
        r matches Ok(k) ==> k@ == spec_p_lower(path@),
        r is Err ==> r == Err::<Vec<u8>, DocDbError>(DocDbError::BadValue),
{
    query_lower_bound(path, None)
}

/// Lower bound of all index keys with the given path and value.
pub fn encode_index_query_pv_start_key(path: &Vec<TaggableValue>, v: &TaggableValue) -> (r: Result<
    Vec<u8>,
    DocDbError,
>)
    ensures
        r is Ok <==> path_wf(path@) && value_wf(*v),
        r matches Ok(k) ==> k@ == spec_pv_lower(path@, *v),
        r is Err ==> r == Err::<Vec<u8>, DocDbError>(DocDbError::BadValue),
{
    query_lower_bound(path, Some(v))
}

/// Upper bound of all index keys with the given path.
pub fn encode_index_query_p_end_key(path: &Vec<TaggableValue>) -> (r: Result<Vec<u8>, DocDbError>)
    ensures
        r is Ok <==> path_wf(path@),
        r matches Ok(k) ==> k@ == spec_p_upper(path@),
        r is Err ==> r == Err::<Vec<u8>, DocDbError>(DocDbError::BadValue),
{
    query_upper_bound(path, None)
}

/// Upper bound of all index keys with the given path and value.
pub fn encode_index_query_pv_end_key(path: &Vec<TaggableValue>, v: &TaggableValue) -> (r: Result<
    Vec<u8>,
    DocDbError,
>)
    ensures
        r is Ok <==> path_wf(path@) && value_wf(*v),
        r matches Ok(k) ==> k@ == spec_pv_upper(path@, *v),
        r is Err ==> r == Err::<Vec<u8>, DocDbError>(DocDbError::BadValue),
{
    query_upper_bound(path, Some(v))
}

/// The suffix of a key after its last `COMPONENT_SEP` byte; the whole
/// key when no such byte occurs.
pub open spec fn after_last_sep(k: Seq<u8>) -> Seq<u8>
    decreases k.len(),
{
    if k.len() == 0 {
        seq![]
    } else if k.last() == COMPONENT_SEP {
        seq![]
    } else {
        after_last_sep(k.drop_last()) + seq![k.last()]
    }
}

/// Condition under which a byte slice decodes as a tagged string.
pub open spec fn decodes_as_str(tv: Seq<u8>) -> bool {
    tv.len() >= 1 && tv[0] == TAG_STRING && valid_utf8(tv.drop_first())
}

/// Relies on str::from_utf8: it succeeds exactly on valid UTF-8, and
/// the returned text is the same bytes seen as a string slice.
#[verifier::external_body]
pub(crate) fn bytes_to_str(b: &[u8]) -> (r: Option<&str>)
    ensures
        r matches Some(s) ==> s.spec_bytes() == b@ && valid_utf8(b@),
        r is None ==> !valid_utf8(b@),
{
    core::str::from_utf8(b).ok()
}

/// Decodes a tagged string value: the string tag followed by UTF-8
/// bytes. Fails exactly when the tag or the UTF-8 decoding does not
/// match; other tags are not supported here.
pub fn decode_tagged_str(tv: &[u8]) -> (r: Result<&str, DecodeError>)
    ensures
        r matches Ok(s) ==> decodes_as_str(tv@) && str_bytes(s@) == tv@.drop_first(),
        r is Err <==> !decodes_as_str(tv@),
{
    if tv.len() < 1 {
        return Err(DecodeError);
    }
    if *slice_index_get(tv, 0) != TAG_STRING {
        return Err(DecodeError);
    }
    let tail = slice_subrange(tv, 1, tv.len());
    proof {
        assert(tail@ =~= tv@.drop_first());
    }
    match bytes_to_str(tail) {
        Some(s) => Ok(s),
        None => Err(DecodeError),
    }
}

/// Decodes the doc id out of an index key: the tagged string after the
/// key's last component separator. Fails exactly when that suffix is
/// not a tagged UTF-8 string.
pub fn decode_index_key_docid(k: &[u8]) -> (r: Result<&str, DecodeError>)
    ensures
        r matches Ok(s) ==> decodes_as_str(after_last_sep(k@)) && str_bytes(s@) == after_last_sep(
            k@,
        ).drop_first(),
        r is Err <==> !decodes_as_str(after_last_sep(k@)),
{
    let n = k.len();
    let start = find_docid_segment_start(k);
    proof {
        lemma_after_last_sep_skip(k@, start as int);
    }
    let seg = slice_subrange(k, start, n);
    decode_tagged_str(seg)
}

/// Finds the position right after the last `COMPONENT_SEP` byte, or
/// zero when there is none.
fn find_docid_segment_start(k: &[u8]) -> (start: usize)
    ensures
        start <= k@.len(),
        forall|j: int| start <= j < k@.len() ==> k@[j] != COMPONENT_SEP,
        start > 0 ==> k@[start - 1] == COMPONENT_SEP,
{
    let n = k.len();
    let mut start: usize = n;
    loop
        invariant
            start <= n,
            n == k@.len(),
            forall|j: int| start <= j < n ==> k@[j] != COMPONENT_SEP,
        decreases start,
    {
        if start == 0 {
            return 0;
        }
        if *slice_index_get(k, start - 1) == COMPONENT_SEP {
            return start;
        }
        start = start - 1;
    }
}

/// `after_last_sep` returns the suffix that starts right after the last
/// separator (here at position `start - 1`, or the whole sequence when
/// `start` is zero).
proof fn lemma_after_last_sep_skip(k: Seq<u8>, start: int)
    requires
        0 <= start <= k.len(),
        forall|j: int| start <= j < k.len() ==> k[j] != COMPONENT_SEP,
        start > 0 ==> k[start - 1] == COMPONENT_SEP,
    ensures
        after_last_sep(k) == k.skip(start),
    decreases k.len(),
{
    if k.len() == 0 {
        assert(after_last_sep(k) =~= k.skip(start));
    } else if start == k.len() {
        assert(k.last() == COMPONENT_SEP);
        assert(after_last_sep(k) =~= k.skip(start));
    } else {
        assert(k.last() != COMPONENT_SEP);
        lemma_after_last_sep_skip(k.drop_last(), start);
        assert(k.drop_last().skip(start) + seq![k.last()] =~= k.skip(start));
    }
}


/// The position of the first separator byte at or after `i`, or the
/// end of the slice when none follows.
pub open spec fn spec_scan_string(s: Seq<u8>, i: int) -> int
    decreases s.len() - i,
{
    if !(0 <= i < s.len()) {
        s.len() as int
    } else if s[i] == COMPONENT_SEP || s[i] == PATH_SEP {
        i
    } else {
        spec_scan_string(s, i + 1)
    }
}

/// How the byte length of the path prefix of an index key is read off:
/// from position `i`, fields are walked one at a time (a tagged string
/// runs to the next separator; a tagged number takes nine bytes), path
/// separators are stepped over, and the walk ends at the component
/// separator; anything else is malformed.
pub open spec fn spec_path_scan(s: Seq<u8>, i: int) -> Option<int>
    decreases s.len() - i,
{
    if !(0 <= i <= s.len()) {
        None
    } else if i == s.len() {
        Some(i)
    } else if s[i] == crate::values::TAG_STRING || s[i] == crate::values::TAG_NUMBER {
        let j = if s[i] == crate::values::TAG_STRING {
            spec_scan_string(s, i)
        } else {
            i + 9
        };
        if j <= i || j > s.len() {
            None
        } else if j == s.len() {
            None
        } else if s[j] == COMPONENT_SEP {
            Some(j)
        } else if s[j] == PATH_SEP {
            spec_path_scan(s, j + 1)
        } else {
            None
        }
    } else {
        None
    }
}

/// Finds the first separator byte at or after `i`.
fn scan_string_end(s: &[u8], i: usize) -> (j: usize)
    requires
        i <= s@.len(),
    ensures
        j as int == spec_scan_string(s@, i as int),
        i <= j <= s@.len(),
{
    let n = s.len();
    let mut j = i;
    while j < n
        invariant
            i <= j <= n,
            n == s@.len(),
            spec_scan_string(s@, i as int) == spec_scan_string(s@, j as int),
        decreases n - j,
    {
        let b = *slice_index_get(s, j);
        if b == COMPONENT_SEP || b == PATH_SEP {
            return j;
        }
        j = j + 1;
    }
    j
}

/// The number of bytes the path at the start of `s` takes up, walking
/// tagged fields up to the component separator; `None` when the bytes
/// do not parse as a path prefix.
pub fn path_length(s: &[u8]) -> (r: Option<usize>)
    ensures
        r matches Some(nn) ==> spec_path_scan(s@, 0) == Some(nn as int) && nn <= s@.len(),
        r is None ==> spec_path_scan(s@, 0) is None,
{
    let n = s.len();
    let mut idx: usize = 0;
    loop
        invariant
            idx <= n,
            n == s@.len(),
            spec_path_scan(s@, 0) == spec_path_scan(s@, idx as int),
        decreases n - idx,
    {
        if idx >= n {
            return Some(idx);
        }
        let t = *slice_index_get(s, idx);
        if t != crate::values::TAG_STRING && t != crate::values::TAG_NUMBER {
            return None;
        }
        let j: usize = if t == crate::values::TAG_STRING {
            scan_string_end(s, idx)
        } else {
            if n - idx <= 9 {
                return None;
            }
            idx + 9
        };
        if j <= idx {
            return None;
        }
        if j >= n {
            return None;
        }
        let tj = *slice_index_get(s, j);
        if tj == COMPONENT_SEP {
            return Some(j);
        }
        if tj != PATH_SEP {
            return None;
        }
        idx = j + 1;
    }
}

/// The path prefix of an index key: the slice holding the encoded path,
/// between the key's namespace prefix and its first component
/// separator. `None` when the key is not an index key or does not parse.
pub fn path_prefix(k: &Vec<u8>) -> (r: Option<&[u8]>)
    ensures
        r matches Some(pre) ==> k@.len() >= 2 && k@[0] == KEY_INDEX && spec_path_scan(
            k@.skip(2),
            0,
        ) == Some(pre@.len() as int) && pre@ == k@.skip(2).take(pre@.len() as int),
        r is None ==> !(k@.len() >= 2 && k@[0] == KEY_INDEX && spec_path_scan(k@.skip(2), 0)
            is Some),
{
    if k.len() < 2 {
        return None;
    }
    if *slice_index_get(k.as_slice(), 0) != KEY_INDEX {
        return None;
    }
    let rest = slice_subrange(k.as_slice(), 2, k.len());
    proof {
        assert(rest@ =~= k@.skip(2));
    }
    match path_length(rest) {
        Some(pl) => {
            let pre = slice_subrange(rest, 0, pl);
            proof {
                assert(pre@ =~= k@.skip(2).take(pl as int));
            }
            Some(pre)
        },
        None => None,
    }
}

} // verus!
