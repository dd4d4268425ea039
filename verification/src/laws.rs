use vstd::prelude::*;
use vstd::utf8::encode_utf8_valid_utf8;

use crate::bytes::{
    lemma_lex_first_diff, lemma_lex_prefix_le, lemma_lex_prepend, lex_le_spec, lex_lt_spec,
};
use crate::codec::{json_view, lemma_body_round_trip, model_bounded, spec_encode_model};
use crate::executor::scan_id_set;
use crate::flatten::spec_flatten;
use crate::json::{bytes_sep_free, JsonValue};
use crate::keys::{after_last_sep, decodes_as_str, spec_doc_key, spec_index_key, spec_pv_lower, spec_pv_upper, COMPONENT_SEP};
use crate::values::TAG_STRING;
use crate::store::{
    doc_decodes, doc_view, has_doc, is_derived_key, lemma_derived_key_view, old_derived,
    store_delete_post, store_set_post, stored_witness,
};
use crate::values::{str_bytes, TaggableValue};

verus! {

/// Writing a document and reading it back yields the same body: the
/// stored entry deserializes to the model of what was written. Bodies
/// are bounded by construction (their lengths fit the stored length
/// prefixes).
pub proof fn lemma_set_then_get(
    m: Map<Seq<u8>, Seq<u8>>,
    m2: Map<Seq<u8>, Seq<u8>>,
    d: Seq<u8>,
    b: JsonValue,
)
    requires
        store_set_post(m, m2, d, b),
        model_bounded(json_view(b)),
    ensures
        has_doc(m2, d),
        doc_decodes(m2, d),
        doc_view(m2, d) == json_view(b),
{
    lemma_body_round_trip(json_view(b));
}

/// Overwriting a document cleans its old index entries: after writing
/// `b1` and then `b2` under the same id, no index entry derived from
/// `b1` alone remains.
pub proof fn lemma_overwrite_cleans(
    m0: Map<Seq<u8>, Seq<u8>>,
    m1: Map<Seq<u8>, Seq<u8>>,
    m2: Map<Seq<u8>, Seq<u8>>,
    d: Seq<u8>,
    b1: JsonValue,
    b2: JsonValue,
)
    requires
        store_set_post(m0, m1, d, b1),
        store_set_post(m1, m2, d, b2),
        model_bounded(json_view(b1)),
    ensures
        forall|k: Seq<u8>|
            #![auto]
            is_derived_key(k, d, b1) && !is_derived_key(k, d, b2) ==> !m2.contains_key(k),
{
    lemma_body_round_trip(json_view(b1));
    assert(doc_decodes(m1, d));
    assert(doc_view(m1, d) == json_view(b1));
    assert forall|k: Seq<u8>|
        #![auto]
        is_derived_key(k, d, b1) && !is_derived_key(k, d, b2) implies !m2.contains_key(k) by {
        let sw = stored_witness(m1, d);
        assert(json_view(b1) == doc_view(m1, d));
        assert(json_view(sw) == doc_view(m1, d));
        lemma_derived_key_view(d, sw, b1, k);
        assert(old_derived(m1, d, k));
    }
}

/// Appending separator-free bytes extends the suffix after the last
/// separator.
pub proof fn lemma_after_last_sep_append(x: Seq<u8>, y: Seq<u8>)
    requires
        forall|i: int| 0 <= i < y.len() ==> y[i] != COMPONENT_SEP,
    ensures
        after_last_sep(x + y) == after_last_sep(x) + y,
    decreases y.len(),
{
    if y.len() == 0 {
        assert(x + y =~= x);
        assert(after_last_sep(x) + y =~= after_last_sep(x));
    } else {
        let y2 = y.drop_last();
        assert(forall|i: int| 0 <= i < y2.len() ==> y2[i] != COMPONENT_SEP);
        lemma_after_last_sep_append(x, y2);
        assert((x + y).last() == y.last());
        assert(y.last() != COMPONENT_SEP);
        assert((x + y).drop_last() =~= x + y2);
        assert(after_last_sep(x) + y =~= (after_last_sep(x) + y2) + seq![y.last()]);
    }
}

/// The suffix after a trailing separator is empty.
pub proof fn lemma_after_last_sep_ends_sep(x: Seq<u8>)
    ensures
        after_last_sep(x + seq![COMPONENT_SEP]) == Seq::<u8>::empty(),
{
    assert((x + seq![COMPONENT_SEP]).last() == COMPONENT_SEP);
    assert(after_last_sep(x + seq![COMPONENT_SEP]) =~= Seq::<u8>::empty());
}

/// The suffix of an index key after its last separator is the tagged
/// doc id, as long as the doc id keeps clear of the separator bytes.
pub proof fn lemma_index_key_suffix(d: Seq<u8>, p: Seq<TaggableValue>, v: TaggableValue)
    requires
        bytes_sep_free(d),
    ensures
        after_last_sep(spec_index_key(d, p, v)) == seq![TAG_STRING] + d,
{
    let a = seq![crate::keys::KEY_INDEX, COMPONENT_SEP] + crate::keys::spec_encode_path(p) + seq![
        COMPONENT_SEP,
    ] + crate::values::spec_encode_tagged(v);
    let tail = seq![TAG_STRING] + d;
    assert(spec_index_key(d, p, v) =~= (a + seq![COMPONENT_SEP]) + tail);
    assert(forall|i: int| 0 <= i < tail.len() ==> tail[i] != COMPONENT_SEP);
    lemma_after_last_sep_append(a + seq![COMPONENT_SEP], tail);
    lemma_after_last_sep_ends_sep(a);
    assert(Seq::<u8>::empty() + tail =~= tail);
}

/// Deleting a document erases it from every later search: once the
/// document entry and its derived index entries are gone, and every
/// index entry naming this id was derived from its stored body, no
/// range scan yields the id again.
pub proof fn lemma_delete_erases(
    m: Map<Seq<u8>, Seq<u8>>,
    m2: Map<Seq<u8>, Seq<u8>>,
    d: Seq<u8>,
    lo: Seq<u8>,
    hi: Seq<u8>,
)
    requires
        store_delete_post(m, m2, d),
        bytes_sep_free(d),
        forall|k: Seq<u8>|
            #![auto]
            m.contains_key(k) && after_last_sep(k) == seq![TAG_STRING] + d && k != spec_doc_key(d)
                ==> old_derived(m, d, k),
    ensures
        !has_doc(m2, d),
        !scan_id_set(m2, lo, hi).contains(d),
{
    if scan_id_set(m2, lo, hi).contains(d) {
        let k = choose|k: Seq<u8>|
            {
                &&& #[trigger] m2.contains_key(k)
                &&& lex_le_spec(lo, k)
                &&& lex_lt_spec(k, hi)
                &&& decodes_as_str(after_last_sep(k))
                &&& after_last_sep(k).drop_first() == d
            };
        assert(after_last_sep(k) =~= seq![TAG_STRING] + d) by {
            assert(after_last_sep(k)[0] == TAG_STRING);
        }
        assert(m.contains_key(k));
        if k == spec_doc_key(d) {
            assert(!m2.contains_key(k));
        } else {
            assert(old_derived(m, d, k));
            assert(!m2.contains_key(k));
        }
    }
}

/// An index entry always lands inside the equality scan of its own
/// path and value: the entry's key lies in `[pv_lower, pv_upper)`.
pub proof fn lemma_index_key_in_eq_range(d: Seq<u8>, p: Seq<TaggableValue>, v: TaggableValue)
    ensures
        lex_le_spec(spec_pv_lower(p, v), spec_index_key(d, p, v)),
        lex_lt_spec(spec_index_key(d, p, v), spec_pv_upper(p, v)),
{
    let q = seq![crate::keys::KEY_INDEX, COMPONENT_SEP] + crate::keys::spec_encode_path(p) + seq![
        COMPONENT_SEP,
    ] + crate::values::spec_encode_tagged(v);
    let key = spec_index_key(d, p, v);
    let lower = spec_pv_lower(p, v);
    let upper = spec_pv_upper(p, v);
    assert(lower =~= q + seq![COMPONENT_SEP]);
    assert(upper =~= q + seq![2u8]);
    assert(key =~= lower + (seq![TAG_STRING] + d));
    lemma_lex_prefix_le(lower, seq![TAG_STRING] + d);
    assert(lex_lt_spec(key, upper)) by {
        let kt = seq![COMPONENT_SEP, TAG_STRING] + d;
        assert(key =~= q + kt);
        lemma_lex_prepend(q, kt, seq![2u8]);
        lemma_lex_first_diff(kt, seq![2u8], 0);
    }
}

/// A document whose body holds the value `v` at the path `p` is found
/// by a search for exactly that pair: once its index entry stands in
/// the store, the equality scan over `(p, v)` yields its id.
pub proof fn lemma_equality_search_finds(
    m: Map<Seq<u8>, Seq<u8>>,
    d: Seq<u8>,
    p: Seq<TaggableValue>,
    v: TaggableValue,
)
    requires
        m.contains_key(spec_index_key(d, p, v)),
        bytes_sep_free(d),
        vstd::utf8::valid_utf8(d),
    ensures
        scan_id_set(m, spec_pv_lower(p, v), spec_pv_upper(p, v)).contains(d),
{
    let k = spec_index_key(d, p, v);
    lemma_index_key_in_eq_range(d, p, v);
    lemma_index_key_suffix(d, p, v);
    assert(decodes_as_str(after_last_sep(k))) by {
        assert(after_last_sep(k)[0] == TAG_STRING);
        assert(after_last_sep(k).drop_first() =~= d);
    }
    assert(after_last_sep(k).drop_first() =~= d);
}

/// After a document is written, every one of its leaves is found by
/// the equality scan over that leaf's own path and value: searching for
/// exactly a value the document holds yields its id.
pub proof fn lemma_set_then_search_finds(
    m: Map<Seq<u8>, Seq<u8>>,
    m2: Map<Seq<u8>, Seq<u8>>,
    d: Seq<u8>,
    b: JsonValue,
    j: int,
)
    requires
        store_set_post(m, m2, d, b),
        bytes_sep_free(d),
        vstd::utf8::valid_utf8(d),
        0 <= j < spec_flatten(Seq::empty(), b).len(),
    ensures
        ({
            let leaf = spec_flatten(Seq::<TaggableValue>::empty(), b)[j];
            scan_id_set(m2, spec_pv_lower(leaf.0, leaf.1), spec_pv_upper(leaf.0, leaf.1)).contains(
                d,
            )
        }),
{
    let f = spec_flatten(Seq::<TaggableValue>::empty(), b);
    let leaf = f[j];
    let k = spec_index_key(d, leaf.0, leaf.1);
    assert(is_derived_key(k, d, b)) by {
        assert(0 <= j < f.len() && k == spec_index_key(d, (#[trigger] f[j]).0, f[j].1));
    }
    assert(m2.contains_key(k));
    lemma_equality_search_finds(m2, d, leaf.0, leaf.1);
}

} // verus!
