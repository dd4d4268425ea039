use vstd::prelude::*;

use crate::bytes::{lex_le_spec, lex_lt_spec};
use crate::errors::DocDbError;
use crate::keys::{after_last_sep, decode_index_key_docid, decodes_as_str};
use crate::kv::{kv_contents, kv_range_keys};
use crate::planner::Scan;
use crate::query::{QueryResult, QueryStats};
use crate::values::{lemma_str_bytes_inj, str_bytes};

verus! {

/// The set of doc ids (as UTF-8 byte strings) one scan yields: those
/// decoded from the keys in the half-open range; keys whose suffix does
/// not decode as a tagged string are skipped.
pub open spec fn scan_id_set(m: Map<Seq<u8>, Seq<u8>>, lo: Seq<u8>, hi: Seq<u8>) -> Set<Seq<u8>> {
    Set::new(
        |docid: Seq<u8>|
            exists|k: Seq<u8>|
                {
                    &&& #[trigger] m.contains_key(k)
                    &&& lex_le_spec(lo, k)
                    &&& lex_lt_spec(k, hi)
                    &&& decodes_as_str(after_last_sep(k))
                    &&& after_last_sep(k).drop_first() == docid
                },
    )
}

/// The id shows up in the first `t` scans.
pub open spec fn in_scans_upto(
    m: Map<Seq<u8>, Seq<u8>>,
    sv: Seq<(Seq<u8>, Seq<u8>)>,
    docid: Seq<u8>,
    t: int,
) -> bool {
    forall|j: int| 0 <= j < t ==> scan_id_set(m, (#[trigger] sv[j]).0, sv[j].1).contains(docid)
}

/// Some document shows up in the scan.
pub open spec fn scan_nonempty(m: Map<Seq<u8>, Seq<u8>>, sv: Seq<(Seq<u8>, Seq<u8>)>, j: int) -> bool {
    exists|docid: Seq<u8>| scan_id_set(m, sv[j].0, sv[j].1).contains(docid)
}

/// Every id the range yields is somewhere in the list.
pub open spec fn ids_cover(
    m: Map<Seq<u8>, Seq<u8>>,
    lo: Seq<u8>,
    hi: Seq<u8>,
    ids: Seq<String>,
) -> bool {
    forall|docid: Seq<u8>|
        #![auto]
        scan_id_set(m, lo, hi).contains(docid) ==> exists|x: int|
            0 <= x < ids.len() && str_bytes(ids[x]@) == docid
}

/// Some entry of the list has exactly these characters.
pub open spec fn has_view(v: Seq<String>, s: Seq<char>) -> bool {
    exists|x: int| 0 <= x < v.len() && (#[trigger] v[x])@ == s
}

/// Pushing onto a list keeps its entries and adds the new one.
proof fn lemma_has_view_push(pre: Seq<String>, v: String, s: Seq<char>)
    ensures
        has_view(pre, s) ==> has_view(pre.push(v), s),
        has_view(pre.push(v), s) ==> (has_view(pre, s) || v@ == s),
        v@ == s ==> has_view(pre.push(v), s),
{
    let post = pre.push(v);
    if has_view(pre, s) {
        let x = choose|x: int| 0 <= x < pre.len() && (#[trigger] pre[x])@ == s;
        assert(post[x]@ == s);
    }
    if has_view(post, s) {
        let x = choose|x: int| 0 <= x < post.len() && (#[trigger] post[x])@ == s;
        if x < pre.len() {
            assert(pre[x]@ == s);
        }
    }
    if v@ == s {
        assert(post[pre.len() as int]@ == s);
    }
}

/// What a finished execution of the scans `sv` over the store `m`
/// guarantees: the scan counter says how many scans ran; when some scan
/// comes back empty, execution stops right there with no results; and
/// otherwise the results are exactly the ids found by every scan, in
/// ascending id order without repetition.
pub open spec fn execute_post(
    m: Map<Seq<u8>, Seq<u8>>,
    sv: Seq<(Seq<u8>, Seq<u8>)>,
    results: Seq<String>,
    nscans: u32,
) -> bool {
    if exists|j: int| 0 <= j < sv.len() && !scan_nonempty(m, sv, j) {
        exists|j0: int|
            {
                &&& 0 <= j0 < sv.len()
                &&& !scan_nonempty(m, sv, j0)
                &&& (forall|j: int| 0 <= j < j0 ==> scan_nonempty(m, sv, j))
                &&& nscans == j0 + 1
                &&& results.len() == 0
            }
    } else {
        &&& nscans == sv.len()
        &&& forall|x1: int, x2: int|
            0 <= x1 < x2 < results.len() ==> lex_lt_spec(
                str_bytes(#[trigger] results[x1]@),
                str_bytes(#[trigger] results[x2]@),
            )
        &&& forall|x: int, j: int|
            0 <= x < results.len() && 0 <= j < sv.len() ==> scan_id_set(
                m,
                (#[trigger] sv[j]).0,
                sv[j].1,
            ).contains(str_bytes(#[trigger] results[x]@))
        &&& (sv.len() > 0 ==> forall|docid: Seq<u8>|
            #[trigger] in_scans_upto(m, sv, docid, sv.len() as int) ==> exists|x: int|
                0 <= x < results.len() && str_bytes(results[x]@) == docid)
        &&& (sv.len() == 0 ==> results.len() == 0)
    }
}

/// The returned ids, one per key of some ascending key list: `ks` are
/// exactly the keys of the range whose suffix decodes as a tagged
/// string, in ascending byte order, and `ids[x]` is the id decoded from
/// `ks[x]`. This pins the order and multiplicity of the id list.
pub open spec fn scan_keys_post(
    m: Map<Seq<u8>, Seq<u8>>,
    lo: Seq<u8>,
    hi: Seq<u8>,
    ks: Seq<Seq<u8>>,
    ids: Seq<String>,
) -> bool {
    &&& ks.len() == ids.len()
    &&& forall|x: int|
        0 <= x < ks.len() ==> {
            &&& m.contains_key(#[trigger] ks[x])
            &&& lex_le_spec(lo, ks[x])
            &&& lex_lt_spec(ks[x], hi)
            &&& decodes_as_str(after_last_sep(ks[x]))
            &&& str_bytes(ids[x]@) == after_last_sep(ks[x]).drop_first()
        }
    &&& forall|x1: int, x2: int|
        0 <= x1 < x2 < ks.len() ==> lex_lt_spec(#[trigger] ks[x1], #[trigger] ks[x2])
    &&& forall|k: Seq<u8>|
        #![auto]
        m.contains_key(k) && lex_le_spec(lo, k) && lex_lt_spec(k, hi) && decodes_as_str(
            after_last_sep(k),
        ) ==> exists|x: int| 0 <= x < ks.len() && ks[x] == k
}

/// Scans the half-open key range and decodes the doc id out of every
/// key found; keys whose suffix does not decode are skipped. The ids
/// come one per decodable key, in ascending key order, and carry
/// exactly the scan's id set.
#[verifier::rlimit(100)]
#[verifier::spinoff_prover]
pub fn scan(db: &sled::Db, start_key: &Vec<u8>, end_key: &Vec<u8>) -> (r: Result<
    Vec<String>,
    DocDbError,
>)
    ensures
        r matches Ok(ids) ==> {
            &&& forall|x: int|
                0 <= x < ids@.len() ==> scan_id_set(
                    kv_contents(*db),
                    start_key@,
                    end_key@,
                ).contains(str_bytes((#[trigger] ids@[x])@))
            &&& ids_cover(kv_contents(*db), start_key@, end_key@, ids@)
            &&& exists|ks: Seq<Seq<u8>>|
                #[trigger] scan_keys_post(kv_contents(*db), start_key@, end_key@, ks, ids@)
        },
        r matches Err(e) ==> e is Storage,
{
    let keys = match kv_range_keys(db, start_key, end_key) {
        Ok(ks) => ks,
        Err(e) => {
            return Err(DocDbError::Storage(e));
        },
    };
    let mut ids: Vec<String> = Vec::new();
    let ghost mut kseq: Seq<Seq<u8>> = Seq::empty();
    let n = keys.len();
    let mut i: usize = 0;
    while i < n
        invariant
            i <= n,
            n == keys@.len(),
            forall|x: int|
                0 <= x < keys@.len() ==> {
                    &&& kv_contents(*db).contains_key((#[trigger] keys@[x])@)
                    &&& lex_le_spec(start_key@, keys@[x]@)
                    &&& lex_lt_spec(keys@[x]@, end_key@)
                },
            forall|x1: int, x2: int|
                0 <= x1 < x2 < keys@.len() ==> lex_lt_spec(
                    #[trigger] keys@[x1]@,
                    #[trigger] keys@[x2]@,
                ),
            kseq.len() == ids@.len(),
            forall|x: int|
                0 <= x < kseq.len() ==> {
                    &&& kv_contents(*db).contains_key(#[trigger] kseq[x])
                    &&& lex_le_spec(start_key@, kseq[x])
                    &&& lex_lt_spec(kseq[x], end_key@)
                    &&& decodes_as_str(after_last_sep(kseq[x]))
                    &&& str_bytes(ids@[x]@) == after_last_sep(kseq[x]).drop_first()
                },
            forall|x1: int, x2: int|
                0 <= x1 < x2 < kseq.len() ==> lex_lt_spec(#[trigger] kseq[x1], #[trigger] kseq[x2]),
            forall|x: int|
                0 <= x < kseq.len() ==> exists|y: int|
                    0 <= y < i && #[trigger] kseq[x] == keys@[y]@,
            forall|x: int|
                0 <= x < i ==> (decodes_as_str(after_last_sep((#[trigger] keys@[x])@))
                    ==> exists|y: int| 0 <= y < kseq.len() && kseq[y] == keys@[x]@),
        decreases n - i,
    {
        let ghost pre = ids@;
        let ghost kpre = kseq;
        match decode_index_key_docid(keys[i].as_slice()) {
            Ok(s) => {
                let owned = s.to_owned();
                proof {
                    let k = keys@[i as int]@;
                    assert(str_bytes(owned@) == after_last_sep(k).drop_first());
                    kseq = kseq.push(k);
                }
                ids.push(owned);
                proof {
                    let k = keys@[i as int]@;
                    assert(kseq[kpre.len() as int] == k);
                    assert(ids@[pre.len() as int]@ == owned@);
                    assert(forall|x: int| 0 <= x < kpre.len() ==> #[trigger] kseq[x] == kpre[x]);
                    assert(forall|x: int| 0 <= x < pre.len() ==> #[trigger] ids@[x] == pre[x]);
                    assert forall|x1: int, x2: int| 0 <= x1 < x2 < kseq.len() implies lex_lt_spec(
                        #[trigger] kseq[x1],
                        #[trigger] kseq[x2],
                    ) by {
                        if x2 == kseq.len() - 1 {
                            let y = choose|y: int| 0 <= y < i && kpre[x1] == (#[trigger] keys@[y])@;
                            assert(lex_lt_spec(keys@[y]@, keys@[i as int]@));
                        }
                    }
                    assert forall|x: int|
                        0 <= x < i + 1 implies (decodes_as_str(
                        after_last_sep((#[trigger] keys@[x])@),
                    ) ==> exists|y: int| 0 <= y < kseq.len() && kseq[y] == keys@[x]@) by {
                        if x < i && decodes_as_str(after_last_sep(keys@[x]@)) {
                            let y = choose|y: int|
                                0 <= y < kpre.len() && kpre[y] == (#[trigger] keys@[x])@;
                            assert(kseq[y] == keys@[x]@);
                        } else if x == i {
                            assert(kseq[kpre.len() as int] == keys@[x]@);
                        }
                    }
                }
            },
            Err(_) => {},
        }
        i = i + 1;
    }
    proof {
        let m = kv_contents(*db);
        assert forall|x: int| 0 <= x < ids@.len() implies scan_id_set(
            m,
            start_key@,
            end_key@,
        ).contains(str_bytes((#[trigger] ids@[x])@)) by {
            assert(m.contains_key(kseq[x]));
        }
        assert forall|k: Seq<u8>|
            #![auto]
            m.contains_key(k) && lex_le_spec(start_key@, k) && lex_lt_spec(k, end_key@)
                && decodes_as_str(after_last_sep(k)) implies exists|x: int|
            0 <= x < kseq.len() && kseq[x] == k by {
            let x = choose|x: int| 0 <= x < keys@.len() && (#[trigger] keys@[x])@ == k;
            assert(decodes_as_str(after_last_sep(keys@[x]@)));
        }
        assert(scan_keys_post(m, start_key@, end_key@, kseq, ids@));
        assert forall|docid: Seq<u8>|
            #![auto]
            scan_id_set(m, start_key@, end_key@).contains(docid) implies exists|x: int|
            0 <= x < ids@.len() && str_bytes(ids@[x]@) == docid by {
            let k = choose|k: Seq<u8>|
                {
                    &&& #[trigger] m.contains_key(k)
                    &&& lex_le_spec(start_key@, k)
                    &&& lex_lt_spec(k, end_key@)
                    &&& decodes_as_str(after_last_sep(k))
                    &&& after_last_sep(k).drop_first() == docid
                };
            let y = choose|y: int| 0 <= y < kseq.len() && #[trigger] kseq[y] == k;
            assert(str_bytes(ids@[y]@) == docid);
        }
        assert(ids_cover(m, start_key@, end_key@, ids@));
    }
    Ok(ids)
}

/// Keeps one copy of each id.
#[verifier::rlimit(100)]
#[verifier::spinoff_prover]
fn dedup_ids(ids: Vec<String>) -> (r: Vec<String>)
    ensures
        forall|x1: int, x2: int| 0 <= x1 < x2 < r@.len() ==> (#[trigger] r@[x1])@ != (
        #[trigger] r@[x2])@,
        forall|x: int| 0 <= x < r@.len() ==> has_view(ids@, (#[trigger] r@[x])@),
        forall|y: int| 0 <= y < ids@.len() ==> has_view(r@, (#[trigger] ids@[y])@),
{
    let mut out: Vec<String> = Vec::new();
    let n = ids.len();
    let mut i: usize = 0;
    while i < n
        invariant
            i <= n,
            n == ids@.len(),
            forall|x1: int, x2: int| 0 <= x1 < x2 < out@.len() ==> (#[trigger] out@[x1])@ != (
            #[trigger] out@[x2])@,
            forall|x: int| 0 <= x < out@.len() ==> has_view(ids@, (#[trigger] out@[x])@),
            forall|y: int| 0 <= y < i ==> has_view(out@, (#[trigger] ids@[y])@),
        decreases n - i,
    {
        let ghost pre = out@;
        if !contains_str(&out, &ids[i]) {
            out.push(ids[i].clone());
            proof {
                assert(out@ == pre.push(out@.last()));
                assert(out@.last()@ == ids@[i as int]@);
                assert forall|x1: int, x2: int| 0 <= x1 < x2 < out@.len() implies (
                #[trigger] out@[x1])@ != (#[trigger] out@[x2])@ by {
                    if x2 == out@.len() - 1 {
                        assert(out@[x1] == pre[x1]);
                        assert(!has_view(pre, ids@[i as int]@));
                        assert(!(pre[x1]@ == ids@[i as int]@));
                    }
                }
                assert forall|x: int| 0 <= x < out@.len() implies has_view(
                    ids@,
                    (#[trigger] out@[x])@,
                ) by {
                    if x < pre.len() {
                        assert(out@[x] == pre[x]);
                    } else {
                        assert(out@[x]@ == ids@[i as int]@);
                    }
                }
                assert forall|y: int| 0 <= y < i + 1 implies has_view(
                    out@,
                    (#[trigger] ids@[y])@,
                ) by {
                    lemma_has_view_push(pre, out@.last(), ids@[y]@);
                }
            }
        } else {
            proof {
                assert forall|y: int| 0 <= y < i + 1 implies has_view(
                    out@,
                    (#[trigger] ids@[y])@,
                ) by {
                }
            }
        }
        i = i + 1;
    }
    out
}

/// Whether some entry has the same characters as `s`.
fn contains_str(v: &Vec<String>, s: &String) -> (r: bool)
    ensures
        r == has_view(v@, s@),
{
    let n = v.len();
    let mut i: usize = 0;
    while i < n
        invariant
            i <= n,
            n == v@.len(),
            forall|x: int| 0 <= x < i ==> (#[trigger] v@[x])@ != s@,
        decreases n - i,
    {
        if v[i] == *s {
            proof {
                assert(v@[i as int]@ == s@);
            }
            return true;
        }
        i = i + 1;
    }
    proof {
        if has_view(v@, s@) {
            let x = choose|x: int| 0 <= x < v@.len() && (#[trigger] v@[x])@ == s@;
        }
    }
    false
}

/// Keeps the candidates that the scan found again.
#[verifier::rlimit(100)]
#[verifier::spinoff_prover]
fn retain_in(candidates: Vec<String>, ids: &Vec<String>) -> (r: Vec<String>)
    requires
        forall|x1: int, x2: int|
            0 <= x1 < x2 < candidates@.len() ==> (#[trigger] candidates@[x1])@ != (
            #[trigger] candidates@[x2])@,
    ensures
        forall|x1: int, x2: int| 0 <= x1 < x2 < r@.len() ==> (#[trigger] r@[x1])@ != (
        #[trigger] r@[x2])@,
        forall|x: int|
            0 <= x < r@.len() ==> has_view(candidates@, (#[trigger] r@[x])@) && has_view(
                ids@,
                r@[x]@,
            ),
        forall|y: int|
            0 <= y < candidates@.len() ==> (has_view(ids@, (#[trigger] candidates@[y])@)
                ==> has_view(r@, candidates@[y]@)),
{
    let mut out: Vec<String> = Vec::new();
    let n = candidates.len();
    let mut i: usize = 0;
    while i < n
        invariant
            i <= n,
            n == candidates@.len(),
            forall|x1: int, x2: int|
                0 <= x1 < x2 < candidates@.len() ==> (#[trigger] candidates@[x1])@ != (
                #[trigger] candidates@[x2])@,
            forall|x1: int, x2: int| 0 <= x1 < x2 < out@.len() ==> (#[trigger] out@[x1])@ != (
            #[trigger] out@[x2])@,
            forall|x: int|
                0 <= x < out@.len() ==> has_view(
                    candidates@.take(i as int),
                    (#[trigger] out@[x])@,
                ) && has_view(ids@, out@[x]@),
            forall|y: int|
                0 <= y < i ==> (has_view(ids@, (#[trigger] candidates@[y])@) ==> has_view(
                    out@,
                    candidates@[y]@,
                )),
        decreases n - i,
    {
        let ghost pre = out@;
        if contains_str(ids, &candidates[i]) {
            out.push(candidates[i].clone());
            proof {
                assert(out@ == pre.push(out@.last()));
                assert(out@.last()@ == candidates@[i as int]@);
                assert forall|x1: int, x2: int| 0 <= x1 < x2 < out@.len() implies (
                #[trigger] out@[x1])@ != (#[trigger] out@[x2])@ by {
                    if x2 == out@.len() - 1 {
                        assert(out@[x1] == pre[x1]);
                        assert(has_view(candidates@.take(i as int), pre[x1]@));
                        let y1 = choose|y: int|
                            0 <= y < candidates@.take(i as int).len() && (#[trigger] candidates@.take(
                                i as int,
                            )[y])@ == pre[x1]@;
                        assert(candidates@[y1]@ == pre[x1]@);
                        assert(candidates@[y1]@ != candidates@[i as int]@);
                    }
                }
                assert forall|x: int| 0 <= x < out@.len() implies has_view(
                    candidates@.take(i + 1),
                    (#[trigger] out@[x])@,
                ) && has_view(ids@, out@[x]@) by {
                    if x < pre.len() {
                        assert(out@[x] == pre[x]);
                        assert(has_view(candidates@.take(i as int), pre[x]@));
                        let y = choose|y: int|
                            0 <= y < candidates@.take(i as int).len() && (#[trigger] candidates@.take(
                                i as int,
                            )[y])@ == pre[x]@;
                        assert(candidates@.take(i + 1)[y]@ == out@[x]@);
                    } else {
                        assert(out@[x]@ == candidates@[i as int]@);
                        assert(has_view(candidates@.take(i + 1), out@[x]@)) by {
                            assert(candidates@.take(i + 1)[i as int]@ == out@[x]@);
                        }
                    }
                }
                assert forall|y: int|
                    0 <= y < i + 1 implies (has_view(ids@, (#[trigger] candidates@[y])@)
                    ==> has_view(out@, candidates@[y]@)) by {
                    lemma_has_view_push(pre, out@.last(), candidates@[y]@);
                }
            }
        } else {
            proof {
                assert forall|y: int|
                    0 <= y < i + 1 implies (has_view(ids@, (#[trigger] candidates@[y])@)
                    ==> has_view(out@, candidates@[y]@)) by {
                }
            }
        }
        i = i + 1;
    }
    proof {
        assert forall|x: int| 0 <= x < out@.len() implies has_view(
            candidates@,
            (#[trigger] out@[x])@,
        ) by {
            assert(has_view(candidates@.take(n as int), out@[x]@));
            let y = choose|y: int|
                0 <= y < candidates@.take(n as int).len() && (#[trigger] candidates@.take(
                    n as int,
                )[y])@ == out@[x]@;
            assert(candidates@[y]@ == out@[x]@);
        }
    }
    out
}

/// Sorts distinct ids into ascending byte order.
#[verifier::rlimit(100)]
#[verifier::spinoff_prover]
fn sort_ids(v: Vec<String>) -> (r: Vec<String>)
    requires
        forall|x1: int, x2: int| 0 <= x1 < x2 < v@.len() ==> (#[trigger] v@[x1])@ != (
        #[trigger] v@[x2])@,
    ensures
        forall|x1: int, x2: int|
            0 <= x1 < x2 < r@.len() ==> lex_lt_spec(
                str_bytes((#[trigger] r@[x1])@),
                str_bytes((#[trigger] r@[x2])@),
            ),
        forall|x: int| 0 <= x < r@.len() ==> has_view(v@, (#[trigger] r@[x])@),
        forall|y: int| 0 <= y < v@.len() ==> has_view(r@, (#[trigger] v@[y])@),
{
    let mut out: Vec<String> = Vec::new();
    let n = v.len();
    let mut i: usize = 0;
    while i < n
        invariant
            i <= n,
            n == v@.len(),
            forall|x1: int, x2: int| 0 <= x1 < x2 < v@.len() ==> (#[trigger] v@[x1])@ != (
            #[trigger] v@[x2])@,
            forall|x1: int, x2: int|
                0 <= x1 < x2 < out@.len() ==> lex_lt_spec(
                    str_bytes((#[trigger] out@[x1])@),
                    str_bytes((#[trigger] out@[x2])@),
                ),
            forall|x: int|
                0 <= x < out@.len() ==> has_view(v@.take(i as int), (#[trigger] out@[x])@),
            forall|y: int| 0 <= y < i ==> has_view(out@, (#[trigger] v@[y])@),
        decreases n - i,
    {
        let s = v[i].clone();
        proof {
            assert(s@ == v@[i as int]@);
        }
        let pos = sorted_pos(&out, &s);
        proof {
            assert forall|x: int| 0 <= x < out@.len() implies (#[trigger] out@[x])@ != s@ by {
                assert(has_view(v@.take(i as int), out@[x]@));
                let y = choose|y: int|
                    0 <= y < v@.take(i as int).len() && (#[trigger] v@.take(i as int)[y])@
                        == out@[x]@;
                assert(v@[y]@ == out@[x]@);
                assert(v@[y]@ != v@[i as int]@);
            }
            if pos < out@.len() {
                lemma_str_bytes_inj(out@[pos as int]@, s@);
                crate::planner::lemma_lex_total(str_bytes(out@[pos as int]@), str_bytes(s@));
            }
        }
        let ghost pre = out@;
        out.insert(pos, s);
        proof {
            assert(out@ == pre.insert(pos as int, out@[pos as int]));
            assert(out@[pos as int]@ == v@[i as int]@);
            assert forall|x1: int, x2: int| 0 <= x1 < x2 < out@.len() implies lex_lt_spec(
                str_bytes((#[trigger] out@[x1])@),
                str_bytes((#[trigger] out@[x2])@),
            ) by {
                if x1 < pos && x2 < pos {
                    assert(out@[x1] == pre[x1]);
                    assert(out@[x2] == pre[x2]);
                } else if x1 < pos && x2 == pos {
                    assert(out@[x1] == pre[x1]);
                } else if x1 < pos && x2 > pos {
                    assert(out@[x1] == pre[x1]);
                    assert(out@[x2] == pre[x2 - 1]);
                } else if x1 == pos {
                    assert(out@[x2] == pre[x2 - 1]);
                    assert(!lex_lt_spec(str_bytes(pre[x2 - 1]@), str_bytes(s@)));
                    lemma_str_bytes_inj(pre[x2 - 1]@, s@);
                    crate::planner::lemma_lex_total(str_bytes(s@), str_bytes(pre[x2 - 1]@));
                    assert(str_bytes(pre[x2 - 1]@) != str_bytes(s@));
                } else {
                    assert(out@[x1] == pre[x1 - 1]);
                    assert(out@[x2] == pre[x2 - 1]);
                }
            }
            assert forall|x: int| 0 <= x < out@.len() implies has_view(
                v@.take(i + 1),
                (#[trigger] out@[x])@,
            ) by {
                if x != pos {
                    let xx: int = if x < pos {
                        x
                    } else {
                        x - 1
                    };
                    assert(out@[x] == pre[xx]);
                    assert(has_view(v@.take(i as int), pre[xx]@));
                    let y = choose|y: int|
                        0 <= y < v@.take(i as int).len() && (#[trigger] v@.take(i as int)[y])@
                            == pre[xx]@;
                    assert(v@.take(i + 1)[y]@ == out@[x]@);
                } else {
                    assert(v@.take(i + 1)[i as int]@ == out@[x]@);
                }
            }
            assert forall|y: int| 0 <= y < i + 1 implies has_view(out@, (#[trigger] v@[y])@) by {
                if y < i {
                    let x = choose|x: int| 0 <= x < pre.len() && (#[trigger] pre[x])@ == v@[y]@;
                    if x < pos {
                        assert(out@[x]@ == v@[y]@);
                    } else {
                        assert(out@[x + 1] == pre[x]);
                        assert(out@[x + 1]@ == v@[y]@);
                    }
                } else {
                    assert(out@[pos as int]@ == v@[y]@);
                }
            }
        }
        i = i + 1;
    }
    proof {
        assert forall|x: int| 0 <= x < out@.len() implies has_view(v@, (#[trigger] out@[x])@) by {
            assert(has_view(v@.take(n as int), out@[x]@));
            let y = choose|y: int|
                0 <= y < v@.take(n as int).len() && (#[trigger] v@.take(n as int)[y])@ == out@[x]@;
            assert(v@[y]@ == out@[x]@);
        }
    }
    out
}

/// The position in the sorted list where `s` belongs: everything before
/// it comes earlier in byte order, nothing after it does.
fn sorted_pos(out: &Vec<String>, s: &String) -> (pos: usize)
    requires
        forall|x1: int, x2: int|
            0 <= x1 < x2 < out@.len() ==> lex_lt_spec(
                str_bytes((#[trigger] out@[x1])@),
                str_bytes((#[trigger] out@[x2])@),
            ),
    ensures
        pos <= out@.len(),
        forall|x: int|
            0 <= x < pos ==> lex_lt_spec(str_bytes((#[trigger] out@[x])@), str_bytes(s@)),
        forall|x: int|
            pos <= x < out@.len() ==> !lex_lt_spec(str_bytes((#[trigger] out@[x])@), str_bytes(s@)),
{
    let n = out.len();
    let mut pos: usize = 0;
    while pos < n
        invariant
            pos <= n,
            n == out@.len(),
            forall|x1: int, x2: int|
                0 <= x1 < x2 < out@.len() ==> lex_lt_spec(
                    str_bytes((#[trigger] out@[x1])@),
                    str_bytes((#[trigger] out@[x2])@),
                ),
            forall|x: int|
                0 <= x < pos ==> lex_lt_spec(str_bytes((#[trigger] out@[x])@), str_bytes(s@)),
        decreases n - pos,
    {
        if !crate::bytes::lex_lt_slices(out[pos].as_str().as_bytes(), s.as_str().as_bytes()) {
            proof {
                assert forall|x: int| pos <= x < out@.len() implies !lex_lt_spec(
                    str_bytes((#[trigger] out@[x])@),
                    str_bytes(s@),
                ) by {
                    if x > pos {
                        if lex_lt_spec(str_bytes(out@[x]@), str_bytes(s@)) {
                            crate::planner::lemma_lex_total(
                                str_bytes(out@[pos as int]@),
                                str_bytes(out@[x]@),
                            );
                            crate::bytes::lemma_lex_trans(
                                str_bytes(out@[pos as int]@),
                                str_bytes(out@[x]@),
                                str_bytes(s@),
                            );
                        }
                    }
                }
            }
            return pos;
        }
        pos = pos + 1;
    }
    pos
}

/// Runs the planned scans against the store and intersects what they
/// find: each scan's ids narrow the candidates, a scan that comes back
/// empty stops execution at once, and the surviving ids come back in
/// ascending id order along with the number of scans run.
#[verifier::rlimit(100)]
#[verifier::spinoff_prover]
pub fn query_execute(scans: &Vec<Scan>, db: &sled::Db) -> (r: Result<QueryResult, DocDbError>)
    requires
        scans@.len() < 0x1_0000_0000,
    ensures
        r matches Ok(qr) ==> execute_post(
            kv_contents(*db),
            crate::planner::scans_view(scans@),
            qr.results@,
            qr.stats.scans,
        ),
        r matches Err(e) ==> e is Storage,
{
    let ghost m = kv_contents(*db);
    let ghost sv = crate::planner::scans_view(scans@);
    let n = scans.len();
    let mut stats_scans: u32 = 0;
    let mut candidates: Vec<String> = Vec::new();
    let mut idx: usize = 0;
    while idx < n
        invariant
            idx <= n,
            n == scans@.len(),
            n < 0x1_0000_0000,
            sv == crate::planner::scans_view(scans@),
            sv.len() == n,
            m == kv_contents(*db),
            stats_scans == idx,
            forall|j: int| 0 <= j < idx ==> scan_nonempty(m, sv, j),
            forall|x1: int, x2: int|
                0 <= x1 < x2 < candidates@.len() ==> (#[trigger] candidates@[x1])@ != (
                #[trigger] candidates@[x2])@,
            idx > 0 ==> forall|x: int, j: int|
                0 <= x < candidates@.len() && 0 <= j < idx ==> scan_id_set(
                    m,
                    (#[trigger] sv[j]).0,
                    sv[j].1,
                ).contains(str_bytes((#[trigger] candidates@[x])@)),
            idx > 0 ==> forall|docid: Seq<u8>|
                #[trigger] in_scans_upto(m, sv, docid, idx as int) ==> exists|x: int|
                    0 <= x < candidates@.len() && str_bytes(candidates@[x]@) == docid,
        decreases n - idx,
    {
        proof {
            assert(sv[idx as int] == (scans@[idx as int].skey@, scans@[idx as int].ekey@));
        }
        let ids = match scan(db, &scans[idx].skey, &scans[idx].ekey) {
            Ok(ids) => ids,
            Err(e) => {
                return Err(e);
            },
        };
        stats_scans = stats_scans + 1;
        if ids.len() == 0 {
            proof {
                assert(!scan_nonempty(m, sv, idx as int)) by {
                    if scan_nonempty(m, sv, idx as int) {
                        let docid = choose|docid: Seq<u8>|
                            scan_id_set(m, sv[idx as int].0, sv[idx as int].1).contains(docid);
                        assert(ids_cover(m, sv[idx as int].0, sv[idx as int].1, ids@));
                        assert(exists|x: int|
                            0 <= x < ids@.len() && str_bytes(ids@[x]@) == docid);
                    }
                }
                assert(execute_post(m, sv, Seq::<String>::empty(), stats_scans));
            }
            return Ok(
                QueryResult { results: Vec::new(), stats: QueryStats { scans: stats_scans } },
            );
        }
        proof {
            assert(scan_nonempty(m, sv, idx as int)) by {
                assert(scan_id_set(m, sv[idx as int].0, sv[idx as int].1).contains(
                    str_bytes(ids@[0]@),
                ));
            }
        }
        if idx == 0 {
            candidates = dedup_ids(ids);
            proof {
                assert forall|x: int, j: int|
                    0 <= x < candidates@.len() && 0 <= j < 1 implies scan_id_set(
                    m,
                    (#[trigger] sv[j]).0,
                    sv[j].1,
                ).contains(str_bytes((#[trigger] candidates@[x])@)) by {
                    assert(has_view(ids@, candidates@[x]@));
                    let y = choose|y: int|
                        0 <= y < ids@.len() && (#[trigger] ids@[y])@ == candidates@[x]@;
                    assert(scan_id_set(m, sv[0].0, sv[0].1).contains(str_bytes(ids@[y]@)));
                }
                assert forall|docid: Seq<u8>| #[trigger] in_scans_upto(
                    m,
                    sv,
                    docid,
                    1int,
                ) implies exists|x: int|
                    0 <= x < candidates@.len() && str_bytes(candidates@[x]@) == docid by {
                    assert(scan_id_set(m, sv[0].0, sv[0].1).contains(docid));
                    let y = choose|y: int|
                        0 <= y < ids@.len() && str_bytes((#[trigger] ids@[y])@) == docid;
                    assert(has_view(candidates@, ids@[y]@));
                    let x = choose|x: int|
                        0 <= x < candidates@.len() && (#[trigger] candidates@[x])@ == ids@[y]@;
                    assert(str_bytes(candidates@[x]@) == docid);
                }
            }
        } else {
            let prev = candidates;
            candidates = retain_in(prev, &ids);
            proof {
                assert forall|x: int, j: int|
                    0 <= x < candidates@.len() && 0 <= j < idx + 1 implies scan_id_set(
                    m,
                    (#[trigger] sv[j]).0,
                    sv[j].1,
                ).contains(str_bytes((#[trigger] candidates@[x])@)) by {
                    if j < idx {
                        assert(has_view(prev@, candidates@[x]@));
                        let y = choose|y: int|
                            0 <= y < prev@.len() && (#[trigger] prev@[y])@ == candidates@[x]@;
                        assert(scan_id_set(m, sv[j].0, sv[j].1).contains(
                            str_bytes(prev@[y]@),
                        ));
                    } else {
                        assert(has_view(ids@, candidates@[x]@));
                        let z = choose|z: int|
                            0 <= z < ids@.len() && (#[trigger] ids@[z])@ == candidates@[x]@;
                        assert(scan_id_set(m, sv[idx as int].0, sv[idx as int].1).contains(
                            str_bytes(ids@[z]@),
                        ));
                    }
                }
                assert forall|docid: Seq<u8>| #[trigger] in_scans_upto(
                    m,
                    sv,
                    docid,
                    idx + 1,
                ) implies exists|x: int|
                    0 <= x < candidates@.len() && str_bytes(candidates@[x]@) == docid by {
                    assert(in_scans_upto(m, sv, docid, idx as int)) by {
                        assert(forall|j: int|
                            0 <= j < idx ==> scan_id_set(
                                m,
                                (#[trigger] sv[j]).0,
                                sv[j].1,
                            ).contains(docid));
                    }
                    assert(scan_id_set(m, sv[idx as int].0, sv[idx as int].1).contains(docid));
                    let y = choose|y: int|
                        0 <= y < prev@.len() && str_bytes((#[trigger] prev@[y])@) == docid;
                    let z = choose|z: int| 0 <= z < ids@.len() && str_bytes((#[trigger] ids@[z])@)
                        == docid;
                    lemma_str_bytes_inj(prev@[y]@, ids@[z]@);
                    assert(has_view(ids@, prev@[y]@)) by {
                        assert(ids@[z]@ == prev@[y]@);
                    }
                    assert(has_view(candidates@, prev@[y]@));
                    let x = choose|x: int|
                        0 <= x < candidates@.len() && (#[trigger] candidates@[x])@ == prev@[y]@;
                    assert(str_bytes(candidates@[x]@) == docid);
                }
            }
        }
        idx = idx + 1;
    }
    if n == 0 {
        proof {
            assert(execute_post(m, sv, Seq::<String>::empty(), 0u32));
        }
        return Ok(QueryResult { results: Vec::new(), stats: QueryStats { scans: stats_scans } });
    }
    let ghost c = candidates@;
    let sorted = sort_ids(candidates);
    proof {
        assert forall|x: int, j: int|
            0 <= x < sorted@.len() && 0 <= j < sv.len() implies scan_id_set(
            m,
            (#[trigger] sv[j]).0,
            sv[j].1,
        ).contains(str_bytes((#[trigger] sorted@[x])@)) by {
            assert(has_view(c, sorted@[x]@));
            let y = choose|y: int| 0 <= y < c.len() && (#[trigger] c[y])@ == sorted@[x]@;
            assert(scan_id_set(m, sv[j].0, sv[j].1).contains(str_bytes(c[y]@)));
        }
        assert forall|docid: Seq<u8>| #[trigger] in_scans_upto(
            m,
            sv,
            docid,
            sv.len() as int,
        ) implies exists|x: int| 0 <= x < sorted@.len() && str_bytes(sorted@[x]@) == docid by {
            assert(in_scans_upto(m, sv, docid, n as int));
            let y = choose|y: int| 0 <= y < c.len() && str_bytes((#[trigger] c[y])@) == docid;
            assert(has_view(sorted@, c[y]@));
            let x = choose|x: int| 0 <= x < sorted@.len() && (#[trigger] sorted@[x])@ == c[y]@;
            assert(str_bytes(sorted@[x]@) == docid);
        }
    }
    Ok(QueryResult { results: sorted, stats: QueryStats { scans: stats_scans } })
}

} // verus!
