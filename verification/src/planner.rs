use vstd::prelude::*;

use crate::bytes::{
    lemma_lex_connected, lemma_lex_irrefl, lex_le_spec, lex_lt, lex_lt_spec,
};
use crate::errors::DocDbError;
use crate::keys::{
    path_wf, query_lower_bound, query_upper_bound, spec_encode_path, spec_p_lower, spec_p_upper,
    spec_pv_lower, spec_pv_upper,
};
use crate::query::{qp_path, qp_value, QP};
use crate::values::{value_wf, TaggableValue};

verus! {

/// One half-open range scan `[skey, ekey)` over the key-value store.
#[derive(Debug, PartialEq)]
pub struct Scan {
    pub skey: Vec<u8>,
    pub ekey: Vec<u8>,
}

/// The encoded path a predicate groups under.
pub open spec fn qp_path_bytes(qp: QP) -> Seq<u8> {
    spec_encode_path(qp_path(qp))
}

/// The scan range a predicate stands for, per the bound table: an
/// equality scans exactly the `(path, value)` prefix; the strict and
/// non-strict comparisons move one end of the range to the bound of the
/// whole path.
pub open spec fn spec_scan_range(qp: QP) -> (Seq<u8>, Seq<u8>) {
    match qp {
        QP::E { .. } => (
            spec_pv_lower(qp_path(qp), qp_value(qp)),
            spec_pv_upper(qp_path(qp), qp_value(qp)),
        ),
        QP::GT { .. } => (spec_pv_upper(qp_path(qp), qp_value(qp)), spec_p_upper(qp_path(qp))),
        QP::GTE { .. } => (spec_pv_lower(qp_path(qp), qp_value(qp)), spec_p_upper(qp_path(qp))),
        QP::LT { .. } => (spec_p_lower(qp_path(qp)), spec_pv_lower(qp_path(qp), qp_value(qp))),
        QP::LTE { .. } => (spec_p_lower(qp_path(qp)), spec_pv_upper(qp_path(qp), qp_value(qp))),
    }
}

/// A predicate the planner accepts: its path and value are accepted in
/// keys.
pub open spec fn qp_wf(qp: QP) -> bool {
    path_wf(qp_path(qp)) && value_wf(qp_value(qp))
}

/// The later of two byte keys.
pub open spec fn lex_max(a: Seq<u8>, b: Seq<u8>) -> Seq<u8> {
    if lex_lt_spec(a, b) {
        b
    } else {
        a
    }
}

/// The earlier of two byte keys.
pub open spec fn lex_min(a: Seq<u8>, b: Seq<u8>) -> Seq<u8> {
    if lex_lt_spec(b, a) {
        b
    } else {
        a
    }
}

/// Some predicate of the query groups under this encoded path.
pub open spec fn occurs(q: Seq<QP>, pb: Seq<u8>) -> bool {
    exists|i: int| 0 <= i < q.len() && qp_path_bytes(#[trigger] q[i]) == pb
}

/// The collapsed start key of the predicates grouping under `pb`: the
/// latest of their range starts.
pub open spec fn group_skey(q: Seq<QP>, pb: Seq<u8>) -> Seq<u8>
    decreases q.len(),
{
    if q.len() == 0 {
        seq![]
    } else if qp_path_bytes(q.last()) == pb {
        if occurs(q.drop_last(), pb) {
            lex_max(group_skey(q.drop_last(), pb), spec_scan_range(q.last()).0)
        } else {
            spec_scan_range(q.last()).0
        }
    } else {
        group_skey(q.drop_last(), pb)
    }
}

/// The collapsed end key of the predicates grouping under `pb`: the
/// earliest of their range ends.
pub open spec fn group_ekey(q: Seq<QP>, pb: Seq<u8>) -> Seq<u8>
    decreases q.len(),
{
    if q.len() == 0 {
        seq![]
    } else if qp_path_bytes(q.last()) == pb {
        if occurs(q.drop_last(), pb) {
            lex_min(group_ekey(q.drop_last(), pb), spec_scan_range(q.last()).1)
        } else {
            spec_scan_range(q.last()).1
        }
    } else {
        group_ekey(q.drop_last(), pb)
    }
}

/// The scans of a plan for `q` under the distinct encoded paths `pbs`:
/// one collapsed scan per path that occurs, every occurring path
/// covered, in ascending path order.
pub open spec fn plan_groups_ok(
    q: Seq<QP>,
    scans: Seq<(Seq<u8>, Seq<u8>)>,
    pbs: Seq<Seq<u8>>,
) -> bool {
    &&& pbs.len() == scans.len()
    &&& forall|j: int| 0 <= j < pbs.len() ==> occurs(q, #[trigger] pbs[j])
    &&& forall|i: int|
        0 <= i < q.len() ==> exists|j: int|
            0 <= j < pbs.len() && pbs[j] == qp_path_bytes(#[trigger] q[i])
    &&& forall|j1: int, j2: int|
        0 <= j1 < j2 < pbs.len() ==> lex_lt_spec(#[trigger] pbs[j1], #[trigger] pbs[j2])
    &&& forall|j: int|
        0 <= j < scans.len() ==> (#[trigger] scans[j]).0 == group_skey(q, pbs[j]) && scans[j].1
            == group_ekey(q, pbs[j])
}

/// Every predicate of the query is accepted in keys.
pub open spec fn all_qps_wf(q: Seq<QP>) -> bool {
    forall|i: int| 0 <= i < q.len() ==> qp_wf(#[trigger] q[i])
}

/// Every path group of the query collapses to a non-empty range.
pub open spec fn plan_satisfiable(q: Seq<QP>) -> bool {
    forall|pb: Seq<u8>|
        #[trigger] occurs(q, pb) ==> lex_le_spec(group_skey(q, pb), group_ekey(q, pb))
}

/// A valid plan for `q`: grouped, collapsed, sorted, and with every
/// scan satisfiable.
pub open spec fn plan_post(q: Seq<QP>, scans: Seq<(Seq<u8>, Seq<u8>)>) -> bool {
    exists|pbs: Seq<Seq<u8>>|
        #[trigger] plan_groups_ok(q, scans, pbs) && forall|j: int|
            0 <= j < scans.len() ==> lex_le_spec((#[trigger] scans[j]).0, scans[j].1)
}

/// The view of a scan list.
pub open spec fn scans_view(scans: Seq<Scan>) -> Seq<(Seq<u8>, Seq<u8>)> {
    scans.map_values(|s: Scan| (s.skey@, s.ekey@))
}

/// Computes the scan range of a predicate, or fails with `BadValue`
/// exactly when the predicate is not accepted in keys.
pub fn scan_range_for(qp: &QP) -> (r: Result<(Vec<u8>, Vec<u8>), DocDbError>)
    ensures
        r is Ok <==> qp_wf(*qp),
        r matches Ok(range) ==> range.0@ == spec_scan_range(*qp).0 && range.1@ == spec_scan_range(
            *qp,
        ).1,
        r is Err ==> r == Err::<(Vec<u8>, Vec<u8>), DocDbError>(DocDbError::BadValue),
{
    let (p, v) = qp.parts();
    match qp {
        QP::E { .. } => {
            let s = query_lower_bound(p, Some(v))?;
            let e = query_upper_bound(p, Some(v))?;
            Ok((s, e))
        },
        QP::GT { .. } => {
            let s = query_upper_bound(p, Some(v))?;
            let e = query_upper_bound(p, None)?;
            Ok((s, e))
        },
        QP::GTE { .. } => {
            let s = query_lower_bound(p, Some(v))?;
            let e = query_upper_bound(p, None)?;
            Ok((s, e))
        },
        QP::LT { .. } => {
            let s = query_lower_bound(p, None)?;
            let e = query_lower_bound(p, Some(v))?;
            Ok((s, e))
        },
        QP::LTE { .. } => {
            let s = query_lower_bound(p, None)?;
            let e = query_upper_bound(p, Some(v))?;
            Ok((s, e))
        },
    }
}

/// The scan range an equality predicate stands for.
pub fn scan_range_eq(path: Vec<TaggableValue>, v: TaggableValue) -> (r: Result<
    (Vec<u8>, Vec<u8>),
    DocDbError,
>)
    ensures
        r is Ok <==> path_wf(path@) && value_wf(v),
        r matches Ok(range) ==> range.0@ == spec_pv_lower(path@, v) && range.1@ == spec_pv_upper(
            path@,
            v,
        ),
        r is Err ==> r == Err::<(Vec<u8>, Vec<u8>), DocDbError>(DocDbError::BadValue),
{
    let s = query_lower_bound(&path, Some(&v))?;
    let e = query_upper_bound(&path, Some(&v))?;
    Ok((s, e))
}

/// The scan range a greater-or-equal predicate stands for.
pub fn scan_range_gte(path: Vec<TaggableValue>, v: TaggableValue) -> (r: Result<
    (Vec<u8>, Vec<u8>),
    DocDbError,
>)
    ensures
        r is Ok <==> path_wf(path@) && value_wf(v),
        r matches Ok(range) ==> range.0@ == spec_pv_lower(path@, v) && range.1@ == spec_p_upper(
            path@,
        ),
        r is Err ==> r == Err::<(Vec<u8>, Vec<u8>), DocDbError>(DocDbError::BadValue),
{
    let s = query_lower_bound(&path, Some(&v))?;
    let e = query_upper_bound(&path, None)?;
    Ok((s, e))
}

/// The scan range a strictly-greater predicate stands for.
pub fn scan_range_gt(path: Vec<TaggableValue>, v: TaggableValue) -> (r: Result<
    (Vec<u8>, Vec<u8>),
    DocDbError,
>)
    ensures
        r is Ok <==> path_wf(path@) && value_wf(v),
        r matches Ok(range) ==> range.0@ == spec_pv_upper(path@, v) && range.1@ == spec_p_upper(
            path@,
        ),
        r is Err ==> r == Err::<(Vec<u8>, Vec<u8>), DocDbError>(DocDbError::BadValue),
{
    let s = query_upper_bound(&path, Some(&v))?;
    let e = query_upper_bound(&path, None)?;
    Ok((s, e))
}

/// The scan range a strictly-less predicate stands for.
pub fn scan_range_lt(path: Vec<TaggableValue>, v: TaggableValue) -> (r: Result<
    (Vec<u8>, Vec<u8>),
    DocDbError,
>)
    ensures
        r is Ok <==> path_wf(path@) && value_wf(v),
        r matches Ok(range) ==> range.0@ == spec_p_lower(path@) && range.1@ == spec_pv_lower(
            path@,
            v,
        ),
        r is Err ==> r == Err::<(Vec<u8>, Vec<u8>), DocDbError>(DocDbError::BadValue),
{
    let s = query_lower_bound(&path, None)?;
    let e = query_lower_bound(&path, Some(&v))?;
    Ok((s, e))
}

/// The scan range a less-or-equal predicate stands for.
pub fn scan_range_lte(path: Vec<TaggableValue>, v: TaggableValue) -> (r: Result<
    (Vec<u8>, Vec<u8>),
    DocDbError,
>)
    ensures
        r is Ok <==> path_wf(path@) && value_wf(v),
        r matches Ok(range) ==> range.0@ == spec_p_lower(path@) && range.1@ == spec_pv_upper(
            path@,
            v,
        ),
        r is Err ==> r == Err::<(Vec<u8>, Vec<u8>), DocDbError>(DocDbError::BadValue),
{
    let s = query_lower_bound(&path, None)?;
    let e = query_upper_bound(&path, Some(&v))?;
    Ok((s, e))
}

/// Turns a conjunction of predicates into the scans that answer it:
/// the predicates of each distinct path collapse into one scan, the
/// scans come in ascending path order, and a conjunction no document
/// can satisfy is rejected with `InvalidQuery` before any scan runs.
/// Fails with `BadValue` exactly when some predicate is not accepted in
/// keys.
pub fn query_plan(q: Vec<QP>) -> (r: Result<Vec<Scan>, DocDbError>)
    ensures
        r is Ok <==> all_qps_wf(q@) && plan_satisfiable(q@),
        r matches Ok(scans) ==> plan_post(q@, scans_view(scans@)) && scans@.len() <= q@.len(),
        r == Err::<Vec<Scan>, DocDbError>(DocDbError::BadValue) <==> !all_qps_wf(q@),
        r is Err ==> r == Err::<Vec<Scan>, DocDbError>(DocDbError::BadValue) || r == Err::<
            Vec<Scan>,
            DocDbError,
        >(DocDbError::InvalidQuery),
{
    let n = q.len();
    let mut groups: Vec<(Vec<u8>, Scan)> = Vec::new();
    let mut i: usize = 0;
    proof {
        assert(q@.take(0) =~= Seq::<QP>::empty());
    }
    while i < n
        invariant
            i <= n,
            n == q@.len(),
            groups@.len() <= i,
            forall|j: int| 0 <= j < i ==> qp_wf(#[trigger] q@[j]),
            plan_groups_ok(q@.take(i as int), gviews(groups@), gpbs(groups@)),
        decreases n - i,
    {
        let (skey, ekey) = match scan_range_for(&q[i]) {
            Ok(range) => range,
            Err(e) => {
                proof {
                    assert(!qp_wf(q@[i as int]));
                }
                return Err(e);
            },
        };
        let pb = match crate::keys::encode_path_bytes(q[i].parts().0) {
            Ok(b) => b,
            Err(_) => {
                proof {
                    assert(false);
                }
                return Err(DocDbError::BadValue);
            },
        };
        insert_group(&mut groups, pb, skey, ekey, Ghost(q@), Ghost(i as int));
        i = i + 1;
    }
    proof {
        assert(q@.take(n as int) =~= q@);
    }
    let ghost g0 = groups@;
    let mut scans: Vec<Scan> = Vec::new();
    let gn = groups.len();
    let mut j: usize = 0;
    while j < gn
        invariant
            j <= gn,
            gn == g0.len(),
            forall|x: int| 0 <= x < q@.len() ==> qp_wf(#[trigger] q@[x]),
            plan_groups_ok(q@, gviews(g0), gpbs(g0)),
            groups@ =~= g0.skip(j as int),
            scans@.len() == j,
            forall|x: int|
                0 <= x < j ==> (#[trigger] scans@[x]).skey@ == g0[x].1.skey@ && scans@[x].ekey@
                    == g0[x].1.ekey@,
            forall|x: int|
                0 <= x < j ==> lex_le_spec((#[trigger] scans@[x]).skey@, scans@[x].ekey@),
        decreases gn - j,
    {
        let g = groups.remove(0);
        let (_pb2, sc) = g;
        if lex_lt(&sc.ekey, &sc.skey) {
            proof {
                let pbs = gpbs(g0);
                assert(g0.skip(j as int)[0] == g0[j as int]);
                assert(gviews(g0)[j as int] == (sc.skey@, sc.ekey@));
                assert(pbs[j as int] == g0[j as int].0@);
                assert(occurs(q@, pbs[j as int]));
                assert(sc.skey@ == group_skey(q@, pbs[j as int]));
                assert(sc.ekey@ == group_ekey(q@, pbs[j as int]));
                lemma_lex_total(group_skey(q@, pbs[j as int]), group_ekey(q@, pbs[j as int]));
                assert(!plan_satisfiable(q@));
            }
            return Err(DocDbError::InvalidQuery);
        }
        proof {
            lemma_lex_total(sc.skey@, sc.ekey@);
            assert(g0.skip(j as int)[0] == g0[j as int]);
            assert(g0.skip(j as int).remove(0) =~= g0.skip(j + 1));
        }
        scans.push(sc);
        j = j + 1;
    }
    proof {
        let sv = scans_view(scans@);
        let pbs = gpbs(g0);
        assert(plan_groups_ok(q@, gviews(g0), pbs));
        assert(sv.len() == gviews(g0).len());
        assert forall|x: int| 0 <= x < sv.len() implies (#[trigger] sv[x]) == gviews(g0)[x] by {
            assert(sv[x] == (scans@[x].skey@, scans@[x].ekey@));
        }
        assert(sv =~= gviews(g0));
        assert forall|x: int| 0 <= x < sv.len() implies lex_le_spec(
            (#[trigger] sv[x]).0,
            sv[x].1,
        ) by {
            assert(sv[x] == (scans@[x].skey@, scans@[x].ekey@));
        }
        assert(plan_post(q@, sv));
        assert forall|pb: Seq<u8>| #[trigger] occurs(q@, pb) implies lex_le_spec(
            group_skey(q@, pb),
            group_ekey(q@, pb),
        ) by {
            let i = choose|i: int| 0 <= i < q@.len() && qp_path_bytes(#[trigger] q@[i]) == pb;
            let j2 = choose|j2: int| 0 <= j2 < pbs.len() && pbs[j2] == qp_path_bytes(q@[i]);
            assert(gviews(g0)[j2] == (g0[j2].1.skey@, g0[j2].1.ekey@));
            assert(g0[j2].1.skey@ == group_skey(q@, pb));
            assert(g0[j2].1.ekey@ == group_ekey(q@, pb));
            assert(scans@[j2].skey@ == g0[j2].1.skey@);
            assert(lex_le_spec(scans@[j2].skey@, scans@[j2].ekey@));
        }
        assert(plan_satisfiable(q@));
    }
    Ok(scans)
}

/// The path views of a group list.
pub open spec fn gpbs(gs: Seq<(Vec<u8>, Scan)>) -> Seq<Seq<u8>> {
    gs.map_values(|g: (Vec<u8>, Scan)| g.0@)
}

/// The range views of a group list.
pub open spec fn gviews(gs: Seq<(Vec<u8>, Scan)>) -> Seq<(Seq<u8>, Seq<u8>)> {
    gs.map_values(|g: (Vec<u8>, Scan)| (g.1.skey@, g.1.ekey@))
}

/// Without a strict order either way, two byte keys are the same, so
/// the non-strict order holds exactly when the reverse strict order
/// does not.
pub proof fn lemma_lex_total(a: Seq<u8>, b: Seq<u8>)
    ensures
        lex_le_spec(a, b) <==> !lex_lt_spec(b, a),
{
    if !lex_lt_spec(b, a) && !lex_lt_spec(a, b) {
        lemma_lex_connected(a, b);
    }
    if lex_lt_spec(a, b) && lex_lt_spec(b, a) {
        crate::bytes::lemma_lex_trans(a, b, a);
        lemma_lex_irrefl(a);
    }
    if lex_lt_spec(b, a) && a == b {
        lemma_lex_irrefl(a);
    }
}

/// Extending the query by one predicate leaves the collapsed bounds of
/// every other path group unchanged, and folds the predicate's own
/// range into the bounds of its path group.
proof fn lemma_group_extend(q: Seq<QP>, i: int, pb: Seq<u8>)
    requires
        0 <= i < q.len(),
    ensures
        qp_path_bytes(q[i]) != pb ==> group_skey(q.take(i + 1), pb) == group_skey(q.take(i), pb)
            && group_ekey(q.take(i + 1), pb) == group_ekey(q.take(i), pb) && (occurs(
            q.take(i + 1),
            pb,
        ) == occurs(q.take(i), pb)),
        qp_path_bytes(q[i]) == pb && occurs(q.take(i), pb) ==> group_skey(q.take(i + 1), pb)
            == lex_max(group_skey(q.take(i), pb), spec_scan_range(q[i]).0) && group_ekey(
            q.take(i + 1),
            pb,
        ) == lex_min(group_ekey(q.take(i), pb), spec_scan_range(q[i]).1),
        qp_path_bytes(q[i]) == pb && !occurs(q.take(i), pb) ==> group_skey(q.take(i + 1), pb)
            == spec_scan_range(q[i]).0 && group_ekey(q.take(i + 1), pb) == spec_scan_range(q[i]).1,
        qp_path_bytes(q[i]) == pb ==> occurs(q.take(i + 1), pb),
{
    let qt = q.take(i);
    let qt2 = q.take(i + 1);
    assert(qt2.drop_last() =~= qt);
    assert(qt2.last() == q[i]);
    if qp_path_bytes(q[i]) != pb {
        if occurs(qt, pb) {
            let x = choose|x: int| 0 <= x < qt.len() && qp_path_bytes(qt[x]) == pb;
            assert(qt2[x] == qt[x]);
            assert(occurs(qt2, pb));
        }
        if occurs(qt2, pb) {
            let x = choose|x: int| 0 <= x < qt2.len() && qp_path_bytes(qt2[x]) == pb;
            assert(x < i);
            assert(qt[x] == qt2[x]);
            assert(occurs(qt, pb));
        }
    } else {
        assert(qp_path_bytes(qt2[i]) == pb);
        assert(occurs(qt2, pb));
    }
}

/// Inserts the scan range of predicate `q[i]` into the sorted group
/// list, collapsing it into the group of its path when one exists.
fn insert_group(
    groups: &mut Vec<(Vec<u8>, Scan)>,
    pb: Vec<u8>,
    skey: Vec<u8>,
    ekey: Vec<u8>,
    q: Ghost<Seq<QP>>,
    i: Ghost<int>,
)
    requires
        0 <= i@ < q@.len(),
        qp_path_bytes(q@[i@]) == pb@,
        spec_scan_range(q@[i@]).0 == skey@,
        spec_scan_range(q@[i@]).1 == ekey@,
        plan_groups_ok(q@.take(i@), gviews(old(groups)@), gpbs(old(groups)@)),
    ensures
        plan_groups_ok(q@.take(i@ + 1), gviews(final(groups)@), gpbs(final(groups)@)),
        final(groups)@.len() <= old(groups)@.len() + 1,
{
    let ghost qt = q@.take(i@);
    let ghost qt2 = q@.take(i@ + 1);
    let ghost opbs = gpbs(groups@);
    let ghost ogvs = gviews(groups@);
    proof {
        assert(qt2.drop_last() =~= qt);
        assert(qt2.last() == q@[i@]);
        // Distinctness of the sorted path list.
        assert forall|j1: int, j2: int| 0 <= j1 < opbs.len() && 0 <= j2 < opbs.len() && j1 != j2
            implies opbs[j1] != opbs[j2] by {
            if j1 < j2 {
                lemma_lex_irrefl(opbs[j1]);
            } else {
                lemma_lex_irrefl(opbs[j2]);
            }
        }
    }
    let pos = find_insert_pos(groups, &pb);
    if pos < groups.len() && !lex_lt(&pb, &groups[pos].0) {
        proof {
            lemma_lex_connected(pb@, groups@[pos as int].0@);
            assert(opbs[pos as int] == pb@);
        }
        let g = groups.remove(pos);
        let (gpb, mut sc) = g;
        if lex_lt(&sc.skey, &skey) {
            sc.skey = skey;
        }
        if lex_lt(&ekey, &sc.ekey) {
            sc.ekey = ekey;
        }
        groups.insert(pos, (gpb, sc));
        proof {
            let npbs = gpbs(groups@);
            let ngvs = gviews(groups@);
            assert(groups@ =~= old(groups)@.update(pos as int, groups@[pos as int]));
            assert(npbs =~= opbs);
            assert(ngvs[pos as int].0 == lex_max(ogvs[pos as int].0, skey@));
            assert(ngvs[pos as int].1 == lex_min(ogvs[pos as int].1, ekey@));
            assert forall|x: int| 0 <= x < ngvs.len() && x != pos implies ngvs[x] == ogvs[x] by {
                assert(groups@[x] == old(groups)@[x]);
            }
            assert(occurs(qt, pb@));
            assert forall|j: int| 0 <= j < npbs.len() implies occurs(qt2, #[trigger] npbs[j]) by {
                lemma_group_extend(q@, i@, npbs[j]);
            }
            assert forall|x: int| 0 <= x < qt2.len() implies exists|j: int|
                0 <= j < npbs.len() && npbs[j] == qp_path_bytes(#[trigger] qt2[x]) by {
                if x < i@ {
                    assert(qt2[x] == qt[x]);
                    let j = choose|j: int|
                        0 <= j < opbs.len() && opbs[j] == qp_path_bytes(qt[x]);
                    assert(npbs[j] == qp_path_bytes(qt2[x]));
                } else {
                    assert(npbs[pos as int] == qp_path_bytes(qt2[x]));
                }
            }
            assert forall|j: int| 0 <= j < ngvs.len() implies (#[trigger] ngvs[j]).0
                == group_skey(qt2, npbs[j]) && ngvs[j].1 == group_ekey(qt2, npbs[j]) by {
                lemma_group_extend(q@, i@, npbs[j]);
                if j != pos {
                    assert(npbs[j] != pb@);
                }
            }
        }
    } else {
        proof {
            // The path is new: nothing in the sorted list equals it.
            assert forall|j: int| 0 <= j < opbs.len() implies opbs[j] != pb@ by {
                if j < pos {
                    lemma_lex_irrefl(pb@);
                } else if pos < opbs.len() {
                    if j == pos {
                        lemma_lex_total(pb@, opbs[j]);
                        if opbs[j] == pb@ {
                            lemma_lex_irrefl(pb@);
                        }
                    } else {
                        lemma_lex_total(pb@, opbs[pos as int]);
                        if opbs[j] == pb@ {
                            crate::bytes::lemma_lex_trans(opbs[pos as int], opbs[j], pb@);
                        }
                    }
                }
            }
            assert(!occurs(qt, pb@)) by {
                if occurs(qt, pb@) {
                    let x = choose|x: int| 0 <= x < qt.len() && qp_path_bytes(qt[x]) == pb@;
                    let j = choose|j: int|
                        0 <= j < opbs.len() && opbs[j] == qp_path_bytes(qt[x]);
                    assert(opbs[j] == pb@);
                }
            }
        }
        groups.insert(pos, (pb, Scan { skey, ekey }));
        proof {
            let npbs = gpbs(groups@);
            let ngvs = gviews(groups@);
            assert(groups@ =~= old(groups)@.insert(pos as int, groups@[pos as int]));
            assert(npbs.len() == opbs.len() + 1);
            assert(npbs[pos as int] == pb@);
            assert(ngvs[pos as int] == (skey@, ekey@));
            assert forall|x: int| 0 <= x < pos implies npbs[x] == opbs[x] && ngvs[x] == ogvs[x] by {
                assert(groups@[x] == old(groups)@[x]);
            }
            assert forall|x: int| pos < x < npbs.len() implies npbs[x] == opbs[x - 1] && ngvs[x]
                == ogvs[x - 1] by {
                assert(groups@[x] == old(groups)@[x - 1]);
            }
            assert forall|j: int| 0 <= j < npbs.len() implies occurs(qt2, #[trigger] npbs[j]) by {
                lemma_group_extend(q@, i@, npbs[j]);
                if j != pos {
                    assert(occurs(qt, npbs[j]));
                }
            }
            assert forall|x: int| 0 <= x < qt2.len() implies exists|j: int|
                0 <= j < npbs.len() && npbs[j] == qp_path_bytes(#[trigger] qt2[x]) by {
                if x < i@ {
                    assert(qt2[x] == qt[x]);
                    let j = choose|j: int|
                        0 <= j < opbs.len() && opbs[j] == qp_path_bytes(qt[x]);
                    if j < pos {
                        assert(npbs[j] == qp_path_bytes(qt2[x]));
                    } else {
                        assert(npbs[j + 1] == qp_path_bytes(qt2[x]));
                    }
                } else {
                    assert(npbs[pos as int] == qp_path_bytes(qt2[x]));
                }
            }
            assert forall|j1: int, j2: int| 0 <= j1 < j2 < npbs.len() implies lex_lt_spec(
                #[trigger] npbs[j1],
                #[trigger] npbs[j2],
            ) by {
                if j1 < pos && j2 < pos {
                } else if j1 < pos && j2 == pos {
                    assert(lex_lt_spec(opbs[j1], pb@));
                } else if j1 < pos && j2 > pos {
                    assert(lex_lt_spec(opbs[j1], opbs[j2 - 1]) || j1 == j2 - 1);
                    assert(npbs[j2] == opbs[j2 - 1]);
                } else if j1 == pos {
                    assert(npbs[j2] == opbs[j2 - 1]);
                    assert(j2 - 1 >= pos);
                    if j2 - 1 == pos {
                        assert(!lex_lt_spec(opbs[pos as int], pb@));
                        lemma_lex_total(pb@, opbs[pos as int]);
                        if !lex_lt_spec(pb@, opbs[pos as int]) {
                            lemma_lex_connected(pb@, opbs[pos as int]);
                            assert(opbs[pos as int] == pb@);
                            assert(false);
                        }
                    } else {
                        assert(lex_lt_spec(opbs[pos as int], opbs[j2 - 1]));
                        assert(!lex_lt_spec(opbs[pos as int], pb@));
                        lemma_lex_total(opbs[pos as int], pb@);
                        if !lex_lt_spec(pb@, opbs[pos as int]) {
                            lemma_lex_connected(pb@, opbs[pos as int]);
                            assert(false);
                        }
                        crate::bytes::lemma_lex_trans(pb@, opbs[pos as int], opbs[j2 - 1]);
                    }
                } else {
                    assert(npbs[j1] == opbs[j1 - 1]);
                    assert(npbs[j2] == opbs[j2 - 1]);
                }
            }
            assert forall|j: int| 0 <= j < ngvs.len() implies (#[trigger] ngvs[j]).0
                == group_skey(qt2, npbs[j]) && ngvs[j].1 == group_ekey(qt2, npbs[j]) by {
                lemma_group_extend(q@, i@, npbs[j]);
                if j != pos {
                    assert(npbs[j] != pb@) by {
                        if j < pos {
                            assert(npbs[j] == opbs[j]);
                        } else {
                            assert(npbs[j] == opbs[j - 1]);
                        }
                    }
                    if j < pos {
                        assert(ngvs[j] == ogvs[j]);
                        assert(ogvs[j].0 == group_skey(qt, opbs[j]));
                    } else {
                        assert(ngvs[j] == ogvs[j - 1]);
                        assert(ogvs[j - 1].0 == group_skey(qt, opbs[j - 1]));
                    }
                }
            }
        }
    }
}

/// The first position whose group path does not come before `pb`.
fn find_insert_pos(groups: &Vec<(Vec<u8>, Scan)>, pb: &Vec<u8>) -> (pos: usize)
    ensures
        pos <= groups@.len(),
        forall|j: int| 0 <= j < pos ==> lex_lt_spec((#[trigger] groups@[j]).0@, pb@),
        pos < groups@.len() ==> !lex_lt_spec(groups@[pos as int].0@, pb@),
{
    let n = groups.len();
    let mut pos: usize = 0;
    while pos < n
        invariant
            pos <= n,
            n == groups@.len(),
            forall|j: int| 0 <= j < pos ==> lex_lt_spec((#[trigger] groups@[j]).0@, pb@),
        decreases n - pos,
    {
        if !lex_lt(&groups[pos].0, pb) {
            return pos;
        }
        pos = pos + 1;
    }
    pos
}

/// A key lies above the later of two bounds exactly when it lies above
/// both.
proof fn lemma_lex_max_le(a: Seq<u8>, b: Seq<u8>, k: Seq<u8>)
    ensures
        lex_le_spec(lex_max(a, b), k) <==> (lex_le_spec(a, k) && lex_le_spec(b, k)),
{
    if lex_le_spec(lex_max(a, b), k) {
        if lex_lt_spec(a, b) {
            if lex_lt_spec(b, k) {
                crate::bytes::lemma_lex_trans(a, b, k);
            }
        } else {
            lemma_lex_total(a, b);
            if b != a && lex_lt_spec(b, a) && lex_lt_spec(a, k) {
                crate::bytes::lemma_lex_trans(b, a, k);
            }
            if !lex_lt_spec(b, a) {
                lemma_lex_connected(a, b);
            }
        }
    }
}

/// A key lies below the earlier of two bounds exactly when it lies
/// below both.
proof fn lemma_lex_min_lt(a: Seq<u8>, b: Seq<u8>, k: Seq<u8>)
    ensures
        lex_lt_spec(k, lex_min(a, b)) <==> (lex_lt_spec(k, a) && lex_lt_spec(k, b)),
{
    if lex_lt_spec(k, lex_min(a, b)) {
        if lex_lt_spec(b, a) {
            crate::bytes::lemma_lex_trans(k, b, a);
        } else if lex_lt_spec(a, b) {
            crate::bytes::lemma_lex_trans(k, a, b);
        } else {
            lemma_lex_connected(a, b);
        }
    }
}

/// Collapsing a path group is sound and complete: a key lies in the
/// collapsed scan of the group exactly when it lies in the range of
/// every predicate that groups under that path. This is why one range
/// scan per distinct path answers the whole conjunction.
pub proof fn lemma_collapsed_range(q: Seq<QP>, pb: Seq<u8>, k: Seq<u8>)
    requires
        occurs(q, pb),
    ensures
        (lex_le_spec(group_skey(q, pb), k) && lex_lt_spec(k, group_ekey(q, pb))) <==> (forall|
            i: int,
        |
            0 <= i < q.len() && qp_path_bytes(#[trigger] q[i]) == pb ==> (lex_le_spec(
                spec_scan_range(q[i]).0,
                k,
            ) && lex_lt_spec(k, spec_scan_range(q[i]).1))),
    decreases q.len(),
{
    let qd = q.drop_last();
    let last = q.last();
    let n = q.len() as int;
    assert(forall|i: int| 0 <= i < n - 1 ==> #[trigger] qd[i] == q[i]);
    if qp_path_bytes(last) == pb {
        if occurs(qd, pb) {
            lemma_collapsed_range(qd, pb, k);
            lemma_lex_max_le(group_skey(qd, pb), spec_scan_range(last).0, k);
            lemma_lex_min_lt(group_ekey(qd, pb), spec_scan_range(last).1, k);
            assert((lex_le_spec(group_skey(q, pb), k) && lex_lt_spec(k, group_ekey(q, pb))) <==> ((
            forall|i: int|
                0 <= i < qd.len() && qp_path_bytes(#[trigger] qd[i]) == pb ==> (lex_le_spec(
                    spec_scan_range(qd[i]).0,
                    k,
                ) && lex_lt_spec(k, spec_scan_range(qd[i]).1))) && lex_le_spec(
                spec_scan_range(last).0,
                k,
            ) && lex_lt_spec(k, spec_scan_range(last).1)));
            if lex_le_spec(group_skey(q, pb), k) && lex_lt_spec(k, group_ekey(q, pb)) {
                assert forall|i: int|
                    0 <= i < q.len() && qp_path_bytes(#[trigger] q[i]) == pb implies (lex_le_spec(
                    spec_scan_range(q[i]).0,
                    k,
                ) && lex_lt_spec(k, spec_scan_range(q[i]).1)) by {
                    if i < n - 1 {
                        assert(qd[i] == q[i]);
                    } else {
                        assert(q[i] == last);
                    }
                }
            } else {
                if forall|i: int|
                    0 <= i < q.len() && qp_path_bytes(#[trigger] q[i]) == pb ==> (lex_le_spec(
                        spec_scan_range(q[i]).0,
                        k,
                    ) && lex_lt_spec(k, spec_scan_range(q[i]).1)) {
                    assert forall|i: int|
                        0 <= i < qd.len() && qp_path_bytes(#[trigger] qd[i]) == pb implies (
                    lex_le_spec(spec_scan_range(qd[i]).0, k) && lex_lt_spec(
                        k,
                        spec_scan_range(qd[i]).1,
                    )) by {
                        assert(qd[i] == q[i]);
                    }
                    assert(lex_le_spec(spec_scan_range(last).0, k));
                    assert(false);
                }
            }
        } else {
            assert(group_skey(q, pb) == spec_scan_range(last).0);
            assert(group_ekey(q, pb) == spec_scan_range(last).1);
            assert forall|i: int|
                0 <= i < n - 1 implies qp_path_bytes(#[trigger] q[i]) != pb by {
                if qp_path_bytes(q[i]) == pb {
                    assert(qd[i] == q[i]);
                    assert(occurs(qd, pb));
                }
            }
        }
    } else {
        assert(occurs(qd, pb)) by {
            let i = choose|i: int| 0 <= i < q.len() && qp_path_bytes(#[trigger] q[i]) == pb;
            assert(i < n - 1);
            assert(qd[i] == q[i]);
        }
        lemma_collapsed_range(qd, pb, k);
        assert((lex_le_spec(group_skey(q, pb), k) && lex_lt_spec(k, group_ekey(q, pb))) <==> (
        forall|i: int|
            0 <= i < qd.len() && qp_path_bytes(#[trigger] qd[i]) == pb ==> (lex_le_spec(
                spec_scan_range(qd[i]).0,
                k,
            ) && lex_lt_spec(k, spec_scan_range(qd[i]).1))));
        if forall|i: int|
            0 <= i < qd.len() && qp_path_bytes(#[trigger] qd[i]) == pb ==> (lex_le_spec(
                spec_scan_range(qd[i]).0,
                k,
            ) && lex_lt_spec(k, spec_scan_range(qd[i]).1)) {
            assert forall|i: int|
                0 <= i < q.len() && qp_path_bytes(#[trigger] q[i]) == pb implies (lex_le_spec(
                spec_scan_range(q[i]).0,
                k,
            ) && lex_lt_spec(k, spec_scan_range(q[i]).1)) by {
                assert(i < n - 1);
                assert(qd[i] == q[i]);
            }
        } else {
            let i = choose|i: int|
                0 <= i < qd.len() && qp_path_bytes(#[trigger] qd[i]) == pb && !(lex_le_spec(
                    spec_scan_range(qd[i]).0,
                    k,
                ) && lex_lt_spec(k, spec_scan_range(qd[i]).1));
            assert(q[i] == qd[i]);
        }
    }
}

} // verus!
