use vstd::prelude::*;

use crate::bytes::lex_lt_spec;
use crate::errors::DocDbError;
use crate::executor::query_execute;
use crate::planner::query_plan;
use crate::values::{str_bytes, value_lt, TaggableValue};

verus! {

/// A query predicate over a path and a value. A query is a list of
/// predicates that are all required to hold (a conjunction).
#[derive(Debug, PartialEq)]
pub enum QP {
    E { p: Vec<TaggableValue>, v: TaggableValue },
    GT { p: Vec<TaggableValue>, v: TaggableValue },
    GTE { p: Vec<TaggableValue>, v: TaggableValue },
    LT { p: Vec<TaggableValue>, v: TaggableValue },
    LTE { p: Vec<TaggableValue>, v: TaggableValue },
}

impl Clone for QP {
    fn clone(&self) -> (r: QP)
        ensures
            qp_path(r) == qp_path(*self),
            qp_value(r) == qp_value(*self),
            qp_kind_rank(r) == qp_kind_rank(*self),
    {
        match self {
            QP::E { p, v } => QP::E { p: clone_path(p), v: v.clone() },
            QP::GT { p, v } => QP::GT { p: clone_path(p), v: v.clone() },
            QP::GTE { p, v } => QP::GTE { p: clone_path(p), v: v.clone() },
            QP::LT { p, v } => QP::LT { p: clone_path(p), v: v.clone() },
            QP::LTE { p, v } => QP::LTE { p: clone_path(p), v: v.clone() },
        }
    }
}

/// Copies a path, component by component.
fn clone_path(p: &Vec<TaggableValue>) -> (r: Vec<TaggableValue>)
    ensures
        r@ == p@,
{
    let r = p.clone();
    proof {
        assert forall|i: int| 0 <= i < p@.len() implies r@[i] == p@[i] by {
            assert(vstd::pervasive::cloned(p@[i], r@[i]));
        }
        assert(r@ =~= p@);
    }
    r
}

/// The path of a predicate.
pub open spec fn qp_path(qp: QP) -> Seq<TaggableValue> {
    match qp {
        QP::E { p, v } => p@,
        QP::GT { p, v } => p@,
        QP::GTE { p, v } => p@,
        QP::LT { p, v } => p@,
        QP::LTE { p, v } => p@,
    }
}

/// The value of a predicate.
pub open spec fn qp_value(qp: QP) -> TaggableValue {
    match qp {
        QP::E { p, v } => v,
        QP::GT { p, v } => v,
        QP::GTE { p, v } => v,
        QP::LT { p, v } => v,
        QP::LTE { p, v } => v,
    }
}

/// The rank a predicate kind sorts by when everything else ties.
pub open spec fn qp_kind_rank(qp: QP) -> int {
    match qp {
        QP::E { .. } => 1,
        QP::GT { .. } => 2,
        QP::GTE { .. } => 3,
        QP::LT { .. } => 4,
        QP::LTE { .. } => 5,
    }
}

/// The order predicates sort under: by path, then by value under the
/// engine's total order, and by predicate kind last, so that the
/// predicates of one path stand together.
pub open spec fn qp_lt_spec(a: QP, b: QP) -> bool {
    if path_lt_spec(qp_path(a), qp_path(b)) {
        true
    } else if path_lt_spec(qp_path(b), qp_path(a)) {
        false
    } else if value_lt(qp_value(a), qp_value(b)) {
        true
    } else if value_lt(qp_value(b), qp_value(a)) {
        false
    } else {
        qp_kind_rank(a) < qp_kind_rank(b)
    }
}

/// Lexicographic order on paths, component by component under the
/// engine's total order on scalars.
pub open spec fn path_lt_spec(a: Seq<TaggableValue>, b: Seq<TaggableValue>) -> bool
    decreases a.len(),
{
    if b.len() == 0 {
        false
    } else if a.len() == 0 {
        true
    } else if value_lt(a[0], b[0]) {
        true
    } else if value_lt(b[0], a[0]) {
        false
    } else {
        path_lt_spec(a.drop_first(), b.drop_first())
    }
}

impl QP {
    /// Whether this predicate sorts strictly before the other.
    pub fn lt(&self, other: &QP) -> (r: bool)
        ensures
            r == qp_lt_spec(*self, *other),
    {
        let (sp, sv) = self.parts();
        let (op, ov) = other.parts();
        if path_lt(sp, op) {
            return true;
        }
        if path_lt(op, sp) {
            return false;
        }
        if crate::values::value_lt_exec(sv, ov) {
            return true;
        }
        if crate::values::value_lt_exec(ov, sv) {
            return false;
        }
        self.kind_rank() < other.kind_rank()
    }

    /// The path and value this predicate carries.
    pub fn parts(&self) -> (r: (&Vec<TaggableValue>, &TaggableValue))
        ensures
            r.0@ == qp_path(*self),
            *r.1 == qp_value(*self),
    {
        match self {
            QP::E { p, v } => (p, v),
            QP::GT { p, v } => (p, v),
            QP::GTE { p, v } => (p, v),
            QP::LT { p, v } => (p, v),
            QP::LTE { p, v } => (p, v),
        }
    }

    /// The tie-breaking rank of this predicate's kind.
    pub fn kind_rank(&self) -> (r: u8)
        ensures
            r as int == qp_kind_rank(*self),
    {
        match self {
            QP::E { .. } => 1,
            QP::GT { .. } => 2,
            QP::GTE { .. } => 3,
            QP::LT { .. } => 4,
            QP::LTE { .. } => 5,
        }
    }
}

/// Compares two paths under the engine's component order.
pub fn path_lt(a: &Vec<TaggableValue>, b: &Vec<TaggableValue>) -> (r: bool)
    ensures
        r == path_lt_spec(a@, b@),
{
    let mut i: usize = 0;
    proof {
        assert(a@.skip(0) =~= a@);
        assert(b@.skip(0) =~= b@);
    }
    loop
        invariant
            i <= a.len(),
            i <= b.len(),
            path_lt_spec(a@, b@) == path_lt_spec(a@.skip(i as int), b@.skip(i as int)),
        decreases a.len() - i,
    {
        if i >= b.len() {
            return false;
        }
        if i >= a.len() {
            return true;
        }
        if crate::values::value_lt_exec(&a[i], &b[i]) {
            return true;
        }
        if crate::values::value_lt_exec(&b[i], &a[i]) {
            return false;
        }
        proof {
            assert(a@.skip(i as int).drop_first() =~= a@.skip(i + 1));
            assert(b@.skip(i as int).drop_first() =~= b@.skip(i + 1));
        }
        i = i + 1;
    }
}

/// A query: the conjunction of its predicates.
pub type Query = Vec<QP>;

/// How much work a query did.
#[derive(Debug, PartialEq)]
pub struct QueryStats {
    pub scans: u32,
}

/// The ids of the matching documents, in ascending id order, and the
/// work done.
#[derive(Debug)]
pub struct QueryResult {
    pub results: Vec<String>,
    pub stats: QueryStats,
}

/// Runs a conjunction of predicates against the store: plans the scans
/// (one per distinct path, rejecting unsatisfiable conjunctions with
/// `InvalidQuery` before any input/output) and executes them, returning
/// the ids of the documents matching every predicate in ascending id
/// order. The planner's own errors are pinned to their inputs; once the
/// plan stands, only the key-value store's `Storage` failures remain.
pub fn search_index(db: &sled::Db, q: Query) -> (r: Result<QueryResult, DocDbError>)
    requires
        q@.len() < 0x1_0000_0000,
    ensures
        r matches Ok(qr) ==> exists|sv: Seq<(Seq<u8>, Seq<u8>)>|
            #[trigger] crate::planner::plan_post(q@, sv) && crate::executor::execute_post(
                kv_contents_of(db),
                sv,
                qr.results@,
                qr.stats.scans,
            ),
        r == Err::<QueryResult, DocDbError>(DocDbError::BadValue) <==> !crate::planner::all_qps_wf(
            q@,
        ),
        r == Err::<QueryResult, DocDbError>(DocDbError::InvalidQuery) <==> (
        crate::planner::all_qps_wf(q@) && !crate::planner::plan_satisfiable(q@)),
        crate::planner::all_qps_wf(q@) && crate::planner::plan_satisfiable(q@) ==> (r is Ok
            || r matches Err(DocDbError::Storage(_))),
        r matches Err(e) ==> (e is BadValue || e is InvalidQuery || e is Storage),
{
    let ghost qv = q@;
    let scans = match query_plan(q) {
        Ok(scans) => scans,
        Err(e) => {
            return Err(e);
        },
    };
    let query_result = match query_execute(&scans, db) {
        Ok(qr) => qr,
        Err(e) => {
            return Err(e);
        },
    };
    proof {
        assert(crate::planner::plan_post(qv, crate::planner::scans_view(scans@)));
    }
    Ok(query_result)
}

/// The contents of the key-value store a search runs against.
pub open spec fn kv_contents_of(db: &sled::Db) -> Map<Seq<u8>, Seq<u8>> {
    crate::kv::kv_contents(*db)
}

} // verus!
