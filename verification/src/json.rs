use vstd::prelude::*;

use crate::values::{is_nan_bits, str_bytes};

verus! {

/// A JSON document body: the value stored under a doc id. Numbers are
/// 64-bit IEEE-754 floating point values carried by their raw bit
/// pattern; objects are field lists in insertion order.
#[derive(Debug, PartialEq)]
pub enum JsonValue {
    Null,
    Bool(bool),
    Number(u64),
    String(String),
    Array(Vec<JsonValue>),
    Object(Vec<(String, JsonValue)>),
}

/// A body the engine accepts: no NaN numbers, no reserved separator
/// bytes inside strings or field names, and no repeated field name
/// within one object.
pub open spec fn json_wf(v: JsonValue) -> bool
    decreases v,
{
    match v {
        JsonValue::Null => true,
        JsonValue::Bool(_) => true,
        JsonValue::Number(n) => !is_nan_bits(n),
        JsonValue::String(s) => bytes_sep_free(str_bytes(s@)),
        JsonValue::Array(a) => forall|i: int| 0 <= i < a@.len() ==> json_wf(#[trigger] a@[i]),
        JsonValue::Object(o) => {
            &&& forall|i: int| 0 <= i < o@.len() ==> json_wf(#[trigger] o@[i].1)
            &&& forall|i: int|
                0 <= i < o@.len() ==> bytes_sep_free(str_bytes(#[trigger] o@[i].0@))
            &&& forall|i: int, j: int| 0 <= i < j < o@.len() ==> o@[i].0@ != o@[j].0@
        },
    }
}

/// Every byte stays clear of the two reserved separator bytes.
pub open spec fn bytes_sep_free(b: Seq<u8>) -> bool {
    forall|i: int| 0 <= i < b.len() ==> b[i] >= 2
}


/// Whether every byte of the string stays clear of the separators.
fn string_sep_free(s: &String) -> (r: bool)
    ensures
        r == bytes_sep_free(str_bytes(s@)),
{
    crate::values::str_has_no_separators(s.as_str())
}

impl JsonValue {
    /// Whether the engine accepts this body: no NaN numbers, no
    /// reserved separator bytes inside strings or field names, and no
    /// repeated field name within one object.
    #[verifier::loop_isolation(false)]
    pub fn is_wf(&self) -> (r: bool)
        ensures
            r == json_wf(*self),
        decreases *self,
    {
        match self {
            JsonValue::Null => true,
            JsonValue::Bool(_) => true,
            JsonValue::Number(n) => {
                let exp_all_ones = (*n >> 52) & 0x7ff == 0x7ff;
                let mantissa_nonzero = *n & 0xf_ffff_ffff_ffff != 0;
                !(exp_all_ones && mantissa_nonzero)
            },
            JsonValue::String(s) => string_sep_free(s),
            JsonValue::Array(a) => {
                let n = a.len();
                let mut i: usize = 0;
                while i < n
                    invariant
                        i <= n,
                        forall|j: int| 0 <= j < i ==> json_wf(#[trigger] a@[j]),
                    decreases n - i,
                {
                    proof {
                        assert(decreases_to!(*self => a@[i as int]));
                    }
                    if !a[i].is_wf() {
                        return false;
                    }
                    i = i + 1;
                }
                true
            },
            JsonValue::Object(o) => {
                let n = o.len();
                let mut i: usize = 0;
                while i < n
                    invariant
                        i <= n,
                        forall|j: int| 0 <= j < i ==> json_wf(#[trigger] o@[j].1),
                        forall|j: int|
                            0 <= j < i ==> bytes_sep_free(str_bytes(#[trigger] o@[j].0@)),
                        forall|j1: int, j2: int| 0 <= j1 < j2 < i ==> o@[j1].0@ != o@[j2].0@,
                    decreases n - i,
                {
                    if !string_sep_free(&o[i].0) {
                        return false;
                    }
                    proof {
                        assert(decreases_to!(*self => o@[i as int].1));
                    }
                    if !o[i].1.is_wf() {
                        return false;
                    }
                    let mut j: usize = 0;
                    while j < i
                        invariant
                            j <= i < n,
                            forall|j2: int| 0 <= j2 < j ==> o@[j2].0@ != o@[i as int].0@,
                        decreases i - j,
                    {
                        if o[j].0 == o[i].0 {
                            return false;
                        }
                        j = j + 1;
                    }
                    i = i + 1;
                }
                true
            },
        }
    }
}

} // verus!
