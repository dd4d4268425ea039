//! An embedded, schemaless document store that indexes every scalar
//! leaf of every stored JSON-like document, so that conjunctions of
//! equality and range predicates over arbitrary paths are answered by
//! range scans on an ordered byte-keyed key-value store (sled).
//!
//! The three load-bearing pieces are verified against mathematical
//! models: an order-preserving binary encoding of heterogeneous
//! scalars (bytewise lexicographic order on encoded keys coincides
//! with the engine's total order), the document flattening and index
//! key layout that make every `(path, value, doc id)` lookup a bounded
//! range scan, and the planner/executor pair that collapses a
//! conjunction into one scan per distinct path, rejects unsatisfiable
//! plans, and intersects scan results. Stored bodies round-trip
//! through a verified self-describing binary codec.

use vstd::prelude::*;

mod bytes;
mod codec;
mod errors;
mod executor;
mod flatten;
mod json;
mod keys;
mod kv;
mod laws;
mod planner;
mod query;
mod store;
mod values;

pub use bytes::lex_lt;
pub use codec::{decode_body, encode_body, lemma_body_round_trip, JsonModel};
pub use errors::DocDbError;
pub use executor::{query_execute, scan};
pub use flatten::get_path_values;
pub use json::JsonValue;
pub use keys::{
    decode_index_key_docid, decode_tagged_str, encode_document_key, encode_index_key,
    encode_index_query_p_end_key, encode_index_query_p_start_key, encode_index_query_pv_end_key,
    encode_index_query_pv_start_key, path_length, path_prefix, query_lower_bound,
    query_upper_bound, DecodeError,
};
pub use kv::{new_database, BatchOp};
pub use laws::{
    lemma_delete_erases, lemma_equality_search_finds, lemma_index_key_suffix,
    lemma_overwrite_cleans, lemma_set_then_get, lemma_set_then_search_finds,
};
pub use planner::{
    lemma_collapsed_range, query_plan, scan_range_eq, scan_range_gt, scan_range_gte, scan_range_lt,
    scan_range_lte, Scan,
};
pub use query::{search_index, Query, QueryResult, QueryStats, QP};
pub use store::{delete_document, get_document, insert_document, set_document};
pub use values::{lemma_encode_tagged_order, tv, value_lt, TaggableValue};
