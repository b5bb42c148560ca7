//! An engine that keeps typed, in-memory values in sync with a tree-shaped
//! document of maps, sequences, text and counters, each node addressable by a
//! stable object identity.
//!
//! The two central traits are `Reconcile`, which writes a value into the
//! document while disturbing as little existing structure as possible, and
//! `Hydrate`, which reconstructs a value by reading a subtree of the document.
//! Identity keys let reconciliation tell "the same logical item, update it in
//! place" apart from "a different item, replace it"; a keyed LCS diff turns a
//! before/after list comparison into a minimal edit script.
//!
//! The document store itself ([`Doc`]) records every mutation as a plain
//! write operation, so a caller can replay a reconciliation into an external
//! document engine that owns merge semantics.

use vstd::prelude::*;

verus! {

mod bytes;
mod counter;
mod doc;
mod hydrate;
mod prop;
mod impls;
mod laws;
mod map;
mod reconcile;
mod seq;
mod text;

pub use bytes::ByteVec;
pub use counter::{lemma_counter_increments_commute, Counter};
pub use doc::{Doc, DocError, Node, NodeM, ObjData, ObjKind, ObjM, ScalarVal, ScalarM, WriteOp};
pub use hydrate::{
    hydrate, hydrate_path, hydrate_prop, node_reads, read_string, read_uint, scalar_reads,
    slot_reads, strip_unexpected, Hydrate, HydrateError, Unexpected, ROOT,
};
pub use laws::{
    lemma_identity_preserved, lemma_scalar_idempotent, lemma_scalar_round_trip,
    lemma_string_round_trip, lemma_uint_round_trip,
};
pub use map::{dec_val, hydrate_map_entries, hydrate_parsed_entries, is_dec, parse_u64_key,
    reconcile_map_entries};
pub use prop::{Prop, PropM};
pub use seq::{
    diff_correspondence, element_from, item_token, position_from, reconcile_seq_items, script_wf,
    token_of, DiffChunk, DiffToken, TokenM,
};
pub use text::{chars_string, replay_splices, spliced, str_chars, Splice, SpliceM, Text,
    TextChange};
pub use reconcile::{
    clone_key, forced_replacement, hydrate_key, key_eq, kind_fitting, load_key_m, reconcile,
    reconcile_insert,
    reconcile_prop, target_good, target_frame, target_node, target_ok, CounterReconciler, KeyM,
    KeyVal, LoadKey, LoadKeyM, MapReconciler, NoKey, Reconcile, ReconcileError, Reconciler,
    SeqReconciler, StaleHeads, Target, TargetM, TextReconciler,
};

} // verus!
