//! The sequence diff engine: an identity-aware LCS diff turns a before/after
//! list comparison into a minimal script of set, insert and delete steps,
//! applied through a sequence cursor so that keyed elements are updated in
//! place and keep their object identity.

use vstd::prelude::*;

use crate::doc::{Doc, NodeM};
use crate::prop::{Prop, PropM};
use crate::reconcile::{
    lemma_frame_refl, lemma_frame_retarget, lemma_frame_trans, lemma_good_preserved, target_frame,
    KeyVal, LoadKey, Reconcile, ReconcileError, Reconciler, SeqReconciler, TargetM,
};

verus! {

// ---------------------------------------------------------------------------
// Diff tokens and chunks
// ---------------------------------------------------------------------------

/// What stands for one list element during diffing: its identity key when it
/// has one, else its position. Positional tokens make keyless elements match
/// only the same index, so keyless lists are diffed purely structurally.
#[derive(Debug, PartialEq, Eq, Hash)]
pub enum DiffToken {
    Keyed(KeyVal),
    Pos(usize),
}

/// The mathematical form of a [`DiffToken`].
pub enum TokenM {
    Keyed(crate::reconcile::KeyM),
    Pos(int),
}

impl View for DiffToken {
    type V = TokenM;

    open spec fn view(&self) -> TokenM {
        match self {
            DiffToken::Keyed(k) => TokenM::Keyed(k@),
            DiffToken::Pos(i) => TokenM::Pos(*i as int),
        }
    }
}

/// One step of a diff script over the old and new token sequences.
pub enum DiffChunk {
    Equal { old_index: usize, new_index: usize, len: usize },
    Delete { old_index: usize, old_len: usize, new_index: usize },
    Insert { old_index: usize, new_index: usize, new_len: usize },
    Replace { old_index: usize, old_len: usize, new_index: usize, new_len: usize },
}

/// A diff script is well formed from positions `(oi, ni)`: its steps carry
/// on from exactly those positions, stay in bounds, pair equal segments
/// elementwise, and together consume both sequences completely.
pub open spec fn script_wf_from(
    cs: Seq<DiffChunk>,
    old: Seq<TokenM>,
    new: Seq<TokenM>,
    oi: int,
    ni: int,
) -> bool
    decreases cs.len(),
{
    if cs.len() == 0 {
        oi == old.len() && ni == new.len()
    } else {
        match cs[0] {
            DiffChunk::Equal { old_index, new_index, len } => {
                &&& old_index as int == oi
                &&& new_index as int == ni
                &&& oi + len <= old.len()
                &&& ni + len <= new.len()
                &&& forall|k: int| 0 <= k < len as int ==> #[trigger] old[oi + k] == new[ni + k]
                &&& script_wf_from(cs.drop_first(), old, new, oi + len, ni + len)
            },
            DiffChunk::Delete { old_index, old_len, new_index } => {
                &&& old_index as int == oi
                &&& new_index as int == ni
                &&& oi + old_len <= old.len()
                &&& script_wf_from(cs.drop_first(), old, new, oi + old_len, ni)
            },
            DiffChunk::Insert { old_index, new_index, new_len } => {
                &&& old_index as int == oi
                &&& new_index as int == ni
                &&& ni + new_len <= new.len()
                &&& script_wf_from(cs.drop_first(), old, new, oi, ni + new_len)
            },
            DiffChunk::Replace { old_index, old_len, new_index, new_len } => {
                &&& old_index as int == oi
                &&& new_index as int == ni
                &&& oi + old_len <= old.len()
                &&& ni + new_len <= new.len()
                &&& script_wf_from(cs.drop_first(), old, new, oi + old_len, ni + new_len)
            },
        }
    }
}

/// A diff script is well formed for `old` and `new` when its steps start at
/// the beginning of both sequences.
pub open spec fn script_wf(cs: Seq<DiffChunk>, old: Seq<TokenM>, new: Seq<TokenM>) -> bool {
    script_wf_from(cs, old, new, 0, 0)
}

/// Relies on `similar::capture_diff_slices` with the LCS algorithm: the
/// returned operations appear in order, cover the whole of both slices with
/// contiguous, in-bounds ranges, and mark a segment `Equal` only where the
/// elements compare equal — which for [`DiffToken`] is equality of the
/// mathematical token values.
#[verifier::external_body]
fn lcs_diff(old_t: &Vec<DiffToken>, new_t: &Vec<DiffToken>) -> (r: Vec<DiffChunk>)
    ensures
        script_wf(
            r@,
            old_t@.map_values(|t: DiffToken| t@),
            new_t@.map_values(|t: DiffToken| t@),
        ),
{
    let ops = similar::capture_diff_slices(similar::Algorithm::Lcs, old_t, new_t);
    let mut out = Vec::new();
    for op in ops {
        out.push(match op {
            similar::DiffOp::Equal { old_index, new_index, len } => DiffChunk::Equal { old_index, new_index, len },
            similar::DiffOp::Delete { old_index, old_len, new_index } => DiffChunk::Delete { old_index, old_len, new_index },
            similar::DiffOp::Insert { old_index, new_index, new_len } => DiffChunk::Insert { old_index, new_index, new_len },
            similar::DiffOp::Replace { old_index, old_len, new_index, new_len } => DiffChunk::Replace { old_index, old_len, new_index, new_len },
        });
    }
    out
}

// ---------------------------------------------------------------------------
// The engine
// ---------------------------------------------------------------------------

/// An element of the reconciled sequence is accounted for: a scalar, a
/// freshly created object, or an object reference the old sequence already
/// held — the engine never invents or resurrects an identity.
pub open spec fn element_from(pre: Doc, g: int, n: crate::doc::NodeM) -> bool {
    match n {
        crate::doc::NodeM::Obj(t) => t >= pre.num_objs() || pre.list_m(g).contains(n),
        _ => true,
    }
}

/// The identity token a value itself offers when it stands at position `j`:
/// its key when it has one, else the position.
pub open spec fn item_token<T: Reconcile>(v: T, j: int) -> TokenM {
    match v.key_m() {
        crate::reconcile::LoadKeyM::Found(k) => TokenM::Keyed(k),
        _ => TokenM::Pos(j),
    }
}

/// One position of the reconciled sequence, accounted against the old one:
/// matched to old position `oi` — the identity tokens of the old element and
/// the item agree, and the element was set in place, keeping the old object
/// unless only a fresh one could take its kind — or, with no old position,
/// freshly inserted.
pub open spec fn position_from<T: Reconcile>(
    pre: Doc,
    g: int,
    items: Seq<T>,
    n: NodeM,
    j: int,
    o: Option<int>,
) -> bool {
    match o {
        Some(oi) => {
            &&& 0 <= oi < pre.list_m(g).len()
            &&& token_of::<T>(pre, g, oi) == item_token::<T>(items[j], j)
            &&& match n {
                NodeM::Obj(t) => pre.list_m(g)[oi] == NodeM::Obj(t) || t >= pre.num_objs(),
                _ => true,
            }
        },
        None => match n {
            NodeM::Obj(t) => t >= pre.num_objs(),
            _ => true,
        },
    }
}

/// The diff correspondence of spec's sequence engine: every position of the
/// reconciled sequence is either matched, in place, to a distinct old
/// position — and the matched old positions appear in strictly increasing
/// order, so retained elements are never reordered — or freshly inserted.
pub open spec fn diff_correspondence<T: Reconcile>(
    pre: Doc,
    g: int,
    items: Seq<T>,
    cur: Seq<NodeM>,
    origin: Seq<Option<int>>,
) -> bool {
    &&& origin.len() == cur.len()
    &&& forall|j: int|
        0 <= j < cur.len() ==> position_from::<T>(pre, g, items, cur[j], j, #[trigger] origin[j])
    &&& forall|j1: int, j2: int|
        0 <= j1 < j2 < cur.len() && (#[trigger] origin[j1]) is Some && (#[trigger] origin[j2])
            is Some ==> origin[j1]->0 < origin[j2]->0
}

/// The identity token of the element at `index` of object `obj`: its
/// hydrated key when `T` finds one there, else its position — which is what
/// makes keyless elements match only themselves.
pub open spec fn token_of<T: Reconcile>(d: Doc, obj: int, index: int) -> TokenM {
    if index < d.list_m(obj).len() {
        match T::slot_key_m(d, obj, PropM::Index(index)) {
            crate::reconcile::LoadKeyM::Found(k) => TokenM::Keyed(k),
            _ => TokenM::Pos(index),
        }
    } else {
        TokenM::Pos(index)
    }
}

/// The identity token of the element at `index` of the document sequence:
/// its hydrated key if one was found, else its position.
fn old_token<T: Reconcile>(seq: &SeqReconciler, doc: &Doc, index: usize) -> (r: Result<
    DiffToken,
    ReconcileError,
>)
    requires
        doc.wf(),
        seq.ok(*doc),
    ensures
        r matches Ok(t) ==> t@ == token_of::<T>(*doc, seq.obj as int, index as int),
{
    match seq.hydrate_item_key::<T>(doc, index) {
        Ok(LoadKey::Found(k)) => Ok(DiffToken::Keyed(k)),
        Ok(_) => Ok(DiffToken::Pos(index)),
        Err(e) => Err(e),
    }
}

/// Reconcile `items` with the sequence at `seq`: diff the document's
/// identity tokens against the items' and replay the script, setting matched
/// elements in place, deleting dropped ones and inserting fresh ones, so
/// that afterwards the sequence has exactly one element per item.
#[verifier::loop_isolation(false)]
pub fn reconcile_seq_items<T: Reconcile>(seq: &SeqReconciler, doc: &mut Doc, items: &Vec<T>) -> (r:
    Result<(), ReconcileError>)
    requires
        old(doc).wf(),
        seq.ok(*old(doc)),
    ensures
        target_frame(
            TargetM::Slot { obj: seq.obj as int, prop: PropM::Index(0) },
            *old(doc),
            *final(doc),
        ),
        r is Ok ==> final(doc).objs_m()[seq.obj as int] is ListObj && final(doc).list_m(
            seq.obj as int,
        ).len() == items@.len(),
        r is Ok ==> forall|j: int|
            0 <= j < final(doc).list_m(seq.obj as int).len() ==> element_from(
                *old(doc),
                seq.obj as int,
                #[trigger] final(doc).list_m(seq.obj as int)[j],
            ),
        r is Ok ==> exists|origin: Seq<Option<int>>|
            diff_correspondence::<T>(
                *old(doc),
                seq.obj as int,
                items@,
                final(doc).list_m(seq.obj as int),
                origin,
            ),
        old(doc).list_m(seq.obj as int).len() == 0 && items@.len() == 0 ==> r is Ok,
    {
    let ghost g = seq.obj as int;
    let ghost tc = TargetM::Slot { obj: g, prop: PropM::Index(0) };
    let ghost pre = *doc;
    proof {
        lemma_frame_refl(tc, *doc);
    }
    let old_len = match seq.len(doc) {
        Ok(n) => n,
        Err(e) => {
            return Err(e);
        },
    };
    // collect the identity tokens of what the document holds
    let mut old_toks: Vec<DiffToken> = Vec::new();
    let mut i: usize = 0;
    while i < old_len
        invariant
            i <= old_len,
            old_toks@.len() == i,
            *doc == pre,
            forall|j: int| 0 <= j < i ==> (#[trigger] old_toks@[j])@ == token_of::<T>(pre, g, j),
        decreases old_len - i,
    {
        match old_token::<T>(seq, doc, i) {
            Ok(t) => old_toks.push(t),
            Err(e) => {
                proof {
                    lemma_frame_refl(tc, *doc);
                }
                return Err(e);
            },
        }
        i += 1;
    }
    // and of the items to be written
    let mut new_toks: Vec<DiffToken> = Vec::new();
    let mut j: usize = 0;
    while j < items.len()
        invariant
            j <= items.len(),
            new_toks@.len() == j,
            forall|j2: int|
                0 <= j2 < j ==> (#[trigger] new_toks@[j2])@ == item_token::<T>(items@[j2], j2),
        decreases items.len() - j,
    {
        match items[j].key() {
            LoadKey::Found(k) => new_toks.push(DiffToken::Keyed(k)),
            _ => new_toks.push(DiffToken::Pos(j)),
        }
        j += 1;
    }
    let chunks = lcs_diff(&old_toks, &new_toks);
    let ghost old_m = old_toks@.map_values(|t: DiffToken| t@);
    let ghost new_m = new_toks@.map_values(|t: DiffToken| t@);
    // replay the script
    let mut idx: usize = 0;
    let ghost mut oi: int = 0;
    let ghost mut origin: Seq<Option<int>> = Seq::empty();
    let mut ci: usize = 0;
    proof {
        assert(chunks@.skip(0) =~= chunks@);
        assert(old_m.len() == old_len);
        assert(new_m.len() == items@.len());
        assert(*doc == pre);
        assert(doc.list_m(g).skip(0) =~= pre.list_m(g).skip(0));
        assert forall|j2: int| 0 <= j2 < old_m.len() implies #[trigger] old_m[j2]
            == token_of::<T>(pre, g, j2) by {
            assert(old_m[j2] == old_toks@[j2]@);
        }
        assert forall|j2: int| 0 <= j2 < new_m.len() implies #[trigger] new_m[j2]
            == item_token::<T>(items@[j2], j2) by {
            assert(new_m[j2] == new_toks@[j2]@);
        }
        assert(old_m.len() == pre.list_m(g).len());
    }
    while ci < chunks.len()
        invariant
            ci <= chunks.len(),
            doc.wf(),
            seq.ok(*doc),
            target_frame(tc, pre, *doc),
            script_wf_from(chunks@.skip(ci as int), old_m, new_m, oi, idx as int),
            0 <= oi <= old_m.len(),
            idx as int <= new_m.len(),
            doc.list_m(g).len() == idx + (old_m.len() - oi),
            forall|j: int|
                0 <= j < doc.list_m(g).len() ==> element_from(pre, g, #[trigger] doc.list_m(g)[j]),
            pre == *old(doc),
            old_m.len() == pre.list_m(g).len(),
            forall|j2: int|
                0 <= j2 < old_m.len() ==> #[trigger] old_m[j2] == token_of::<T>(pre, g, j2),
            forall|j2: int|
                0 <= j2 < new_m.len() ==> #[trigger] new_m[j2] == item_token::<T>(
                    items@[j2],
                    j2,
                ),
            origin.len() == idx,
            forall|j: int|
                0 <= j < idx ==> position_from::<T>(
                    pre,
                    g,
                    items@,
                    doc.list_m(g)[j],
                    j,
                    #[trigger] origin[j],
                ),
            forall|j: int| 0 <= j < idx && (#[trigger] origin[j]) is Some ==> origin[j]->0 < oi,
            forall|j1: int, j2: int|
                0 <= j1 < j2 < idx && (#[trigger] origin[j1]) is Some && (#[trigger] origin[j2])
                    is Some ==> origin[j1]->0 < origin[j2]->0,
            doc.list_m(g).skip(idx as int) =~= pre.list_m(g).skip(oi),
        decreases chunks.len() - ci,
    {
        proof {
            assert(chunks@.skip(ci as int)[0] == chunks@[ci as int]);
            assert(chunks@.skip(ci as int).drop_first() =~= chunks@.skip(ci as int + 1));
        }
        match &chunks[ci] {
            DiffChunk::Equal { new_index, len, .. } => {
                let ghost idx0 = idx as int;
                let ghost oi0 = oi;
                let mut k: usize = 0;
                while k < *len
                    invariant
                        k <= *len,
                        doc.wf(),
                        seq.ok(*doc),
                        target_frame(tc, pre, *doc),
                        idx as int == idx0 + k,
                        doc.list_m(g).len() == idx0 + (old_m.len() - oi0),
                        forall|j: int|
                            0 <= j < doc.list_m(g).len() ==> element_from(
                                pre,
                                g,
                                #[trigger] doc.list_m(g)[j],
                            ),
                        pre == *old(doc),
                        old_m.len() == pre.list_m(g).len(),
                        forall|j2: int|
                            0 <= j2 < old_m.len() ==> #[trigger] old_m[j2] == token_of::<T>(
                                pre,
                                g,
                                j2,
                            ),
                        forall|j2: int|
                            0 <= j2 < new_m.len() ==> #[trigger] new_m[j2] == item_token::<T>(
                                items@[j2],
                                j2,
                            ),
                        origin.len() == idx,
                        forall|j: int|
                            0 <= j < idx ==> position_from::<T>(
                                pre,
                                g,
                                items@,
                                doc.list_m(g)[j],
                                j,
                                #[trigger] origin[j],
                            ),
                        forall|j1: int, j2: int|
                            0 <= j1 < j2 < idx && (#[trigger] origin[j1]) is Some && (
                            #[trigger] origin[j2]) is Some ==> origin[j1]->0 < origin[j2]->0,
                        *new_index as int == idx0,
                        oi0 + *len <= old_m.len(),
                        idx0 + *len <= new_m.len(),
                        0 <= oi0,
                        forall|k2: int|
                            0 <= k2 < *len as int ==> #[trigger] old_m[oi0 + k2] == new_m[idx0
                                + k2],
                        forall|j: int|
                            0 <= j < idx && (#[trigger] origin[j]) is Some ==> origin[j]->0 < oi0
                                + k,
                        doc.list_m(g).skip(idx as int) =~= pre.list_m(g).skip(oi0 + k),
                    decreases *len - k,
                {
                    let ghost before = *doc;
                    let it = *new_index + k;
                    match seq.set(doc, idx, &items[it]) {
                        Ok(_) => {
                            proof {
                                lemma_frame_retarget(
                                    TargetM::Slot { obj: g, prop: PropM::Index(idx as int) },
                                    tc,
                                    before,
                                    *doc,
                                );
                                lemma_frame_trans(tc, pre, before, *doc);
                                assert forall|j: int|
                                    0 <= j < doc.list_m(g).len() implies element_from(
                                    pre,
                                    g,
                                    #[trigger] doc.list_m(g)[j],
                                ) by {
                                    if j != idx as int {
                                        assert(doc.list_m(g)[j] == before.list_m(g)[j]);
                                    } else {
                                        assert(doc.slot(g, PropM::Index(j)) == Some(
                                            doc.list_m(g)[j],
                                        ));
                                        assert(before.slot(g, PropM::Index(j)) == Some(
                                            before.list_m(g)[j],
                                        ));
                                        assert(before.num_objs() >= pre.num_objs());
                                    }
                                }
                                // the element at idx was the old element at
                                // position oi0 + k and was set in place,
                                // matched by equal identity tokens
                                assert(before.list_m(g)[idx as int] == before.list_m(g).skip(
                                    idx as int,
                                )[0]);
                                assert(before.list_m(g)[idx as int] == pre.list_m(g)[oi0 + k]);
                                assert(doc.slot(g, PropM::Index(idx as int)) == Some(
                                    doc.list_m(g)[idx as int],
                                ));
                                assert(before.slot(g, PropM::Index(idx as int)) == Some(
                                    before.list_m(g)[idx as int],
                                ));
                                assert(old_m[oi0 + k] == new_m[idx as int]);
                                assert(position_from::<T>(
                                    pre,
                                    g,
                                    items@,
                                    doc.list_m(g)[idx as int],
                                    idx as int,
                                    Some(oi0 + k),
                                ));
                                origin = origin.push(Some(oi0 + k));
                                assert forall|j: int|
                                    0 <= j < idx + 1 implies position_from::<T>(
                                    pre,
                                    g,
                                    items@,
                                    doc.list_m(g)[j],
                                    j,
                                    #[trigger] origin[j],
                                ) by {
                                    if j < idx as int {
                                        assert(doc.list_m(g)[j] == before.list_m(g)[j]);
                                        assert(origin[j] == origin.subrange(0, idx as int)[j]);
                                    }
                                }
                                assert(doc.list_m(g).skip(idx as int + 1) =~= pre.list_m(g).skip(
                                    oi0 + k + 1,
                                )) by {
                                    assert forall|m: int|
                                        0 <= m < doc.list_m(g).len() - idx - 1 implies #[trigger] doc.list_m(
                                        g,
                                    ).skip(idx as int + 1)[m] == pre.list_m(g).skip(
                                        oi0 + k + 1,
                                    )[m] by {
                                        assert(doc.list_m(g)[idx as int + 1 + m] == before.list_m(
                                            g,
                                        )[idx as int + 1 + m]);
                                        assert(before.list_m(g)[idx as int + 1 + m]
                                            == before.list_m(g).skip(idx as int)[1 + m]);
                                    }
                                }
                            }
                        },
                        Err(e) => {
                            proof {
                                lemma_frame_retarget(
                                    TargetM::Slot { obj: g, prop: PropM::Index(idx as int) },
                                    tc,
                                    before,
                                    *doc,
                                );
                                lemma_frame_trans(tc, pre, before, *doc);
                            }
                            return Err(e);
                        },
                    }
                    idx += 1;
                    k += 1;
                }
                proof {
                    oi = oi + (*len as int);
                }
            },
            DiffChunk::Delete { old_len: dl, .. } => {
                let ghost idx0 = idx as int;
                let ghost oi0 = oi;
                let mut k: usize = 0;
                while k < *dl
                    invariant
                        k <= *dl,
                        doc.wf(),
                        seq.ok(*doc),
                        target_frame(tc, pre, *doc),
                        idx as int == idx0,
                        doc.list_m(g).len() == idx0 + (old_m.len() - oi0) - k,
                        forall|j: int|
                            0 <= j < doc.list_m(g).len() ==> element_from(
                                pre,
                                g,
                                #[trigger] doc.list_m(g)[j],
                            ),
                        pre == *old(doc),
                        old_m.len() == pre.list_m(g).len(),
                        origin.len() == idx,
                        forall|j: int|
                            0 <= j < idx ==> position_from::<T>(
                                pre,
                                g,
                                items@,
                                doc.list_m(g)[j],
                                j,
                                #[trigger] origin[j],
                            ),
                        forall|j1: int, j2: int|
                            0 <= j1 < j2 < idx && (#[trigger] origin[j1]) is Some && (
                            #[trigger] origin[j2]) is Some ==> origin[j1]->0 < origin[j2]->0,
                        forall|j: int|
                            0 <= j < idx && (#[trigger] origin[j]) is Some ==> origin[j]->0 < oi0,
                        0 <= oi0,
                        oi0 + *dl <= old_m.len(),
                        doc.list_m(g).skip(idx as int) =~= pre.list_m(g).skip(oi0 + k),
                    decreases *dl - k,
                {
                    let ghost before = *doc;
                    match seq.delete(doc, idx) {
                        Ok(_) => {
                            proof {
                                assert(target_frame(tc, before, *doc));
                                lemma_frame_trans(tc, pre, before, *doc);
                                assert forall|j: int|
                                    0 <= j < doc.list_m(g).len() implies element_from(
                                    pre,
                                    g,
                                    #[trigger] doc.list_m(g)[j],
                                ) by {
                                    assert(doc.list_m(g)[j] == before.list_m(g).remove(
                                        idx as int,
                                    )[j]);
                                }
                                assert forall|j: int|
                                    0 <= j < idx implies position_from::<T>(
                                    pre,
                                    g,
                                    items@,
                                    doc.list_m(g)[j],
                                    j,
                                    #[trigger] origin[j],
                                ) by {
                                    assert(doc.list_m(g)[j] == before.list_m(g).remove(
                                        idx as int,
                                    )[j]);
                                    assert(doc.list_m(g)[j] == before.list_m(g)[j]);
                                }
                                assert(doc.list_m(g).skip(idx as int) =~= pre.list_m(g).skip(
                                    oi0 + k + 1,
                                )) by {
                                    assert forall|m: int|
                                        0 <= m < doc.list_m(g).len() - idx implies #[trigger] doc.list_m(
                                        g,
                                    ).skip(idx as int)[m] == pre.list_m(g).skip(
                                        oi0 + k + 1,
                                    )[m] by {
                                        assert(doc.list_m(g)[idx as int + m] == before.list_m(
                                            g,
                                        ).remove(idx as int)[idx as int + m]);
                                        assert(before.list_m(g)[idx as int + m + 1]
                                            == before.list_m(g).skip(idx as int)[m + 1]);
                                    }
                                }
                            }
                        },
                        Err(_) => {
                            proof {
                                assert(false);
                            }
                            return Err(ReconcileError::TopLevelNotMap);
                        },
                    }
                    k += 1;
                }
                proof {
                    oi = oi + (*dl as int);
                }
            },
            DiffChunk::Insert { new_index, new_len, .. } => {
                let ghost idx0 = idx as int;
                let ghost oi0 = oi;
                let mut k: usize = 0;
                while k < *new_len
                    invariant
                        k <= *new_len,
                        doc.wf(),
                        seq.ok(*doc),
                        target_frame(tc, pre, *doc),
                        idx as int == idx0 + k,
                        doc.list_m(g).len() == idx0 + (old_m.len() - oi0) + k,
                        forall|j: int|
                            0 <= j < doc.list_m(g).len() ==> element_from(
                                pre,
                                g,
                                #[trigger] doc.list_m(g)[j],
                            ),
                        pre == *old(doc),
                        old_m.len() == pre.list_m(g).len(),
                        origin.len() == idx,
                        forall|j: int|
                            0 <= j < idx ==> position_from::<T>(
                                pre,
                                g,
                                items@,
                                doc.list_m(g)[j],
                                j,
                                #[trigger] origin[j],
                            ),
                        forall|j1: int, j2: int|
                            0 <= j1 < j2 < idx && (#[trigger] origin[j1]) is Some && (
                            #[trigger] origin[j2]) is Some ==> origin[j1]->0 < origin[j2]->0,
                        forall|j: int|
                            0 <= j < idx && (#[trigger] origin[j]) is Some ==> origin[j]->0 < oi0,
                        0 <= oi0 <= old_m.len(),
                        doc.list_m(g).skip(idx as int) =~= pre.list_m(g).skip(oi0),
                    decreases *new_len - k,
                {
                    let ghost before = *doc;
                    let it = *new_index + k;
                    match seq.insert(doc, idx, &items[it]) {
                        Ok(_) => {
                            proof {
                                lemma_frame_retarget(
                                    TargetM::Fresh { obj: g, index: idx as int },
                                    tc,
                                    before,
                                    *doc,
                                );
                                lemma_frame_trans(tc, pre, before, *doc);
                                assert forall|j: int|
                                    0 <= j < doc.list_m(g).len() implies element_from(
                                    pre,
                                    g,
                                    #[trigger] doc.list_m(g)[j],
                                ) by {
                                    if j < idx as int {
                                        assert(doc.list_m(g).subrange(0, idx as int)[j]
                                            == before.list_m(g).subrange(0, idx as int)[j]);
                                    } else if j > idx as int {
                                        assert(doc.list_m(g).skip(idx as int + 1)[j - idx - 1]
                                            == before.list_m(g).skip(idx as int)[j - idx - 1]);
                                    } else {
                                        assert(before.num_objs() >= pre.num_objs());
                                    }
                                }
                                origin = origin.push(None);
                                assert(doc.list_m(g)[idx as int] == doc.slot(
                                    g,
                                    PropM::Index(idx as int),
                                )->0);
                                assert(position_from::<T>(
                                    pre,
                                    g,
                                    items@,
                                    doc.list_m(g)[idx as int],
                                    idx as int,
                                    None,
                                ));
                                assert forall|j: int|
                                    0 <= j < idx + 1 implies position_from::<T>(
                                    pre,
                                    g,
                                    items@,
                                    doc.list_m(g)[j],
                                    j,
                                    #[trigger] origin[j],
                                ) by {
                                    if j < idx as int {
                                        assert(doc.list_m(g).subrange(0, idx as int)[j]
                                            == before.list_m(g).subrange(0, idx as int)[j]);
                                        assert(doc.list_m(g)[j] == before.list_m(g)[j]);
                                    }
                                }
                                assert(doc.list_m(g).skip(idx as int + 1) =~= pre.list_m(
                                    g,
                                ).skip(oi0)) by {
                                    assert(doc.list_m(g).skip(idx as int + 1) =~= before.list_m(
                                        g,
                                    ).skip(idx as int));
                                }
                            }
                        },
                        Err(e) => {
                            proof {
                                lemma_frame_retarget(
                                    TargetM::Fresh { obj: g, index: idx as int },
                                    tc,
                                    before,
                                    *doc,
                                );
                                lemma_frame_trans(tc, pre, before, *doc);
                            }
                            return Err(e);
                        },
                    }
                    idx += 1;
                    k += 1;
                }
            },
            DiffChunk::Replace { old_len: dl, new_index, new_len, .. } => {
                let ghost idx0 = idx as int;
                let ghost oi0 = oi;
                let mut k: usize = 0;
                while k < *dl
                    invariant
                        k <= *dl,
                        doc.wf(),
                        seq.ok(*doc),
                        target_frame(tc, pre, *doc),
                        idx as int == idx0,
                        doc.list_m(g).len() == idx0 + (old_m.len() - oi0) - k,
                        forall|j: int|
                            0 <= j < doc.list_m(g).len() ==> element_from(
                                pre,
                                g,
                                #[trigger] doc.list_m(g)[j],
                            ),
                        pre == *old(doc),
                        old_m.len() == pre.list_m(g).len(),
                        origin.len() == idx,
                        forall|j: int|
                            0 <= j < idx ==> position_from::<T>(
                                pre,
                                g,
                                items@,
                                doc.list_m(g)[j],
                                j,
                                #[trigger] origin[j],
                            ),
                        forall|j1: int, j2: int|
                            0 <= j1 < j2 < idx && (#[trigger] origin[j1]) is Some && (
                            #[trigger] origin[j2]) is Some ==> origin[j1]->0 < origin[j2]->0,
                        forall|j: int|
                            0 <= j < idx && (#[trigger] origin[j]) is Some ==> origin[j]->0 < oi0,
                        0 <= oi0,
                        oi0 + *dl <= old_m.len(),
                        doc.list_m(g).skip(idx as int) =~= pre.list_m(g).skip(oi0 + k),
                    decreases *dl - k,
                {
                    let ghost before = *doc;
                    match seq.delete(doc, idx) {
                        Ok(_) => {
                            proof {
                                assert(target_frame(tc, before, *doc));
                                lemma_frame_trans(tc, pre, before, *doc);
                                assert forall|j: int|
                                    0 <= j < doc.list_m(g).len() implies element_from(
                                    pre,
                                    g,
                                    #[trigger] doc.list_m(g)[j],
                                ) by {
                                    assert(doc.list_m(g)[j] == before.list_m(g).remove(
                                        idx as int,
                                    )[j]);
                                }
                                assert forall|j: int|
                                    0 <= j < idx implies position_from::<T>(
                                    pre,
                                    g,
                                    items@,
                                    doc.list_m(g)[j],
                                    j,
                                    #[trigger] origin[j],
                                ) by {
                                    assert(doc.list_m(g)[j] == before.list_m(g).remove(
                                        idx as int,
                                    )[j]);
                                    assert(doc.list_m(g)[j] == before.list_m(g)[j]);
                                }
                                assert(doc.list_m(g).skip(idx as int) =~= pre.list_m(g).skip(
                                    oi0 + k + 1,
                                )) by {
                                    assert forall|m: int|
                                        0 <= m < doc.list_m(g).len() - idx implies #[trigger] doc.list_m(
                                        g,
                                    ).skip(idx as int)[m] == pre.list_m(g).skip(
                                        oi0 + k + 1,
                                    )[m] by {
                                        assert(doc.list_m(g)[idx as int + m] == before.list_m(
                                            g,
                                        ).remove(idx as int)[idx as int + m]);
                                        assert(before.list_m(g)[idx as int + m + 1]
                                            == before.list_m(g).skip(idx as int)[m + 1]);
                                    }
                                }
                            }
                        },
                        Err(_) => {
                            proof {
                                assert(false);
                            }
                            return Err(ReconcileError::TopLevelNotMap);
                        },
                    }
                    k += 1;
                }
                proof {
                    oi = oi + (*dl as int);
                }
                let mut k2: usize = 0;
                while k2 < *new_len
                    invariant
                        k2 <= *new_len,
                        doc.wf(),
                        seq.ok(*doc),
                        target_frame(tc, pre, *doc),
                        idx as int == idx0 + k2,
                        doc.list_m(g).len() == idx0 + (old_m.len() - oi) + k2,
                        forall|j: int|
                            0 <= j < doc.list_m(g).len() ==> element_from(
                                pre,
                                g,
                                #[trigger] doc.list_m(g)[j],
                            ),
                        pre == *old(doc),
                        old_m.len() == pre.list_m(g).len(),
                        origin.len() == idx,
                        forall|j: int|
                            0 <= j < idx ==> position_from::<T>(
                                pre,
                                g,
                                items@,
                                doc.list_m(g)[j],
                                j,
                                #[trigger] origin[j],
                            ),
                        forall|j1: int, j2: int|
                            0 <= j1 < j2 < idx && (#[trigger] origin[j1]) is Some && (
                            #[trigger] origin[j2]) is Some ==> origin[j1]->0 < origin[j2]->0,
                        forall|j: int|
                            0 <= j < idx && (#[trigger] origin[j]) is Some ==> origin[j]->0 < oi,
                        0 <= oi <= old_m.len(),
                        doc.list_m(g).skip(idx as int) =~= pre.list_m(g).skip(oi),
                    decreases *new_len - k2,
                {
                    let ghost before = *doc;
                    let it = *new_index + k2;
                    match seq.insert(doc, idx, &items[it]) {
                        Ok(_) => {
                            proof {
                                lemma_frame_retarget(
                                    TargetM::Fresh { obj: g, index: idx as int },
                                    tc,
                                    before,
                                    *doc,
                                );
                                lemma_frame_trans(tc, pre, before, *doc);
                                assert forall|j: int|
                                    0 <= j < doc.list_m(g).len() implies element_from(
                                    pre,
                                    g,
                                    #[trigger] doc.list_m(g)[j],
                                ) by {
                                    if j < idx as int {
                                        assert(doc.list_m(g).subrange(0, idx as int)[j]
                                            == before.list_m(g).subrange(0, idx as int)[j]);
                                    } else if j > idx as int {
                                        assert(doc.list_m(g).skip(idx as int + 1)[j - idx - 1]
                                            == before.list_m(g).skip(idx as int)[j - idx - 1]);
                                    } else {
                                        assert(before.num_objs() >= pre.num_objs());
                                    }
                                }
                                origin = origin.push(None);
                                assert(doc.list_m(g)[idx as int] == doc.slot(
                                    g,
                                    PropM::Index(idx as int),
                                )->0);
                                assert(position_from::<T>(
                                    pre,
                                    g,
                                    items@,
                                    doc.list_m(g)[idx as int],
                                    idx as int,
                                    None,
                                ));
                                assert forall|j: int|
                                    0 <= j < idx + 1 implies position_from::<T>(
                                    pre,
                                    g,
                                    items@,
                                    doc.list_m(g)[j],
                                    j,
                                    #[trigger] origin[j],
                                ) by {
                                    if j < idx as int {
                                        assert(doc.list_m(g).subrange(0, idx as int)[j]
                                            == before.list_m(g).subrange(0, idx as int)[j]);
                                        assert(doc.list_m(g)[j] == before.list_m(g)[j]);
                                    }
                                }
                                assert(doc.list_m(g).skip(idx as int + 1) =~= pre.list_m(
                                    g,
                                ).skip(oi)) by {
                                    assert(doc.list_m(g).skip(idx as int + 1) =~= before.list_m(
                                        g,
                                    ).skip(idx as int));
                                }
                            }
                        },
                        Err(e) => {
                            proof {
                                lemma_frame_retarget(
                                    TargetM::Fresh { obj: g, index: idx as int },
                                    tc,
                                    before,
                                    *doc,
                                );
                                lemma_frame_trans(tc, pre, before, *doc);
                            }
                            return Err(e);
                        },
                    }
                    idx += 1;
                    k2 += 1;
                }
            },
        }
        ci += 1;
    }
    proof {
        assert(chunks@.skip(ci as int) =~= Seq::<DiffChunk>::empty());
        assert(script_wf_from(Seq::<DiffChunk>::empty(), old_m, new_m, oi, idx as int));
        assert(oi == old_m.len() && idx as int == new_m.len());
        assert(doc.objs_m()[g] is ListObj);
        assert(diff_correspondence::<T>(pre, g, items@, doc.list_m(g), origin));
    }
    Ok(())
}

impl<T: Reconcile> Reconcile for Vec<T> {
    fn key(&self) -> (r: LoadKey<KeyVal>) {
        LoadKey::NoKey
    }

    fn hydrate_key(doc: &Doc, obj: usize, prop: &Prop) -> (r: Result<
        LoadKey<KeyVal>,
        ReconcileError,
    >) {
        let _ = doc;
        let _ = obj;
        let _ = prop;
        Ok(LoadKey::NoKey)
    }

    /// Reconcile the vector through the sequence diff engine.
    fn reconcile(&self, doc: &mut Doc, rec: &Reconciler) -> (res: Result<(), ReconcileError>)
        ensures
            res is Ok && !(rec.target@ is Root) ==> (match crate::reconcile::target_node(
                rec.target@,
                *final(doc),
            ) {
                Some(crate::doc::NodeM::Obj(g)) => {
                    &&& final(doc).objs_m()[g] is ListObj
                    &&& final(doc).list_m(g).len() == self@.len()
                },
                _ => false,
            }),
    {
        let ghost pre = *doc;
        let seq = match rec.seq(doc) {
            Ok(s) => s,
            Err(e) => {
                proof {
                    lemma_frame_refl(rec.target@, *doc);
                }
                return Err(e);
            },
        };
        let ghost mid = *doc;
        let ghost g = seq.obj as int;
        let ghost tc = TargetM::Slot { obj: g, prop: PropM::Index(0) };
        let r = reconcile_seq_items(&seq, doc, self);
        proof {
            lemma_frame_retarget(tc, rec.target@, mid, *doc);
            lemma_frame_trans(rec.target@, pre, mid, *doc);
            if r is Ok {
                if !(rec.target@ is Root) {
                    lemma_good_preserved(rec.target@, pre, mid, *doc, g);
                }
            }
        }
        r
    }
}

} // verus!
