//! The engine's laws, stated over the spec functions its contracts use:
//! round-tripping, idempotence and identity preservation.

use vstd::prelude::*;

use crate::doc::{Doc, NodeM, ObjKind, ScalarM};
use crate::hydrate::{string_at, uint_at};
use crate::prop::PropM;
use crate::reconcile::{
    scalar_write_res_m, target_ok, Reconciler, ReconcileError, TargetM,
};

verus! {

/// Round-trip: once a scalar reconciliation into a slot succeeds, the slot
/// holds exactly the scalar that was written — so hydrating it reads the
/// value back unchanged, whether the write happened or the slot already held
/// the value.
pub proof fn lemma_scalar_round_trip(
    pre: Doc,
    post: Doc,
    obj: int,
    prop: PropM,
    v: ScalarM,
)
    requires
        target_ok(TargetM::Slot { obj, prop }, pre),
        scalar_write_res_m(
            TargetM::Slot { obj, prop },
            pre,
            post,
            v,
            Ok::<(), ReconcileError>(()),
        ),
    ensures
        post.slot(obj, prop) == Some(NodeM::Scalar(v)),
{
}

/// Idempotence: reconciling a scalar equal to what the slot already holds
/// succeeds, changes nothing in the document and logs no operation.
pub proof fn lemma_scalar_idempotent(
    pre: Doc,
    post: Doc,
    obj: int,
    prop: PropM,
    v: ScalarM,
    r: Result<(), ReconcileError>,
)
    requires
        pre.slot(obj, prop) == Some(NodeM::Scalar(v)),
        scalar_write_res_m(TargetM::Slot { obj, prop }, pre, post, v, r),
    ensures
        r is Ok,
        post == pre,
        post.log_m() == pre.log_m(),
{
}

/// Identity preservation: switching a cursor to a composite kind at a slot
/// that already holds an object of that kind reuses the object — the same
/// identity, and not a single document mutation — which is what lets a
/// concurrent edit to the same object merge as a field-level conflict rather
/// than a whole-object replacement.
pub proof fn lemma_identity_preserved(
    rec: Reconciler,
    pre: Doc,
    post: Doc,
    kind: ObjKind,
    id: int,
    obj: int,
    prop: PropM,
    g: int,
)
    requires
        rec.obj_target_res(pre, post, kind, id),
        rec.target@ == (TargetM::Slot { obj, prop }),
        pre.slot(obj, prop) == Some(NodeM::Obj(g)),
        pre.kind_m(g) == kind,
    ensures
        id == g,
        post == pre,
        post.log_m() == pre.log_m(),
{
}

/// Round-trip, read back: after a successful unsigned-integer
/// reconciliation, the slot reads back as exactly the integer written — so,
/// by the contract of `read_uint`, hydrating it returns `Ok` of that value.
pub proof fn lemma_uint_round_trip(pre: Doc, post: Doc, obj: int, prop: PropM, v: u64)
    requires
        target_ok(TargetM::Slot { obj, prop }, pre),
        scalar_write_res_m(
            TargetM::Slot { obj, prop },
            pre,
            post,
            ScalarM::Uint(v),
            Ok::<(), ReconcileError>(()),
        ),
    ensures
        uint_at(post, obj, prop) == Some(v),
{
    lemma_scalar_round_trip(pre, post, obj, prop, ScalarM::Uint(v));
}

/// Round-trip, read back: after a successful string reconciliation, the slot
/// reads back as exactly the characters written — so, by the contract of
/// `read_string`, hydrating it returns them unchanged.
pub proof fn lemma_string_round_trip(pre: Doc, post: Doc, obj: int, prop: PropM, s: Seq<char>)
    requires
        target_ok(TargetM::Slot { obj, prop }, pre),
        scalar_write_res_m(
            TargetM::Slot { obj, prop },
            pre,
            post,
            ScalarM::Str(s),
            Ok::<(), ReconcileError>(()),
        ),
    ensures
        string_at(post, obj, prop) == Some(s),
{
    lemma_scalar_round_trip(pre, post, obj, prop, ScalarM::Str(s));
}

} // verus!
