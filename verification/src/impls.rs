//! `Reconcile` and `Hydrate` for the primitive value types and the standard
//! containers the engine supports.

use vstd::prelude::*;

use crate::doc::{Doc, Node, NodeM, ScalarVal};
use crate::hydrate::{hydrate_prop, node_reads, Hydrate, HydrateError};
use crate::prop::{clone_string, Prop};
use crate::reconcile::{
    lemma_frame_refl, lemma_frame_retarget, lemma_frame_trans, lemma_good_preserved, target_frame,
    KeyM, KeyVal, LoadKey, LoadKeyM, Reconcile, ReconcileError, Reconciler, TargetM,
};

verus! {

/// The identity key an unsigned-integer type reads from a slot.
pub open spec fn uint_slot_key(d: Doc, obj: int, prop: crate::prop::PropM) -> LoadKeyM {
    match d.slot(obj, prop) {
        Some(NodeM::Scalar(crate::doc::ScalarM::Uint(u))) => LoadKeyM::Found(KeyM::Uint(u)),
        _ => LoadKeyM::KeyNotFound,
    }
}

/// The identity key a signed-integer type reads from a slot.
pub open spec fn int_slot_key(d: Doc, obj: int, prop: crate::prop::PropM) -> LoadKeyM {
    match d.slot(obj, prop) {
        Some(NodeM::Scalar(crate::doc::ScalarM::Int(i))) => LoadKeyM::Found(KeyM::Int(i)),
        _ => LoadKeyM::KeyNotFound,
    }
}

// ---------------------------------------------------------------------------
// Strings
// ---------------------------------------------------------------------------

impl Reconcile for String {
    open spec fn key_m(&self) -> LoadKeyM {
        LoadKeyM::Found(KeyM::Str(self@))
    }

    open spec fn slot_key_m(d: Doc, obj: int, prop: crate::prop::PropM) -> LoadKeyM {
        match d.slot(obj, prop) {
            Some(NodeM::Scalar(crate::doc::ScalarM::Str(sv))) => LoadKeyM::Found(KeyM::Str(sv)),
            _ => LoadKeyM::KeyNotFound,
        }
    }

    fn key(&self) -> (r: LoadKey<KeyVal>) {
        LoadKey::Found(KeyVal::Str(clone_string(self)))
    }

    fn hydrate_key(doc: &Doc, obj: usize, prop: &Prop) -> (r: Result<
        LoadKey<KeyVal>,
        ReconcileError,
    >) {
        match doc.get(obj, prop) {
            Ok(Some(Node::Scalar(ScalarVal::Str(s)))) => Ok(
                LoadKey::Found(KeyVal::Str(clone_string(&s))),
            ),
            Ok(_) => Ok(LoadKey::KeyNotFound),
            Err(e) => Err(ReconcileError::Doc(e)),
        }
    }

    fn reconcile(&self, doc: &mut Doc, rec: &Reconciler) -> (res: Result<(), ReconcileError>)
        ensures
            rec.scalar_write_res(*old(doc), *final(doc), crate::doc::ScalarM::Str(self@), res),
    {
        rec.str(doc, self.as_str())
    }
}

impl Hydrate for String {
    open spec fn from_string(sm: Seq<char>, v: Self) -> bool {
        v@ == sm
    }

    fn hydrate_string(s: &str) -> (r: Result<Self, HydrateError>)
        ensures
            r matches Ok(v) && v@ == s@,
    {
        Ok(s.to_owned())
    }
}

// ---------------------------------------------------------------------------
// Booleans
// ---------------------------------------------------------------------------

impl Reconcile for bool {
    open spec fn key_m(&self) -> LoadKeyM {
        LoadKeyM::Found(KeyM::Bool(*self))
    }

    open spec fn slot_key_m(d: Doc, obj: int, prop: crate::prop::PropM) -> LoadKeyM {
        match d.slot(obj, prop) {
            Some(NodeM::Scalar(crate::doc::ScalarM::Bool(b))) => LoadKeyM::Found(KeyM::Bool(b)),
            _ => LoadKeyM::KeyNotFound,
        }
    }

    fn key(&self) -> (r: LoadKey<KeyVal>) {
        LoadKey::Found(KeyVal::Bool(*self))
    }

    fn hydrate_key(doc: &Doc, obj: usize, prop: &Prop) -> (r: Result<
        LoadKey<KeyVal>,
        ReconcileError,
    >) {
        match doc.get(obj, prop) {
            Ok(Some(Node::Scalar(ScalarVal::Bool(b)))) => Ok(LoadKey::Found(KeyVal::Bool(b))),
            Ok(_) => Ok(LoadKey::KeyNotFound),
            Err(e) => Err(ReconcileError::Doc(e)),
        }
    }

    fn reconcile(&self, doc: &mut Doc, rec: &Reconciler) -> (res: Result<(), ReconcileError>)
        ensures
            rec.scalar_write_res(*old(doc), *final(doc), crate::doc::ScalarM::Bool(*self), res),
    {
        rec.boolean(doc, *self)
    }
}

impl Hydrate for bool {
    open spec fn from_bool(b: bool, v: Self) -> bool {
        v == b
    }

    fn hydrate_bool(b: bool) -> (r: Result<Self, HydrateError>)
        ensures
            r == Ok::<bool, HydrateError>(b),
    {
        Ok(b)
    }
}

// ---------------------------------------------------------------------------
// Unsigned integers
// ---------------------------------------------------------------------------

impl Reconcile for u64 {
    open spec fn key_m(&self) -> LoadKeyM {
        LoadKeyM::Found(KeyM::Uint(*self))
    }

    open spec fn slot_key_m(d: Doc, obj: int, prop: crate::prop::PropM) -> LoadKeyM {
        uint_slot_key(d, obj, prop)
    }

    fn key(&self) -> (r: LoadKey<KeyVal>) {
        LoadKey::Found(KeyVal::Uint(*self))
    }

    fn hydrate_key(doc: &Doc, obj: usize, prop: &Prop) -> (r: Result<
        LoadKey<KeyVal>,
        ReconcileError,
    >) {
        match doc.get(obj, prop) {
            Ok(Some(Node::Scalar(ScalarVal::Uint(u)))) => Ok(LoadKey::Found(KeyVal::Uint(u))),
            Ok(_) => Ok(LoadKey::KeyNotFound),
            Err(e) => Err(ReconcileError::Doc(e)),
        }
    }

    fn reconcile(&self, doc: &mut Doc, rec: &Reconciler) -> (res: Result<(), ReconcileError>)
        ensures
            rec.scalar_write_res(*old(doc), *final(doc), crate::doc::ScalarM::Uint(*self), res),
    {
        rec.u64(doc, *self)
    }
}

impl Hydrate for u64 {
    open spec fn from_uint(u: u64, v: Self) -> bool {
        v == u
    }

    fn hydrate_uint(u: u64) -> (r: Result<Self, HydrateError>)
        ensures
            r == Ok::<u64, HydrateError>(u),
    {
        Ok(u)
    }
}

impl Reconcile for u32 {
    open spec fn key_m(&self) -> LoadKeyM {
        LoadKeyM::Found(KeyM::Uint(*self as u64))
    }

    open spec fn slot_key_m(d: Doc, obj: int, prop: crate::prop::PropM) -> LoadKeyM {
        uint_slot_key(d, obj, prop)
    }

    fn key(&self) -> (r: LoadKey<KeyVal>) {
        LoadKey::Found(KeyVal::Uint(*self as u64))
    }

    fn hydrate_key(doc: &Doc, obj: usize, prop: &Prop) -> (r: Result<
        LoadKey<KeyVal>,
        ReconcileError,
    >) {
        u64::hydrate_key(doc, obj, prop)
    }

    fn reconcile(&self, doc: &mut Doc, rec: &Reconciler) -> (res: Result<(), ReconcileError>)
        ensures
            rec.scalar_write_res(*old(doc), *final(doc), crate::doc::ScalarM::Uint(*self as u64), res),
    {
        rec.u64(doc, *self as u64)
    }
}

impl Hydrate for u32 {
    open spec fn from_uint(u: u64, v: Self) -> bool {
        u <= u32::MAX && v as u64 == u
    }

    fn hydrate_uint(u: u64) -> (r: Result<Self, HydrateError>)
        ensures
            u <= u32::MAX ==> r == Ok::<u32, HydrateError>(u as u32),
            u > u32::MAX ==> r is Err,
    {
        if u <= u32::MAX as u64 {
            Ok(u as u32)
        } else {
            Err(HydrateError::unexpected("a u32", "an integer which is too large".to_owned()))
        }
    }
}

impl Reconcile for u8 {
    open spec fn key_m(&self) -> LoadKeyM {
        LoadKeyM::Found(KeyM::Uint(*self as u64))
    }

    open spec fn slot_key_m(d: Doc, obj: int, prop: crate::prop::PropM) -> LoadKeyM {
        uint_slot_key(d, obj, prop)
    }

    fn key(&self) -> (r: LoadKey<KeyVal>) {
        LoadKey::Found(KeyVal::Uint(*self as u64))
    }

    fn hydrate_key(doc: &Doc, obj: usize, prop: &Prop) -> (r: Result<
        LoadKey<KeyVal>,
        ReconcileError,
    >) {
        u64::hydrate_key(doc, obj, prop)
    }

    fn reconcile(&self, doc: &mut Doc, rec: &Reconciler) -> (res: Result<(), ReconcileError>)
        ensures
            rec.scalar_write_res(*old(doc), *final(doc), crate::doc::ScalarM::Uint(*self as u64), res),
    {
        rec.u64(doc, *self as u64)
    }
}

impl Hydrate for u8 {
    open spec fn from_uint(u: u64, v: Self) -> bool {
        u <= u8::MAX && v as u64 == u
    }

    fn hydrate_uint(u: u64) -> (r: Result<Self, HydrateError>)
        ensures
            u <= u8::MAX ==> r == Ok::<u8, HydrateError>(u as u8),
            u > u8::MAX ==> r is Err,
    {
        if u <= u8::MAX as u64 {
            Ok(u as u8)
        } else {
            Err(HydrateError::unexpected("a u8", "an integer which is too large".to_owned()))
        }
    }
}

// ---------------------------------------------------------------------------
// Signed integers
// ---------------------------------------------------------------------------

impl Reconcile for i64 {
    open spec fn key_m(&self) -> LoadKeyM {
        LoadKeyM::Found(KeyM::Int(*self))
    }

    open spec fn slot_key_m(d: Doc, obj: int, prop: crate::prop::PropM) -> LoadKeyM {
        int_slot_key(d, obj, prop)
    }

    fn key(&self) -> (r: LoadKey<KeyVal>) {
        LoadKey::Found(KeyVal::Int(*self))
    }

    fn hydrate_key(doc: &Doc, obj: usize, prop: &Prop) -> (r: Result<
        LoadKey<KeyVal>,
        ReconcileError,
    >) {
        match doc.get(obj, prop) {
            Ok(Some(Node::Scalar(ScalarVal::Int(i)))) => Ok(LoadKey::Found(KeyVal::Int(i))),
            Ok(_) => Ok(LoadKey::KeyNotFound),
            Err(e) => Err(ReconcileError::Doc(e)),
        }
    }

    fn reconcile(&self, doc: &mut Doc, rec: &Reconciler) -> (res: Result<(), ReconcileError>)
        ensures
            rec.scalar_write_res(*old(doc), *final(doc), crate::doc::ScalarM::Int(*self), res),
    {
        rec.i64(doc, *self)
    }
}

impl Hydrate for i64 {
    open spec fn from_int(i: i64, v: Self) -> bool {
        v == i
    }

    fn hydrate_int(i: i64) -> (r: Result<Self, HydrateError>)
        ensures
            r == Ok::<i64, HydrateError>(i),
    {
        Ok(i)
    }
}

impl Reconcile for i32 {
    open spec fn key_m(&self) -> LoadKeyM {
        LoadKeyM::Found(KeyM::Int(*self as i64))
    }

    open spec fn slot_key_m(d: Doc, obj: int, prop: crate::prop::PropM) -> LoadKeyM {
        int_slot_key(d, obj, prop)
    }

    fn key(&self) -> (r: LoadKey<KeyVal>) {
        LoadKey::Found(KeyVal::Int(*self as i64))
    }

    fn hydrate_key(doc: &Doc, obj: usize, prop: &Prop) -> (r: Result<
        LoadKey<KeyVal>,
        ReconcileError,
    >) {
        i64::hydrate_key(doc, obj, prop)
    }

    fn reconcile(&self, doc: &mut Doc, rec: &Reconciler) -> (res: Result<(), ReconcileError>)
        ensures
            rec.scalar_write_res(*old(doc), *final(doc), crate::doc::ScalarM::Int(*self as i64), res),
    {
        rec.i64(doc, *self as i64)
    }
}

impl Hydrate for i32 {
    open spec fn from_int(i: i64, v: Self) -> bool {
        i32::MIN <= i <= i32::MAX && v as i64 == i
    }

    fn hydrate_int(i: i64) -> (r: Result<Self, HydrateError>)
        ensures
            i32::MIN <= i <= i32::MAX ==> r == Ok::<i32, HydrateError>(i as i32),
            !(i32::MIN <= i <= i32::MAX) ==> r is Err,
    {
        if i32::MIN as i64 <= i && i <= i32::MAX as i64 {
            Ok(i as i32)
        } else {
            Err(HydrateError::unexpected("an i32", "an integer which is too large".to_owned()))
        }
    }
}

// ---------------------------------------------------------------------------
// Containers
// ---------------------------------------------------------------------------

impl<T: Hydrate> Hydrate for Vec<T> {
    /// A vector read from a sequence has one element per index, each
    /// standing in its type's relation to the node there.
    open spec fn from_seq(d: Doc, obj: int, v: Self) -> bool {
        d.kind_m(obj) == crate::doc::ObjKind::ListObj ==> {
            &&& v@.len() == d.list_m(obj).len()
            &&& forall|i: int|
                0 <= i < v@.len() ==> node_reads::<T>(d, d.list_m(obj)[i], #[trigger] v@[i])
        }
    }

    /// Hydrate each index of the sequence into an element.
    #[verifier::loop_isolation(false)]
    fn hydrate_seq(doc: &Doc, obj: usize) -> (r: Result<Self, HydrateError>)
        ensures
            doc.objs_m()[obj as int] is ListObj ==> (r matches Ok(v) ==> v@.len() == doc.list_m(
                obj as int,
            ).len()),
    {
        let len = doc.length(obj);
        let mut out: Vec<T> = Vec::new();
        let mut i: usize = 0;
        while i < len
            invariant
                doc.wf(),
                i <= len,
                out@.len() == i,
                doc.objs_m()[obj as int] is ListObj ==> forall|j: int|
                    0 <= j < i ==> node_reads::<T>(
                        *doc,
                        doc.list_m(obj as int)[j],
                        #[trigger] out@[j],
                    ),
            decreases len - i,
        {
            let p = Prop::Index(i);
            match hydrate_prop::<T>(doc, obj, &p) {
                Ok(v) => {
                    proof {
                        if doc.objs_m()[obj as int] is ListObj {
                            assert(doc.slot(obj as int, p@) == Some(
                                doc.list_m(obj as int)[i as int],
                            ));
                        }
                    }
                    out.push(v);
                },
                Err(e) => {
                    return Err(e);
                },
            }
            i += 1;
        }
        Ok(out)
    }
}

impl<T: Hydrate> Hydrate for Option<T> {
    open spec fn from_none(v: Self) -> bool {
        v is None
    }

    open spec fn from_bool(b: bool, v: Self) -> bool {
        v matches Some(w) && T::from_bool(b, w)
    }

    open spec fn from_bytes(bs: Seq<u8>, v: Self) -> bool {
        v matches Some(w) && T::from_bytes(bs, w)
    }

    open spec fn from_counter(c: i64, v: Self) -> bool {
        v matches Some(w) && T::from_counter(c, w)
    }

    open spec fn from_int(i: i64, v: Self) -> bool {
        v matches Some(w) && T::from_int(i, w)
    }

    open spec fn from_uint(u: u64, v: Self) -> bool {
        v matches Some(w) && T::from_uint(u, w)
    }

    open spec fn from_string(sm: Seq<char>, v: Self) -> bool {
        v matches Some(w) && T::from_string(sm, w)
    }

    open spec fn from_timestamp(t: i64, v: Self) -> bool {
        v matches Some(w) && T::from_timestamp(t, w)
    }

    open spec fn from_map(d: Doc, obj: int, v: Self) -> bool {
        v matches Some(w) && T::from_map(d, obj, w)
    }

    open spec fn from_seq(d: Doc, obj: int, v: Self) -> bool {
        v matches Some(w) && T::from_seq(d, obj, w)
    }

    open spec fn from_text(d: Doc, obj: int, v: Self) -> bool {
        v matches Some(w) && T::from_text(d, obj, w)
    }

    /// A null scalar reads as `None`; a missing slot is an error; anything
    /// else hydrates the inner type.
    fn hydrate(doc: &Doc, obj: usize, prop: &Prop) -> (r: Result<Self, HydrateError>)
        ensures
            doc.is_obj(obj as int) && doc.slot(obj as int, prop@) == Some(
                NodeM::Scalar(crate::doc::ScalarM::Null),
            ) ==> r == Ok::<Option<T>, HydrateError>(None),
            doc.is_obj(obj as int) && doc.slot(obj as int, prop@) is None ==> r is Err,
            (r matches Ok(o) && o is None) ==> doc.slot(obj as int, prop@) == Some(
                NodeM::Scalar(crate::doc::ScalarM::Null),
            ),
    {
        match doc.get(obj, prop) {
            Err(e) => Err(HydrateError::Doc(e)),
            Ok(None) => Err(
                HydrateError::unexpected("a null scalar", "nothing at all".to_owned()),
            ),
            Ok(Some(Node::Scalar(ScalarVal::Null))) => Ok(None),
            Ok(Some(Node::Scalar(s))) => match T::hydrate_scalar(&s) {
                Ok(v) => Ok(Some(v)),
                Err(e) => Err(e),
            },
            Ok(Some(Node::Obj(id))) => {
                proof {
                    crate::doc::lemma_slot_obj_bounds(*doc, obj as int, prop@);
                }
                let inner = match doc.object_kind(id) {
                    Some(crate::doc::ObjKind::MapObj) => T::hydrate_map(doc, id),
                    Some(crate::doc::ObjKind::ListObj) => T::hydrate_seq(doc, id),
                    Some(crate::doc::ObjKind::TextObj) => T::hydrate_text(doc, id),
                    None => {
                        proof {
                            assert(false);
                        }
                        T::hydrate_none()
                    },
                };
                match inner {
                    Ok(v) => Ok(Some(v)),
                    Err(e) => Err(e),
                }
            },
        }
    }
}

impl<T: Hydrate> Hydrate for Box<T> {
    open spec fn from_none(v: Self) -> bool {
        T::from_none(*v)
    }

    open spec fn from_bool(b: bool, v: Self) -> bool {
        T::from_bool(b, *v)
    }

    open spec fn from_bytes(bs: Seq<u8>, v: Self) -> bool {
        T::from_bytes(bs, *v)
    }

    open spec fn from_counter(c: i64, v: Self) -> bool {
        T::from_counter(c, *v)
    }

    open spec fn from_int(i: i64, v: Self) -> bool {
        T::from_int(i, *v)
    }

    open spec fn from_uint(u: u64, v: Self) -> bool {
        T::from_uint(u, *v)
    }

    open spec fn from_string(sm: Seq<char>, v: Self) -> bool {
        T::from_string(sm, *v)
    }

    open spec fn from_timestamp(t: i64, v: Self) -> bool {
        T::from_timestamp(t, *v)
    }

    open spec fn from_map(d: Doc, obj: int, v: Self) -> bool {
        T::from_map(d, obj, *v)
    }

    open spec fn from_seq(d: Doc, obj: int, v: Self) -> bool {
        T::from_seq(d, obj, *v)
    }

    open spec fn from_text(d: Doc, obj: int, v: Self) -> bool {
        T::from_text(d, obj, *v)
    }

    fn hydrate(doc: &Doc, obj: usize, prop: &Prop) -> (r: Result<Self, HydrateError>) {
        match T::hydrate(doc, obj, prop) {
            Ok(v) => Ok(Box::new(v)),
            Err(e) => Err(e),
        }
    }
}

impl<T: Reconcile> Reconcile for Option<T> {
    open spec fn key_m(&self) -> LoadKeyM {
        match self {
            Some(v) => v.key_m(),
            None => LoadKeyM::KeyNotFound,
        }
    }

    open spec fn slot_key_m(d: Doc, obj: int, prop: crate::prop::PropM) -> LoadKeyM {
        match d.slot(obj, prop) {
            None => LoadKeyM::KeyNotFound,
            Some(NodeM::Scalar(crate::doc::ScalarM::Null)) => LoadKeyM::KeyNotFound,
            _ => T::slot_key_m(d, obj, prop),
        }
    }

    /// The key of the value inside, or `KeyNotFound` for `None`.
    fn key(&self) -> (r: LoadKey<KeyVal>) {
        match self {
            Some(v) => v.key(),
            None => LoadKey::KeyNotFound,
        }
    }

    fn hydrate_key(doc: &Doc, obj: usize, prop: &Prop) -> (r: Result<
        LoadKey<KeyVal>,
        ReconcileError,
    >) {
        match doc.get(obj, prop) {
            Err(e) => Err(ReconcileError::Doc(e)),
            Ok(None) => Ok(LoadKey::KeyNotFound),
            Ok(Some(Node::Scalar(ScalarVal::Null))) => Ok(LoadKey::KeyNotFound),
            Ok(Some(_)) => T::hydrate_key(doc, obj, prop),
        }
    }

    fn reconcile(&self, doc: &mut Doc, rec: &Reconciler) -> (res: Result<(), ReconcileError>)
        ensures
            self is None ==> rec.scalar_write_res(
                *old(doc),
                *final(doc),
                crate::doc::ScalarM::Null,
                res,
            ),
    {
        match self {
            Some(v) => v.reconcile(doc, rec),
            None => rec.none(doc),
        }
    }
}

impl<T: Reconcile> Reconcile for Box<T> {
    open spec fn key_m(&self) -> LoadKeyM {
        let inner: &T = &*self;
        inner.key_m()
    }

    open spec fn slot_key_m(d: Doc, obj: int, prop: crate::prop::PropM) -> LoadKeyM {
        T::slot_key_m(d, obj, prop)
    }

    fn key(&self) -> (r: LoadKey<KeyVal>) {
        let inner: &T = &*self;
        inner.key()
    }

    fn hydrate_key(doc: &Doc, obj: usize, prop: &Prop) -> (r: Result<
        LoadKey<KeyVal>,
        ReconcileError,
    >) {
        T::hydrate_key(doc, obj, prop)
    }

    fn reconcile(&self, doc: &mut Doc, rec: &Reconciler) -> (res: Result<(), ReconcileError>) {
        let inner: &T = &*self;
        inner.reconcile(doc, rec)
    }
}


// ---------------------------------------------------------------------------
// Tuples
// ---------------------------------------------------------------------------

/// Make the sequence at `seq` exactly `arity` long for a positional tuple
/// write: stale trailing elements are deleted from the end, and the returned
/// length never exceeds `arity`.
#[verifier::loop_isolation(false)]
fn trim_tuple_tail(seq: &crate::reconcile::SeqReconciler, doc: &mut Doc, arity: usize) -> (r:
    usize)
    requires
        old(doc).wf(),
        seq.ok(*old(doc)),
    ensures
        target_frame(
            TargetM::Slot { obj: seq.obj as int, prop: crate::prop::PropM::Index(0) },
            *old(doc),
            *final(doc),
        ),
        final(doc).objs_m()[seq.obj as int] is ListObj,
        seq.ok(*final(doc)),
        r as int == final(doc).list_m(seq.obj as int).len(),
        r <= arity,
        final(doc).list_m(seq.obj as int).len() <= old(doc).list_m(seq.obj as int).len(),
{
    let ghost g = seq.obj as int;
    let ghost tc = TargetM::Slot { obj: g, prop: crate::prop::PropM::Index(0) };
    let ghost pre = *doc;
    proof {
        lemma_frame_refl(tc, *doc);
        assert(pre.objs_m()[g] is ListObj);
    }
    let mut len = match seq.len(doc) {
        Ok(n) => n,
        Err(_) => {
            proof {
                assert(false);
            }
            0
        },
    };
    while len > arity
        invariant
            doc.wf(),
            seq.ok(*doc),
            target_frame(tc, pre, *doc),
            len as int == doc.list_m(g).len(),
            doc.list_m(g).len() <= pre.list_m(g).len(),
        decreases len,
    {
        let ghost before = *doc;
        match seq.delete(doc, len - 1) {
            Ok(_) => {
                proof {
                    assert(target_frame(tc, before, *doc));
                    lemma_frame_trans(tc, pre, before, *doc);
                }
            },
            Err(_) => {
                proof {
                    assert(false);
                }
            },
        }
        len -= 1;
    }
    proof {
        assert(doc.objs_m()[g] is ListObj);
    }
    len
}

/// Write one tuple element positionally: set it in place when the position
/// exists, insert it when the sequence is still short.
fn put_tuple_elem<T: Reconcile>(
    seq: &crate::reconcile::SeqReconciler,
    doc: &mut Doc,
    len: usize,
    index: usize,
    value: &T,
) -> (r: Result<usize, ReconcileError>)
    requires
        old(doc).wf(),
        seq.ok(*old(doc)),
        len as int == old(doc).list_m(seq.obj as int).len(),
        index <= len,
        len < usize::MAX,
    ensures
        target_frame(
            TargetM::Slot { obj: seq.obj as int, prop: crate::prop::PropM::Index(0) },
            *old(doc),
            *final(doc),
        ),
        r matches Ok(l2) ==> {
            &&& final(doc).objs_m()[seq.obj as int] is ListObj
            &&& l2 as int == final(doc).list_m(seq.obj as int).len()
            &&& l2 as int == if index < len {
                len as int
            } else {
                len + 1
            }
            &&& index < l2
        },
{
    let ghost g = seq.obj as int;
    let ghost tc = TargetM::Slot { obj: g, prop: crate::prop::PropM::Index(0) };
    if index < len {
        match seq.set(doc, index, value) {
            Ok(_) => {
                proof {
                    lemma_frame_retarget(
                        (TargetM::Slot { obj: g, prop: crate::prop::PropM::Index(index as int) }),
                        tc,
                        *old(doc),
                        *doc,
                    );
                }
                Ok(len)
            },
            Err(e) => {
                proof {
                    lemma_frame_retarget(
                        (TargetM::Slot { obj: g, prop: crate::prop::PropM::Index(index as int) }),
                        tc,
                        *old(doc),
                        *doc,
                    );
                }
                Err(e)
            },
        }
    } else {
        match seq.insert(doc, index, value) {
            Ok(_) => {
                proof {
                    lemma_frame_retarget(
                        (TargetM::Fresh { obj: g, index: index as int }),
                        tc,
                        *old(doc),
                        *doc,
                    );
                }
                Ok(len + 1)
            },
            Err(e) => {
                proof {
                    lemma_frame_retarget(
                        (TargetM::Fresh { obj: g, index: index as int }),
                        tc,
                        *old(doc),
                        *doc,
                    );
                }
                Err(e)
            },
        }
    }
}

impl<A: Reconcile, B: Reconcile> Reconcile for (A, B) {
    fn key(&self) -> (r: LoadKey<KeyVal>) {
        LoadKey::NoKey
    }

    fn hydrate_key(doc: &Doc, obj: usize, prop: &Prop) -> (r: Result<
        LoadKey<KeyVal>,
        ReconcileError,
    >) {
        let _ = doc;
        let _ = obj;
        let _ = prop;
        Ok(LoadKey::NoKey)
    }

    /// Reconcile the pair positionally: elements within the document's
    /// length are set in place, missing ones are inserted, and stale
    /// trailing elements beyond the pair are deleted first.
    fn reconcile(&self, doc: &mut Doc, rec: &Reconciler) -> (res: Result<(), ReconcileError>)
        ensures
            res is Ok && !(rec.target@ is Root) ==> (match crate::reconcile::target_node(
                rec.target@,
                *final(doc),
            ) {
                Some(NodeM::Obj(g)) => final(doc).objs_m()[g] is ListObj && final(doc).list_m(
                    g,
                ).len() == 2,
                _ => false,
            }),
    {
        let ghost pre = *doc;
        let seq = match rec.seq(doc) {
            Ok(s) => s,
            Err(e) => {
                proof {
                    lemma_frame_refl(rec.target@, *doc);
                }
                return Err(e);
            },
        };
        let ghost mid = *doc;
        let ghost g = seq.obj as int;
        let ghost tc = TargetM::Slot { obj: g, prop: crate::prop::PropM::Index(0) };
        proof {
            if rec.target@ is Root {
                assert(pre.objs_m()[0] is MapObj);
                assert(false);
            }
            assert(crate::reconcile::target_obj(rec.target@) < g);
        }
        let ghost s0 = *doc;
        let len = trim_tuple_tail(&seq, doc, 2);
        let ghost s1 = *doc;
        let res: Result<(), ReconcileError> = match put_tuple_elem(&seq, doc, len, 0, &self.0) {
            Ok(l1) => match put_tuple_elem(&seq, doc, l1, 1, &self.1) {
                Ok(_) => Ok(()),
                Err(e) => Err(e),
            },
            Err(e) => Err(e),
        };
        proof {
            lemma_frame_trans(tc, s0, s1, *doc);
            lemma_frame_retarget(tc, rec.target@, mid, *doc);
            lemma_frame_trans(rec.target@, pre, mid, *doc);
            if res is Ok {
                lemma_good_preserved(rec.target@, pre, mid, *doc, g);
            }
        }
        res
    }
}

impl<A: Reconcile, B: Reconcile, C: Reconcile> Reconcile for (A, B, C) {
    fn key(&self) -> (r: LoadKey<KeyVal>) {
        LoadKey::NoKey
    }

    fn hydrate_key(doc: &Doc, obj: usize, prop: &Prop) -> (r: Result<
        LoadKey<KeyVal>,
        ReconcileError,
    >) {
        let _ = doc;
        let _ = obj;
        let _ = prop;
        Ok(LoadKey::NoKey)
    }

    /// Reconcile the triple positionally, like the pair.
    fn reconcile(&self, doc: &mut Doc, rec: &Reconciler) -> (res: Result<(), ReconcileError>)
        ensures
            res is Ok && !(rec.target@ is Root) ==> (match crate::reconcile::target_node(
                rec.target@,
                *final(doc),
            ) {
                Some(NodeM::Obj(g)) => final(doc).objs_m()[g] is ListObj && final(doc).list_m(
                    g,
                ).len() == 3,
                _ => false,
            }),
    {
        let ghost pre = *doc;
        let seq = match rec.seq(doc) {
            Ok(s) => s,
            Err(e) => {
                proof {
                    lemma_frame_refl(rec.target@, *doc);
                }
                return Err(e);
            },
        };
        let ghost mid = *doc;
        let ghost g = seq.obj as int;
        let ghost tc = TargetM::Slot { obj: g, prop: crate::prop::PropM::Index(0) };
        proof {
            if rec.target@ is Root {
                assert(pre.objs_m()[0] is MapObj);
                assert(false);
            }
            assert(crate::reconcile::target_obj(rec.target@) < g);
        }
        let ghost s0 = *doc;
        let len = trim_tuple_tail(&seq, doc, 3);
        let ghost s1 = *doc;
        let res: Result<(), ReconcileError> = match put_tuple_elem(&seq, doc, len, 0, &self.0) {
            Ok(l1) => match put_tuple_elem(&seq, doc, l1, 1, &self.1) {
                Ok(l2) => match put_tuple_elem(&seq, doc, l2, 2, &self.2) {
                    Ok(_) => Ok(()),
                    Err(e) => Err(e),
                },
                Err(e) => Err(e),
            },
            Err(e) => Err(e),
        };
        proof {
            lemma_frame_trans(tc, s0, s1, *doc);
            lemma_frame_retarget(tc, rec.target@, mid, *doc);
            lemma_frame_trans(rec.target@, pre, mid, *doc);
            if res is Ok {
                lemma_good_preserved(rec.target@, pre, mid, *doc, g);
            }
        }
        res
    }
}

impl<A: Hydrate, B: Hydrate> Hydrate for (A, B) {
    /// A pair read from a sequence of exactly two elements, each standing in
    /// its type's relation to the node at its position.
    open spec fn from_seq(d: Doc, obj: int, v: Self) -> bool {
        d.kind_m(obj) == crate::doc::ObjKind::ListObj ==> {
            &&& d.list_m(obj).len() == 2
            &&& node_reads::<A>(d, d.list_m(obj)[0], v.0)
            &&& node_reads::<B>(d, d.list_m(obj)[1], v.1)
        }
    }

    /// Hydrate a pair from a sequence of exactly two elements.
    fn hydrate_seq(doc: &Doc, obj: usize) -> (r: Result<Self, HydrateError>)
        ensures
            doc.objs_m()[obj as int] is ListObj && doc.list_m(obj as int).len() != 2 ==> (r
                matches Err(HydrateError::Unexpected(_))),
    {
        if doc.length(obj) != 2 {
            return Err(
                HydrateError::unexpected(
                    "tuple arity mismatch",
                    "a sequence of another length".to_owned(),
                ),
            );
        }
        let a = match A::hydrate(doc, obj, &Prop::Index(0)) {
            Ok(a) => a,
            Err(e) => {
                return Err(e);
            },
        };
        let b = match B::hydrate(doc, obj, &Prop::Index(1)) {
            Ok(b) => b,
            Err(e) => {
                return Err(e);
            },
        };
        Ok((a, b))
    }
}

impl<A: Hydrate, B: Hydrate, C: Hydrate> Hydrate for (A, B, C) {
    /// A triple read from a sequence of exactly three elements, like the
    /// pair.
    open spec fn from_seq(d: Doc, obj: int, v: Self) -> bool {
        d.kind_m(obj) == crate::doc::ObjKind::ListObj ==> {
            &&& d.list_m(obj).len() == 3
            &&& node_reads::<A>(d, d.list_m(obj)[0], v.0)
            &&& node_reads::<B>(d, d.list_m(obj)[1], v.1)
            &&& node_reads::<C>(d, d.list_m(obj)[2], v.2)
        }
    }

    /// Hydrate a triple from a sequence of exactly three elements.
    fn hydrate_seq(doc: &Doc, obj: usize) -> (r: Result<Self, HydrateError>)
        ensures
            doc.objs_m()[obj as int] is ListObj && doc.list_m(obj as int).len() != 3 ==> (r
                matches Err(HydrateError::Unexpected(_))),
    {
        if doc.length(obj) != 3 {
            return Err(
                HydrateError::unexpected(
                    "tuple arity mismatch",
                    "a sequence of another length".to_owned(),
                ),
            );
        }
        let a = match A::hydrate(doc, obj, &Prop::Index(0)) {
            Ok(a) => a,
            Err(e) => {
                return Err(e);
            },
        };
        let b = match B::hydrate(doc, obj, &Prop::Index(1)) {
            Ok(b) => b,
            Err(e) => {
                return Err(e);
            },
        };
        let c = match C::hydrate(doc, obj, &Prop::Index(2)) {
            Ok(c) => c,
            Err(e) => {
                return Err(e);
            },
        };
        Ok((a, b, c))
    }
}

} // verus!
