//! Reconciliation: writing a typed value into the document so that the tree
//! shape matches the value while disturbing as little existing structure as
//! possible, so concurrent edits made by other writers stay mergeable.

use vstd::prelude::*;

use crate::doc::{
    empty_obj_m, grows_one_except, list_insert, list_write, map_write, next_heads,
    same_objs_except, Doc, DocError, Node, NodeM, ObjKind, ScalarM, ScalarVal, WriteOpM,
};
use crate::doc::{bytes_eq, clone_bytes};
use crate::hydrate::{strip_unexpected, Hydrate, HydrateError};
use crate::prop::{clone_string, Prop, PropM};

verus! {

// ---------------------------------------------------------------------------
// Identity keys
// ---------------------------------------------------------------------------

/// An identity key: the scalar by which reconciliation recognises "the same
/// logical item" in the document.
#[derive(Clone, Debug, PartialEq, Eq, Hash)]
pub enum KeyVal {
    Str(String),
    Uint(u64),
    Int(i64),
    Bool(bool),
    Bytes(Vec<u8>),
}

/// The mathematical form of a [`KeyVal`].
pub enum KeyM {
    Str(Seq<char>),
    Uint(u64),
    Int(i64),
    Bool(bool),
    Bytes(Seq<u8>),
}

impl View for KeyVal {
    type V = KeyM;

    open spec fn view(&self) -> KeyM {
        match self {
            KeyVal::Str(s) => KeyM::Str(s@),
            KeyVal::Uint(u) => KeyM::Uint(*u),
            KeyVal::Int(i) => KeyM::Int(*i),
            KeyVal::Bool(b) => KeyM::Bool(*b),
            KeyVal::Bytes(b) => KeyM::Bytes(b@),
        }
    }
}

/// Key equality, decided by the mathematical values.
pub fn key_eq(a: &KeyVal, b: &KeyVal) -> (r: bool)
    ensures
        r == (a@ == b@),
{
    match (a, b) {
        (KeyVal::Str(x), KeyVal::Str(y)) => x.eq(y),
        (KeyVal::Uint(x), KeyVal::Uint(y)) => x == y,
        (KeyVal::Int(x), KeyVal::Int(y)) => x == y,
        (KeyVal::Bool(x), KeyVal::Bool(y)) => x == y,
        (KeyVal::Bytes(x), KeyVal::Bytes(y)) => bytes_eq(x, y),
        _ => false,
    }
}

/// Clone a key, keeping its value.
pub fn clone_key(k: &KeyVal) -> (r: KeyVal)
    ensures
        r@ == k@,
{
    match k {
        KeyVal::Str(s) => KeyVal::Str(clone_string(s)),
        KeyVal::Uint(u) => KeyVal::Uint(*u),
        KeyVal::Int(i) => KeyVal::Int(*i),
        KeyVal::Bool(b) => KeyVal::Bool(*b),
        KeyVal::Bytes(b) => KeyVal::Bytes(clone_bytes(b)),
    }
}

/// Placeholder key type for values that carry no identity.
pub struct NoKey;

/// The tri-state result of trying to obtain an identity key: the type never
/// has one, it should have one but none could be read, or it was found.
#[derive(Debug)]
pub enum LoadKey<K> {
    NoKey,
    KeyNotFound,
    Found(K),
}

impl<K> LoadKey<K> {
    /// If this is a `LoadKey::Found`, map `f` over the contents.
    pub fn map<L, F: FnOnce(K) -> L>(self, f: F) -> (r: LoadKey<L>)
        requires
            forall|k: K| self == LoadKey::Found(k) ==> f.requires((k,)),
        ensures
            match self {
                LoadKey::Found(k) => r matches LoadKey::Found(l) && f.ensures((k,), l),
                LoadKey::NoKey => r is NoKey,
                LoadKey::KeyNotFound => r is KeyNotFound,
            },
    {
        match self {
            LoadKey::NoKey => LoadKey::NoKey,
            LoadKey::KeyNotFound => LoadKey::KeyNotFound,
            LoadKey::Found(k) => LoadKey::Found(f(k)),
        }
    }

    /// Whether a key was found.
    pub fn is_found(&self) -> (r: bool)
        ensures
            r == (self is Found),
    {
        match self {
            LoadKey::Found(_) => true,
            _ => false,
        }
    }
}

/// The mathematical form of a loaded identity key.
pub enum LoadKeyM {
    NoKey,
    KeyNotFound,
    Found(KeyM),
}

/// The mathematical form of a [`LoadKey`] of keys.
pub open spec fn load_key_m(k: LoadKey<KeyVal>) -> LoadKeyM {
    match k {
        LoadKey::NoKey => LoadKeyM::NoKey,
        LoadKey::KeyNotFound => LoadKeyM::KeyNotFound,
        LoadKey::Found(v) => LoadKeyM::Found(v@),
    }
}

// ---------------------------------------------------------------------------
// Errors
// ---------------------------------------------------------------------------

/// The staleness report of a text reconciliation: the snapshot token the
/// value was hydrated at, and the token the document holds now.
#[derive(Debug)]
pub struct StaleHeads {
    pub expected: u64,
    pub found: u64,
}

/// An error raised while reconciling a value with the document.
#[derive(Debug)]
pub enum ReconcileError {
    /// A fault of the document store, passed through unchanged.
    Doc(DocError),
    /// The root of a document can only reconcile to a map.
    TopLevelNotMap,
    /// A rehydrated text value was reconciled after the document moved on.
    StaleHeads(StaleHeads),
}

// ---------------------------------------------------------------------------
// The reconciler cursor
// ---------------------------------------------------------------------------

/// Where a reconciler cursor writes: the document root, an existing slot, or
/// a fresh position inside a sequence.
#[derive(Debug)]
pub enum Target {
    Root,
    Slot { obj: usize, prop: Prop },
    Fresh { obj: usize, index: usize },
}

/// The mathematical form of a [`Target`].
pub enum TargetM {
    Root,
    Slot { obj: int, prop: PropM },
    Fresh { obj: int, index: int },
}

impl View for Target {
    type V = TargetM;

    open spec fn view(&self) -> TargetM {
        match self {
            Target::Root => TargetM::Root,
            Target::Slot { obj, prop } => TargetM::Slot { obj: *obj as int, prop: prop@ },
            Target::Fresh { obj, index } => TargetM::Fresh {
                obj: *obj as int,
                index: *index as int,
            },
        }
    }
}

/// The target addresses a live position of `d`.
pub open spec fn target_ok(t: TargetM, d: Doc) -> bool {
    match t {
        TargetM::Root => true,
        TargetM::Slot { obj, prop } => d.is_obj(obj) && match prop {
            PropM::Key(_) => d.kind_m(obj) == ObjKind::MapObj,
            PropM::Index(i) => d.kind_m(obj) == ObjKind::ListObj && 0 <= i < d.list_m(obj).len(),
        },
        TargetM::Fresh { obj, index } => d.is_obj(obj) && d.kind_m(obj) == ObjKind::ListObj
            && index <= d.list_m(obj).len(),
    }
}

/// What every reconciliation through a cursor preserves, whether it succeeds
/// or fails partway: well-formedness, the snapshot token, the log as a
/// prefix, and every object below the target, which is how a nested write is
/// known not to disturb its ancestors.
pub open spec fn target_frame(t: TargetM, pre: Doc, post: Doc) -> bool {
    &&& post.wf()
    &&& post.heads_m() == pre.heads_m()
    &&& post.num_objs() >= pre.num_objs()
    &&& pre.log_m().is_prefix_of(post.log_m())
    &&& post.dirty_m() == (pre.dirty_m() || post.log_m() != pre.log_m())
    &&& match t {
        TargetM::Root => true,
        TargetM::Slot { obj, .. } => forall|x: int|
            0 <= x < pre.num_objs() && x < obj ==> post.objs_m()[x] == pre.objs_m()[x],
        TargetM::Fresh { obj, .. } => forall|x: int|
            0 <= x < pre.num_objs() && x < obj ==> post.objs_m()[x] == pre.objs_m()[x],
    }
}

/// What a successful reconciliation guarantees about the target's container:
/// a slot write fills the slot and leaves its siblings untouched; a fresh
/// write inserts exactly one element.
pub open spec fn target_good(t: TargetM, pre: Doc, post: Doc) -> bool {
    match t {
        TargetM::Root => true,
        TargetM::Slot { obj, prop } => {
            &&& match prop {
                PropM::Key(k) => {
                    &&& post.objs_m()[obj] is MapObj
                    &&& post.slot(obj, PropM::Key(k)) is Some
                    &&& forall|k2: Seq<char>|
                        k2 != k ==> post.slot(obj, PropM::Key(k2)) == pre.slot(
                            obj,
                            PropM::Key(k2),
                        )
                    &&& (crate::doc::map_keys_of(post, obj) == crate::doc::map_keys_of(pre, obj)
                        || crate::doc::map_keys_of(post, obj) == crate::doc::map_keys_of(
                        pre,
                        obj,
                    ).push(k))
                },
                PropM::Index(i) => {
                    &&& post.objs_m()[obj] is ListObj
                    &&& post.list_m(obj).len() == pre.list_m(obj).len()
                    &&& forall|j: int|
                        0 <= j < pre.list_m(obj).len() && j != i ==> post.list_m(obj)[j]
                            == pre.list_m(obj)[j]
                },
            }
            // an object reference written to the slot is either the one that
            // was already there — identity preserved — or a freshly created
            // object; nothing can smuggle an old, unrelated identity in
            &&& match post.slot(obj, prop) {
                Some(NodeM::Obj(t)) => pre.slot(obj, prop) == Some(NodeM::Obj(t)) || t
                    >= pre.num_objs(),
                _ => true,
            }
        },
        TargetM::Fresh { obj, index } => {
            &&& post.objs_m()[obj] is ListObj
            &&& post.list_m(obj).len() == pre.list_m(obj).len() + 1
            &&& post.list_m(obj).subrange(0, index) == pre.list_m(obj).subrange(0, index)
            &&& post.list_m(obj).skip(index + 1) == pre.list_m(obj).skip(index)
            &&& match post.list_m(obj)[index] {
                NodeM::Obj(t) => t >= pre.num_objs(),
                _ => true,
            }
        },
    }
}

/// Inserting into a sequence keeps the prefix before the insertion point and
/// shifts the suffix up by one.
pub proof fn lemma_insert_parts<A>(s: Seq<A>, i: int, a: A)
    requires
        0 <= i <= s.len(),
    ensures
        s.insert(i, a).subrange(0, i) =~= s.subrange(0, i),
        s.insert(i, a).skip(i + 1) =~= s.skip(i),
{
}

/// What writing scalar `v` through a cursor at target `t` does: at the root
/// it is refused outright; at a slot it overwrites, unless the slot already
/// holds exactly `v`, in which case nothing changes and nothing is logged;
/// at a fresh position it inserts.
pub open spec fn scalar_write_res_m(
    t: TargetM,
    pre: Doc,
    post: Doc,
    v: ScalarM,
    r: Result<(), ReconcileError>,
) -> bool {
    match t {
        TargetM::Root => r == Err::<(), ReconcileError>(ReconcileError::TopLevelNotMap) && post
            == pre,
        TargetM::Slot { obj, prop } => r is Ok && if pre.slot(obj, prop) == Some(
            NodeM::Scalar(v),
        ) {
            post == pre
        } else {
            &&& same_objs_except(pre, post, obj)
            &&& match prop {
                PropM::Key(k) => map_write(pre, post, obj, k, NodeM::Scalar(v)),
                PropM::Index(i) => list_write(pre, post, obj, i, NodeM::Scalar(v)),
            }
            &&& post.log_m() == pre.log_m().push(WriteOpM::Put { obj, prop, value: v })
            &&& post.dirty_m()
        },
        TargetM::Fresh { obj, index } => {
            &&& r is Ok
            &&& same_objs_except(pre, post, obj)
            &&& list_insert(pre, post, obj, index, NodeM::Scalar(v))
            &&& post.log_m() == pre.log_m().push(WriteOpM::Insert { obj, index, value: v })
            &&& post.dirty_m()
        },
    }
}

/// A reconciliation replaces a slot's composite occupant only when its kind
/// did not fit: a fresh object appears over an old one solely under a kind
/// change. The keyed-replacement path deliberately breaks this — that is its
/// purpose — so the keyed writers state their own identity clauses instead.
pub open spec fn kind_fitting(t: TargetM, pre: Doc, post: Doc) -> bool {
    match t {
        TargetM::Slot { obj, prop } => match post.slot(obj, prop) {
            Some(NodeM::Obj(tn)) => (tn >= pre.num_objs() && pre.slot(obj, prop) matches Some(
                NodeM::Obj(_),
            )) ==> post.kind_m(tn) != pre.kind_m(pre.slot(obj, prop)->0->Obj_0),
            _ => true,
        },
        _ => true,
    }
}

/// A cursor into the document: an addressable position that may or may not
/// already hold a node. Writing a scalar through it either overwrites the
/// slot or inserts; switching it to a composite kind reuses the object
/// already there when the kind matches, which is what preserves object
/// identity across reconciliations.
pub struct Reconciler {
    pub target: Target,
    pub heads: u64,
}

impl Reconciler {
    /// The cursor addresses a live position of `d`.
    pub open spec fn target_ok(&self, d: Doc) -> bool {
        target_ok(self.target@, d)
    }

    /// See [`target_frame`].
    pub open spec fn frame(&self, pre: Doc, post: Doc) -> bool {
        target_frame(self.target@, pre, post)
    }

    /// See [`target_good`].
    pub open spec fn good(&self, pre: Doc, post: Doc) -> bool {
        target_good(self.target@, pre, post)
    }

    /// What writing scalar `v` through the cursor does: at the root it is
    /// refused outright; at a slot it overwrites, unless the slot already
    /// holds exactly `v`, in which case nothing changes and nothing is
    /// logged; at a fresh position it inserts.
    pub open spec fn scalar_write_res(
        &self,
        pre: Doc,
        post: Doc,
        v: ScalarM,
        r: Result<(), ReconcileError>,
    ) -> bool {
        scalar_write_res_m(self.target@, pre, post, v, r)
    }

    /// Write a scalar through the cursor.
    pub fn write_scalar(&self, doc: &mut Doc, value: ScalarVal) -> (r: Result<(), ReconcileError>)
        requires
            old(doc).wf(),
            self.target_ok(*old(doc)),
        ensures
            self.frame(*old(doc), *final(doc)),
            self.scalar_write_res(*old(doc), *final(doc), value@, r),
            r is Ok ==> self.good(*old(doc), *final(doc)),
    {
        match &self.target {
            Target::Root => Err(ReconcileError::TopLevelNotMap),
            Target::Slot { obj, prop } => {
                match doc.put(*obj, prop, value) {
                    Ok(_) => Ok(()),
                    Err(e) => {
                        proof {
                            assert(false);
                        }
                        Err(ReconcileError::Doc(e))
                    },
                }
            },
            Target::Fresh { obj, index } => {
                let ghost vm = value@;
                match doc.insert(*obj, *index, value) {
                    Ok(_) => {
                        proof {
                            lemma_insert_parts(
                                old(doc).list_m(*obj as int),
                                *index as int,
                                NodeM::Scalar(vm),
                            );
                        }
                        Ok(())
                    },
                    Err(e) => {
                        proof {
                            assert(false);
                        }
                        Err(ReconcileError::Doc(e))
                    },
                }
            },
        }
    }

    /// Set the cursor's position to a null scalar.
    pub fn none(&self, doc: &mut Doc) -> (r: Result<(), ReconcileError>)
        requires
            old(doc).wf(),
            self.target_ok(*old(doc)),
        ensures
            self.frame(*old(doc), *final(doc)),
            self.scalar_write_res(*old(doc), *final(doc), ScalarM::Null, r),
            r is Ok ==> self.good(*old(doc), *final(doc)),
    {
        self.write_scalar(doc, ScalarVal::Null)
    }

    /// Set the cursor's position to a boolean scalar.
    pub fn boolean(&self, doc: &mut Doc, value: bool) -> (r: Result<(), ReconcileError>)
        requires
            old(doc).wf(),
            self.target_ok(*old(doc)),
        ensures
            self.frame(*old(doc), *final(doc)),
            self.scalar_write_res(*old(doc), *final(doc), ScalarM::Bool(value), r),
            r is Ok ==> self.good(*old(doc), *final(doc)),
    {
        self.write_scalar(doc, ScalarVal::Bool(value))
    }

    /// Set the cursor's position to an unsigned integer scalar.
    pub fn u64(&self, doc: &mut Doc, value: u64) -> (r: Result<(), ReconcileError>)
        requires
            old(doc).wf(),
            self.target_ok(*old(doc)),
        ensures
            self.frame(*old(doc), *final(doc)),
            self.scalar_write_res(*old(doc), *final(doc), ScalarM::Uint(value), r),
            r is Ok ==> self.good(*old(doc), *final(doc)),
    {
        self.write_scalar(doc, ScalarVal::Uint(value))
    }

    /// Set the cursor's position to a signed integer scalar.
    pub fn i64(&self, doc: &mut Doc, value: i64) -> (r: Result<(), ReconcileError>)
        requires
            old(doc).wf(),
            self.target_ok(*old(doc)),
        ensures
            self.frame(*old(doc), *final(doc)),
            self.scalar_write_res(*old(doc), *final(doc), ScalarM::Int(value), r),
            r is Ok ==> self.good(*old(doc), *final(doc)),
    {
        self.write_scalar(doc, ScalarVal::Int(value))
    }

    /// Set the cursor's position to a string scalar.
    pub fn str(&self, doc: &mut Doc, value: &str) -> (r: Result<(), ReconcileError>)
        requires
            old(doc).wf(),
            self.target_ok(*old(doc)),
        ensures
            self.frame(*old(doc), *final(doc)),
            self.scalar_write_res(*old(doc), *final(doc), ScalarM::Str(value@), r),
            r is Ok ==> self.good(*old(doc), *final(doc)),
    {
        self.write_scalar(doc, ScalarVal::Str(value.to_owned()))
    }

    /// Set the cursor's position to a bytes scalar.
    pub fn bytes(&self, doc: &mut Doc, value: &Vec<u8>) -> (r: Result<(), ReconcileError>)
        requires
            old(doc).wf(),
            self.target_ok(*old(doc)),
        ensures
            self.frame(*old(doc), *final(doc)),
            self.scalar_write_res(*old(doc), *final(doc), ScalarM::Bytes(value@), r),
            r is Ok ==> self.good(*old(doc), *final(doc)),
    {
        self.write_scalar(doc, ScalarVal::Bytes(clone_bytes(value)))
    }

    /// Set the cursor's position to a timestamp scalar.
    pub fn timestamp(&self, doc: &mut Doc, value: i64) -> (r: Result<(), ReconcileError>)
        requires
            old(doc).wf(),
            self.target_ok(*old(doc)),
        ensures
            self.frame(*old(doc), *final(doc)),
            self.scalar_write_res(*old(doc), *final(doc), ScalarM::Timestamp(value), r),
            r is Ok ==> self.good(*old(doc), *final(doc)),
    {
        self.write_scalar(doc, ScalarVal::Timestamp(value))
    }

    /// The snapshot token the enclosing reconciliation started from.
    pub fn heads(&self) -> (r: u64)
        ensures
            r == self.heads,
    {
        self.heads
    }

    /// Whether the cursor addresses the document root.
    pub fn target_is_root(&self) -> (r: bool)
        ensures
            r == (self.target@ is Root),
    {
        matches!(&self.target, Target::Root)
    }

    /// What switching the cursor to a composite object of `kind` does: the
    /// object already at the slot is reused when its kind matches, keeping
    /// its identity and changing nothing; otherwise a fresh object replaces
    /// the slot, or is inserted for a fresh position.
    pub open spec fn obj_target_res(&self, pre: Doc, post: Doc, kind: ObjKind, id: int) -> bool {
        &&& post.is_obj(id)
        &&& post.kind_m(id) == kind
        &&& match self.target {
            Target::Root => id == 0 && post == pre,
            Target::Slot { obj, prop } => {
                &&& (obj as int) < id
                &&& post.slot(obj as int, prop@) == Some(NodeM::Obj(id))
                &&& match pre.slot(obj as int, prop@) {
                    Some(NodeM::Obj(g)) => if pre.kind_m(g) == kind {
                        id == g && post == pre
                    } else {
                        self.created_obj(pre, post, kind, id)
                    },
                    _ => self.created_obj(pre, post, kind, id),
                }
            },
            Target::Fresh { obj, index } => {
                &&& (obj as int) < id
                &&& id == pre.num_objs()
                &&& grows_one_except(pre, post, obj as int)
                &&& post.objs_m()[id] == empty_obj_m(kind)
                &&& list_insert(pre, post, obj as int, index as int, NodeM::Obj(id))
                &&& post.log_m() == pre.log_m().push(
                    WriteOpM::InsertObject {
                        obj: obj as int,
                        index: index as int,
                        kind,
                        new_id: id,
                    },
                )
                &&& post.dirty_m()
            },
        }
    }

    /// A fresh object of `kind` was created at a slot target.
    pub open spec fn created_obj(&self, pre: Doc, post: Doc, kind: ObjKind, id: int) -> bool {
        match self.target {
            Target::Slot { obj, prop } => {
                &&& id == pre.num_objs()
                &&& grows_one_except(pre, post, obj as int)
                &&& post.objs_m()[id] == empty_obj_m(kind)
                &&& match prop@ {
                    PropM::Key(k) => map_write(pre, post, obj as int, k, NodeM::Obj(id)),
                    PropM::Index(i) => list_write(pre, post, obj as int, i, NodeM::Obj(id)),
                }
                &&& post.log_m() == pre.log_m().push(
                    WriteOpM::PutObject { obj: obj as int, prop: prop@, kind, new_id: id },
                )
                &&& post.dirty_m()
            },
            _ => false,
        }
    }

    /// Switch the cursor to a composite object of `kind`, reusing the object
    /// already present when its kind matches. At the root only a map is
    /// accepted. Returns the object's id.
    fn obj_target(&self, doc: &mut Doc, kind: ObjKind) -> (r: Result<usize, ReconcileError>)
        requires
            old(doc).wf(),
            self.target_ok(*old(doc)),
        ensures
            self.frame(*old(doc), *final(doc)),
            match r {
                Ok(id) => self.obj_target_res(*old(doc), *final(doc), kind, id as int) && (
                self.target is Root ==> kind == ObjKind::MapObj),
                Err(e) => self.target is Root && kind != ObjKind::MapObj && *final(doc) == *old(
                    doc,
                ) && e is TopLevelNotMap,
            },
            r is Ok ==> self.good(*old(doc), *final(doc)),
    {
        match &self.target {
            Target::Root => {
                if let ObjKind::MapObj = kind {
                    Ok(0)
                } else {
                    Err(ReconcileError::TopLevelNotMap)
                }
            },
            Target::Slot { obj, prop } => {
                let existing = match doc.get(*obj, prop) {
                    Ok(v) => v,
                    Err(e) => {
                        proof {
                            assert(false);
                        }
                        return Err(ReconcileError::Doc(e));
                    },
                };
                if let Some(Node::Obj(g)) = existing {
                    proof {
                        crate::doc::lemma_slot_obj_bounds(*doc, *obj as int, prop@);
                    }
                    let gk = match doc.object_kind(g) {
                        Some(gk) => gk,
                        None => {
                            proof {
                                assert(false);
                            }
                            return Err(ReconcileError::TopLevelNotMap);
                        },
                    };
                    let same = match (gk, kind) {
                        (ObjKind::MapObj, ObjKind::MapObj) => true,
                        (ObjKind::ListObj, ObjKind::ListObj) => true,
                        (ObjKind::TextObj, ObjKind::TextObj) => true,
                        _ => false,
                    };
                    if same {
                        return Ok(g);
                    }
                }
                match doc.put_object(*obj, prop, kind) {
                    Ok(id) => Ok(id),
                    Err(e) => {
                        proof {
                            assert(false);
                        }
                        Err(ReconcileError::Doc(e))
                    },
                }
            },
            Target::Fresh { obj, index } => {
                match doc.insert_object(*obj, *index, kind) {
                    Ok(id) => {
                        proof {
                            lemma_insert_parts(
                                old(doc).list_m(*obj as int),
                                *index as int,
                                NodeM::Obj(id as int),
                            );
                        }
                        Ok(id)
                    },
                    Err(e) => {
                        proof {
                            assert(false);
                        }
                        Err(ReconcileError::Doc(e))
                    },
                }
            },
        }
    }

    /// Switch the cursor to a map, creating one only if a different kind
    /// occupies the position.
    pub fn map(&self, doc: &mut Doc) -> (r: Result<MapReconciler, ReconcileError>)
        requires
            old(doc).wf(),
            self.target_ok(*old(doc)),
        ensures
            self.frame(*old(doc), *final(doc)),
            r matches Ok(c) ==> c.heads == self.heads && self.obj_target_res(
                *old(doc),
                *final(doc),
                ObjKind::MapObj,
                c.obj as int,
            ) && self.good(*old(doc), *final(doc)),
            r is Err ==> false,
    {
        match self.obj_target(doc, ObjKind::MapObj) {
            Ok(id) => Ok(MapReconciler { obj: id, heads: self.heads }),
            Err(e) => {
                proof {
                    assert(false);
                }
                Err(e)
            },
        }
    }

    /// Switch the cursor to a sequence, creating one only if a different
    /// kind occupies the position. Refused at the document root.
    pub fn seq(&self, doc: &mut Doc) -> (r: Result<SeqReconciler, ReconcileError>)
        requires
            old(doc).wf(),
            self.target_ok(*old(doc)),
        ensures
            self.frame(*old(doc), *final(doc)),
            r matches Ok(c) ==> c.heads == self.heads && self.obj_target_res(
                *old(doc),
                *final(doc),
                ObjKind::ListObj,
                c.obj as int,
            ) && self.good(*old(doc), *final(doc)),
            r is Err ==> self.target is Root && *final(doc) == *old(doc) && (r matches Err(e)
                && e is TopLevelNotMap),
    {
        match self.obj_target(doc, ObjKind::ListObj) {
            Ok(id) => Ok(SeqReconciler { obj: id, heads: self.heads }),
            Err(e) => Err(e),
        }
    }

    /// Switch the cursor to a text object, creating one only if a different
    /// kind occupies the position. Refused at the document root.
    pub fn text(&self, doc: &mut Doc) -> (r: Result<TextReconciler, ReconcileError>)
        requires
            old(doc).wf(),
            self.target_ok(*old(doc)),
        ensures
            self.frame(*old(doc), *final(doc)),
            r matches Ok(c) ==> c.heads == self.heads && self.obj_target_res(
                *old(doc),
                *final(doc),
                ObjKind::TextObj,
                c.obj as int,
            ) && self.good(*old(doc), *final(doc)),
            r is Err ==> self.target is Root && *final(doc) == *old(doc) && (r matches Err(e)
                && e is TopLevelNotMap),
    {
        match self.obj_target(doc, ObjKind::TextObj) {
            Ok(id) => Ok(TextReconciler { obj: id, heads: self.heads }),
            Err(e) => Err(e),
        }
    }

    /// Switch the cursor to a counter. Refused at the document root.
    pub fn counter(&self, doc: &mut Doc) -> (r: Result<CounterReconciler, ReconcileError>)
        requires
            old(doc).wf(),
            self.target_ok(*old(doc)),
        ensures
            *final(doc) == *old(doc),
            match r {
                Ok(c) => !(self.target is Root) && c.heads == self.heads && c.target@
                    == self.target@,
                Err(e) => self.target is Root && e is TopLevelNotMap,
            },
    {
        match &self.target {
            Target::Root => Err(ReconcileError::TopLevelNotMap),
            Target::Slot { obj, prop } => Ok(CounterReconciler {
                target: Target::Slot { obj: *obj, prop: prop.clone_prop() },
                heads: self.heads,
            }),
            Target::Fresh { obj, index } => Ok(CounterReconciler {
                target: Target::Fresh { obj: *obj, index: *index },
                heads: self.heads,
            }),
        }
    }
}


// ---------------------------------------------------------------------------
// Cursors for composite objects
// ---------------------------------------------------------------------------

/// A cursor at a map object of the document.
pub struct MapReconciler {
    pub obj: usize,
    pub heads: u64,
}

/// A cursor at a sequence object of the document.
pub struct SeqReconciler {
    pub obj: usize,
    pub heads: u64,
}

/// A cursor at a text object of the document.
pub struct TextReconciler {
    pub obj: usize,
    pub heads: u64,
}

/// A cursor at a counter slot of the document.
pub struct CounterReconciler {
    pub target: Target,
    pub heads: u64,
}

/// When writing a value with key `vk` over slot `(obj, prop)` must force a
/// fresh object identity: the slot holds a composite whose hydrated identity
/// key is present, and the value either carries a different key or should
/// have one but does not. A value whose type has no key notion, or a slot
/// whose key cannot be read, never forces replacement.
pub open spec fn forced_replacement<T: Reconcile>(
    d: Doc,
    obj: int,
    prop: PropM,
    vk: LoadKeyM,
) -> bool {
    &&& d.slot(obj, prop) matches Some(NodeM::Obj(_))
    &&& match (vk, T::slot_key_m(d, obj, prop)) {
        (LoadKeyM::Found(a), LoadKeyM::Found(b)) => a != b,
        (LoadKeyM::KeyNotFound, LoadKeyM::Found(_)) => true,
        _ => false,
    }
}

/// Decide [`forced_replacement`] for `value` at slot `(obj, prop)`.
fn keyed_mismatch<T: Reconcile>(doc: &Doc, obj: usize, prop: &Prop, value: &T) -> (r: Result<
    bool,
    ReconcileError,
>)
    requires
        doc.wf(),
    ensures
        r matches Ok(m) ==> m == forced_replacement::<T>(
            *doc,
            obj as int,
            prop@,
            value.key_m(),
        ),
{
    // only a composite occupant has an object identity worth forcing anew;
    // a scalar slot is simply overwritten
    match doc.get(obj, prop) {
        Ok(Some(Node::Obj(_))) => {},
        Ok(_) => {
            return Ok(false);
        },
        Err(e) => {
            return Err(ReconcileError::Doc(e));
        },
    }
    match value.key() {
        LoadKey::NoKey => Ok(false),
        LoadKey::KeyNotFound => match T::hydrate_key(doc, obj, prop) {
            Ok(LoadKey::Found(_)) => Ok(true),
            Ok(_) => Ok(false),
            Err(e) => Err(e),
        },
        LoadKey::Found(nk) => match T::hydrate_key(doc, obj, prop) {
            Ok(LoadKey::Found(ek)) => Ok(!key_eq(&ek, &nk)),
            Ok(_) => Ok(false),
            Err(e) => Err(e),
        },
    }
}

impl MapReconciler {
    /// The cursor points at a live map object of `d`.
    pub open spec fn ok(&self, d: Doc) -> bool {
        d.is_obj(self.obj as int) && d.kind_m(self.obj as int) == ObjKind::MapObj
    }

    /// Reconcile `value` into the entry named `key`, overwriting in place so
    /// that the entry's object identity is preserved where kinds match —
    /// unless the value's identity key differs from the key hydrated from
    /// the entry already there, in which case the entry is deleted first and
    /// takes a fresh identity, so that the merge sees a replacement rather
    /// than a fusion of two different logical items.
    pub fn put<T: Reconcile>(&self, doc: &mut Doc, key: &str, value: &T) -> (r: Result<
        (),
        ReconcileError,
    >)
        requires
            old(doc).wf(),
            self.ok(*old(doc)),
        ensures
            target_frame(
                TargetM::Slot { obj: self.obj as int, prop: PropM::Key(key@) },
                *old(doc),
                *final(doc),
            ),
            r is Ok ==> final(doc).objs_m()[self.obj as int] is MapObj && final(doc).slot(
                self.obj as int,
                PropM::Key(key@),
            ) is Some && (forall|k2: Seq<char>|
                k2 != key@ ==> final(doc).slot(self.obj as int, PropM::Key(k2)) == old(doc).slot(
                    self.obj as int,
                    PropM::Key(k2),
                )),
            r is Ok && forced_replacement::<T>(
                *old(doc),
                self.obj as int,
                PropM::Key(key@),
                value.key_m(),
            ) ==> {
                // a mismatched identity key forces a fresh object: the entry
                // is deleted first — the delete is logged for replay — and
                // whatever object now sits there was newly created
                &&& (match final(doc).slot(self.obj as int, PropM::Key(key@)) {
                    Some(NodeM::Obj(t)) => t >= old(doc).num_objs(),
                    _ => true,
                })
                &&& final(doc).log_m().len() > old(doc).log_m().len()
                &&& final(doc).log_m()[old(doc).log_m().len() as int] == (WriteOpM::Delete {
                    obj: self.obj as int,
                    prop: PropM::Key(key@),
                })
            },
            r is Ok && !forced_replacement::<T>(
                *old(doc),
                self.obj as int,
                PropM::Key(key@),
                value.key_m(),
            ) ==> {
                // a matching or absent identity key updates in place: an
                // object reference still at the entry is the object that was
                // already there, unless its kind had to change; a previously
                // empty or scalar entry only ever gets a fresh object
                match (
                    old(doc).slot(self.obj as int, PropM::Key(key@)),
                    final(doc).slot(self.obj as int, PropM::Key(key@)),
                ) {
                    (Some(NodeM::Obj(g)), Some(NodeM::Obj(t))) => t == g || final(doc).kind_m(t)
                        != old(doc).kind_m(g),
                    (Some(NodeM::Scalar(_)), Some(NodeM::Obj(t))) => t >= old(doc).num_objs(),
                    (None, Some(NodeM::Obj(t))) => t >= old(doc).num_objs(),
                    _ => true,
                }
            },
    {
        let ghost pre = *doc;
        let ghost t = TargetM::Slot { obj: self.obj as int, prop: PropM::Key(key@) };
        let p = Prop::key(key);
        let mismatch = match keyed_mismatch(doc, self.obj, &p, value) {
            Ok(m) => m,
            Err(e) => {
                proof {
                    lemma_frame_refl(t, *doc);
                }
                return Err(e);
            },
        };
        if mismatch {
            match doc.delete(self.obj, &p) {
                Ok(_) => {},
                Err(_) => {
                    proof {
                        assert(false);
                    }
                },
            }
        }
        let ghost mid = *doc;
        proof {
            lemma_prefix_ne(pre.log_m(), mid.log_m());
            assert(target_frame(t, pre, mid));
        }
        let rec = Reconciler {
            target: Target::Slot { obj: self.obj, prop: p },
            heads: self.heads,
        };
        let r = value.reconcile(doc, &rec);
        proof {
            lemma_frame_trans(t, pre, mid, *doc);
            if r is Ok {
                assert forall|k2: Seq<char>| k2 != key@ implies doc.slot(
                    self.obj as int,
                    PropM::Key(k2),
                ) == pre.slot(self.obj as int, PropM::Key(k2)) by {
                    assert(mid.slot(self.obj as int, PropM::Key(k2)) == pre.slot(
                        self.obj as int,
                        PropM::Key(k2),
                    ));
                }
                if mismatch {
                    assert(mid.slot(self.obj as int, PropM::Key(key@)) is None);
                    assert(mid.log_m() == pre.log_m().push(
                        WriteOpM::Delete { obj: self.obj as int, prop: PropM::Key(key@) },
                    ));
                    assert(mid.log_m().is_prefix_of(doc.log_m()));
                    assert(doc.log_m()[pre.log_m().len() as int] == mid.log_m()[pre.log_m().len()
                        as int]);
                    assert(mid.num_objs() == pre.num_objs());
                }
            }
        }
        r
    }

    /// Delete the entry named `key`, if present.
    pub fn delete(&self, doc: &mut Doc, key: &str) -> (r: Result<(), ReconcileError>)
        requires
            old(doc).wf(),
            self.ok(*old(doc)),
        ensures
            final(doc).wf(),
            final(doc).heads_m() == old(doc).heads_m(),
            r is Ok,
            final(doc).slot(self.obj as int, PropM::Key(key@)) is None,
            forall|k2: Seq<char>|
                k2 != key@ ==> final(doc).slot(self.obj as int, PropM::Key(k2)) == old(doc).slot(
                    self.obj as int,
                    PropM::Key(k2),
                ),
            old(doc).slot(self.obj as int, PropM::Key(key@)) is None ==> *final(doc) == *old(doc),
            old(doc).log_m().is_prefix_of(final(doc).log_m()),
            final(doc).dirty_m() == (old(doc).dirty_m() || final(doc).log_m() != old(doc).log_m()),
            final(doc).num_objs() >= old(doc).num_objs(),
            same_objs_except(*old(doc), *final(doc), self.obj as int),
            final(doc).objs_m()[self.obj as int] is MapObj,
    {
        let p = Prop::key(key);
        match doc.delete(self.obj, &p) {
            Ok(_) => {
                proof {
                    if old(doc).slot(self.obj as int, PropM::Key(key@)) is None {
                        assert(*doc == *old(doc));
                    }
                    assert(doc.log_m().is_prefix_of(doc.log_m()));
                    if doc.log_m() != old(doc).log_m() {
                        assert(old(doc).log_m().is_prefix_of(doc.log_m()));
                    }
                }
                Ok(())
            },
            Err(e) => {
                proof {
                    assert(false);
                }
                Err(ReconcileError::Doc(e))
            },
        }
    }

    /// The node at entry `key`, if present.
    pub fn entry(&self, doc: &Doc, key: &str) -> (r: Option<Node>)
        requires
            doc.wf(),
            self.ok(*doc),
        ensures
            match r {
                Some(n) => doc.slot(self.obj as int, PropM::Key(key@)) == Some(n@),
                None => doc.slot(self.obj as int, PropM::Key(key@)) is None,
            },
    {
        let p = Prop::key(key);
        match doc.get(self.obj, &p) {
            Ok(v) => v,
            Err(_) => {
                proof {
                    assert(false);
                }
                None
            },
        }
    }

    /// Remove every entry the predicate rejects: afterwards, an entry the
    /// predicate approved is exactly as it was, and one it rejected is gone.
    #[verifier::loop_isolation(false)]
    pub fn retain<F: Fn(&String, &Node) -> bool>(&self, doc: &mut Doc, pred: F) -> (r: Result<
        (),
        ReconcileError,
    >)
        requires
            old(doc).wf(),
            self.ok(*old(doc)),
            forall|x: (&String, &Node)| #[trigger] pred.requires(x),
        ensures
            final(doc).wf(),
            final(doc).heads_m() == old(doc).heads_m(),
            r is Ok,
            same_objs_except(*old(doc), *final(doc), self.obj as int),
            final(doc).objs_m()[self.obj as int] is MapObj,
            old(doc).log_m().is_prefix_of(final(doc).log_m()),
            forall|k2: Seq<char>|
                #[trigger] old(doc).slot(self.obj as int, PropM::Key(k2)) matches Some(n0) ==> {
                    &&& (final(doc).slot(self.obj as int, PropM::Key(k2)) is None ==> exists|
                        ks: String,
                        nn: Node,
                    |
                        ks@ == k2 && nn@ == n0 && #[trigger] pred.ensures((&ks, &nn), false))
                    &&& (final(doc).slot(self.obj as int, PropM::Key(k2)) is Some ==> {
                        &&& final(doc).slot(self.obj as int, PropM::Key(k2)) == Some(n0)
                        &&& exists|ks: String, nn: Node|
                            ks@ == k2 && nn@ == n0 && #[trigger] pred.ensures((&ks, &nn), true)
                    })
                },
            forall|k2: Seq<char>|
                old(doc).slot(self.obj as int, PropM::Key(k2)) is None
                    ==> (#[trigger] final(doc).slot(self.obj as int, PropM::Key(k2))) is None,
    {
        let ghost g = self.obj as int;
        let ghost pre = *doc;
        let keys = doc.map_keys(self.obj);
        proof {
            assert(pre.obj_wf(g));
            assert forall|j1: int, j2: int|
                0 <= j1 < j2 < keys@.len() implies (#[trigger] keys@[j1])@ != (
            #[trigger] keys@[j2])@ by {
                assert(keys@.map_values(|st: String| st@).len() == crate::doc::map_keys_of(
                    pre,
                    g,
                ).len());
                assert(crate::doc::map_keys_of(pre, g).len() == pre.map_m(g).len());
                assert(j2 < pre.map_m(g).len());
                assert(keys@.map_values(|st: String| st@)[j1] == crate::doc::map_keys_of(
                    pre,
                    g,
                )[j1]);
                assert(keys@.map_values(|st: String| st@)[j2] == crate::doc::map_keys_of(
                    pre,
                    g,
                )[j2]);
                assert(crate::doc::map_keys_of(pre, g)[j1] == pre.map_m(g)[j1].0);
                assert(crate::doc::map_keys_of(pre, g)[j2] == pre.map_m(g)[j2].0);
            }
        }
        proof {
            assert forall|j: int| 0 <= j < keys@.len() implies (#[trigger] pre.slot(
                g,
                PropM::Key(keys@[j]@),
            )) is Some by {
                let esm = pre.map_m(g);
                assert(keys@.map_values(|st: String| st@)[j] == crate::doc::map_keys_of(
                    pre,
                    g,
                )[j]);
                assert(crate::doc::map_keys_of(pre, g)[j] == esm[j].0);
                assert(crate::doc::entries_unique(esm));
                crate::doc::lemma_lookup_found(esm, j);
            }
        }
        let mut i: usize = 0;
        while i < keys.len()
            invariant
                i <= keys.len(),
                doc.wf(),
                self.ok(*doc),
                doc.heads_m() == pre.heads_m(),
                same_objs_except(pre, *doc, g),
                pre.log_m().is_prefix_of(doc.log_m()),
                forall|j1: int, j2: int|
                    0 <= j1 < j2 < keys@.len() ==> (#[trigger] keys@[j1])@ != (
                    #[trigger] keys@[j2])@,
                forall|j: int|
                    0 <= j < keys@.len() ==> (#[trigger] pre.slot(g, PropM::Key(keys@[j]@)))
                        is Some,
                forall|j: int|
                    0 <= j < i ==> {
                        &&& (#[trigger] doc.slot(g, PropM::Key(keys@[j]@)) is None ==> exists|
                            ks: String,
                            nn: Node,
                        |
                            ks@ == keys@[j]@ && Some(nn@) == pre.slot(g, PropM::Key(keys@[j]@))
                                && #[trigger] pred.ensures((&ks, &nn), false))
                        &&& (doc.slot(g, PropM::Key(keys@[j]@)) is Some ==> doc.slot(
                            g,
                            PropM::Key(keys@[j]@),
                        ) == pre.slot(g, PropM::Key(keys@[j]@)) && exists|ks: String, nn: Node|
                            ks@ == keys@[j]@ && Some(nn@) == pre.slot(g, PropM::Key(keys@[j]@))
                                && #[trigger] pred.ensures((&ks, &nn), true))
                    },
                forall|k2: Seq<char>|
                    (forall|j: int| 0 <= j < i ==> (#[trigger] keys@[j])@ != k2)
                        ==> #[trigger] doc.slot(g, PropM::Key(k2)) == pre.slot(g, PropM::Key(k2)),
            decreases keys.len() - i,
        {
            let ghost before = *doc;
            let node = self.entry(doc, keys[i].as_str());
            if let Some(n) = node {
                let keep = pred(&keys[i], &n);
                if !keep {
                    match self.delete(doc, keys[i].as_str()) {
                        Ok(_) => {
                            proof {
                                lemma_prefix_ne(pre.log_m(), before.log_m());
                                assert(before.log_m().is_prefix_of(doc.log_m()));
                                assert(pre.log_m().is_prefix_of(doc.log_m())) by {
                                    assert(doc.log_m().subrange(
                                        0,
                                        before.log_m().len() as int,
                                    ) =~= before.log_m());
                                    assert(doc.log_m().subrange(0, pre.log_m().len() as int)
                                        =~= pre.log_m());
                                }
                            }
                        },
                        Err(_) => {
                            proof {
                                assert(false);
                            }
                        },
                    }
                }
                proof {
                    assert(before.slot(g, PropM::Key(keys@[i as int]@)) == pre.slot(
                        g,
                        PropM::Key(keys@[i as int]@),
                    ));
                    assert(pred.ensures((&keys@[i as int], &n), keep));
                }
            } else {
                proof {
                    assert(before.slot(g, PropM::Key(keys@[i as int]@)) == pre.slot(
                        g,
                        PropM::Key(keys@[i as int]@),
                    ));
                    assert(false);
                }
            }
            i += 1;
        }
        proof {
            assert forall|k2: Seq<char>| (#[trigger] pre.slot(g, PropM::Key(k2))) is Some implies {
                &&& (doc.slot(g, PropM::Key(k2)) is None ==> exists|ks: String, nn: Node|
                    ks@ == k2 && Some(nn@) == pre.slot(g, PropM::Key(k2))
                        && #[trigger] pred.ensures((&ks, &nn), false))
                &&& (doc.slot(g, PropM::Key(k2)) is Some ==> doc.slot(g, PropM::Key(k2))
                    == pre.slot(g, PropM::Key(k2)) && exists|ks: String, nn: Node|
                    ks@ == k2 && Some(nn@) == pre.slot(g, PropM::Key(k2))
                        && #[trigger] pred.ensures((&ks, &nn), true))
            } by {
                let esm = pre.map_m(g);
                crate::doc::lemma_lookup_mem(esm, k2);
                let ei = choose|ei: int|
                    0 <= ei < esm.len() && #[trigger] esm[ei] == (
                        k2,
                        crate::doc::lookup_entries(esm, k2)->0,
                    );
                assert(keys@.map_values(|st: String| st@)[ei] == crate::doc::map_keys_of(
                    pre,
                    g,
                )[ei]);
                assert(crate::doc::map_keys_of(pre, g)[ei] == esm[ei].0);
                assert(keys@[ei]@ == k2);
            }
        }
        Ok(())
    }

    /// The keys currently present in the map, in entry order.
    pub fn keys(&self, doc: &Doc) -> (r: Vec<String>)
        requires
            doc.wf(),
            self.ok(*doc),
        ensures
            r@.map_values(|s: String| s@) == crate::doc::map_keys_of(*doc, self.obj as int),
    {
        doc.map_keys(self.obj)
    }

    /// Hydrate the identity key `T` would use for the entry named `key`.
    pub fn hydrate_entry_key<T: Reconcile>(&self, doc: &Doc, key: &str) -> (r: Result<
        LoadKey<KeyVal>,
        ReconcileError,
    >)
        requires
            doc.wf(),
            self.ok(*doc),
    {
        let p = Prop::key(key);
        T::hydrate_key(doc, self.obj, &p)
    }

    /// First delete, then put: forces a fresh object identity for the entry.
    pub fn replace<T: Reconcile>(&self, doc: &mut Doc, key: &str, value: &T) -> (r: Result<
        (),
        ReconcileError,
    >)
        requires
            old(doc).wf(),
            self.ok(*old(doc)),
        ensures
            target_frame(
                TargetM::Slot { obj: self.obj as int, prop: PropM::Key(key@) },
                *old(doc),
                *final(doc),
            ),
            r is Ok ==> final(doc).objs_m()[self.obj as int] is MapObj && final(doc).slot(
                self.obj as int,
                PropM::Key(key@),
            ) is Some && (forall|k2: Seq<char>|
                k2 != key@ ==> final(doc).slot(self.obj as int, PropM::Key(k2)) == old(doc).slot(
                    self.obj as int,
                    PropM::Key(k2),
                )),
            r is Ok ==> match final(doc).slot(self.obj as int, PropM::Key(key@)) {
                // delete-then-put: whatever object sits there now is fresh
                Some(NodeM::Obj(t)) => t >= old(doc).num_objs(),
                _ => true,
            },
    {
        let ghost pre = *old(doc);
        let ghost t = TargetM::Slot { obj: self.obj as int, prop: PropM::Key(key@) };
        self.delete(doc, key)?;
        let ghost mid = *doc;
        proof {
            lemma_prefix_ne(pre.log_m(), mid.log_m());
            assert(target_frame(t, pre, mid));
        }
        let r = self.put(doc, key, value);
        proof {
            lemma_frame_trans(t, pre, mid, *doc);
            if r is Ok {
                assert forall|k2: Seq<char>| k2 != key@ implies final(doc).slot(
                    self.obj as int,
                    PropM::Key(k2),
                ) == pre.slot(self.obj as int, PropM::Key(k2)) by {
                    assert(mid.slot(self.obj as int, PropM::Key(k2)) == pre.slot(
                        self.obj as int,
                        PropM::Key(k2),
                    ));
                }
            }
        }
        r
    }
}

impl SeqReconciler {
    /// The cursor points at a live sequence object of `d`.
    pub open spec fn ok(&self, d: Doc) -> bool {
        d.is_obj(self.obj as int) && d.kind_m(self.obj as int) == ObjKind::ListObj
    }

    /// The current length of the sequence.
    pub fn len(&self, doc: &Doc) -> (r: Result<usize, ReconcileError>)
        requires
            doc.wf(),
            self.ok(*doc),
        ensures
            r matches Ok(n) && n as int == doc.list_m(self.obj as int).len(),
    {
        Ok(doc.length(self.obj))
    }

    /// Whether the sequence is empty.
    pub fn is_empty(&self, doc: &Doc) -> (r: Result<bool, ReconcileError>)
        requires
            doc.wf(),
            self.ok(*doc),
        ensures
            r == Ok::<bool, ReconcileError>(doc.list_m(self.obj as int).len() == 0),
    {
        Ok(doc.length(self.obj) == 0)
    }

    /// The node at `index`, if within the sequence.
    pub fn get(&self, doc: &Doc, index: usize) -> (r: Result<Option<Node>, ReconcileError>)
        requires
            doc.wf(),
            self.ok(*doc),
        ensures
            match r {
                Ok(Some(n)) => doc.slot(self.obj as int, PropM::Index(index as int)) == Some(n@),
                Ok(None) => doc.slot(self.obj as int, PropM::Index(index as int)) is None,
                Err(_) => false,
            },
    {
        let p = Prop::Index(index);
        match doc.get(self.obj, &p) {
            Ok(v) => Ok(v),
            Err(e) => {
                proof {
                    assert(false);
                }
                Err(ReconcileError::Doc(e))
            },
        }
    }

    /// Hydrate the identity key `T` would use for the element at `index`,
    /// reporting `KeyNotFound` beyond the end of the sequence. Only the key
    /// is loaded, never the full element.
    pub fn hydrate_item_key<T: Reconcile>(&self, doc: &Doc, index: usize) -> (r: Result<
        LoadKey<KeyVal>,
        ReconcileError,
    >)
        requires
            doc.wf(),
            self.ok(*doc),
        ensures
            index as int >= doc.list_m(self.obj as int).len() ==> (r matches Ok(k) && k
                is KeyNotFound),
            (index as int) < doc.list_m(self.obj as int).len() ==> (r matches Ok(k)
                ==> load_key_m(k) == T::slot_key_m(*doc, self.obj as int, PropM::Index(
                index as int,
            ))),
    {
        let p = Prop::Index(index);
        let present = match doc.get(self.obj, &p) {
            Ok(v) => v.is_some(),
            Err(_) => false,
        };
        if present {
            T::hydrate_key(doc, self.obj, &p)
        } else {
            Ok(LoadKey::KeyNotFound)
        }
    }

    /// Insert `value` as a fresh element at `index`, shifting later elements
    /// up.
    pub fn insert<T: Reconcile>(&self, doc: &mut Doc, index: usize, value: &T) -> (r: Result<
        (),
        ReconcileError,
    >)
        requires
            old(doc).wf(),
            self.ok(*old(doc)),
            index as int <= old(doc).list_m(self.obj as int).len(),
        ensures
            target_frame(
                TargetM::Fresh { obj: self.obj as int, index: index as int },
                *old(doc),
                *final(doc),
            ),
            r is Ok ==> target_good(
                TargetM::Fresh { obj: self.obj as int, index: index as int },
                *old(doc),
                *final(doc),
            ),
    {
        let rec = Reconciler {
            target: Target::Fresh { obj: self.obj, index },
            heads: self.heads,
        };
        value.reconcile(doc, &rec)
    }

    /// Reconcile `value` into the element at `index` in place, preserving the
    /// element's object identity where kinds match — unless the value's
    /// identity key differs from the key hydrated from the element already
    /// there, in which case the element is deleted and reinserted fresh so
    /// that it takes a new identity.
    pub fn set<T: Reconcile>(&self, doc: &mut Doc, index: usize, value: &T) -> (r: Result<
        (),
        ReconcileError,
    >)
        requires
            old(doc).wf(),
            self.ok(*old(doc)),
            (index as int) < old(doc).list_m(self.obj as int).len(),
        ensures
            target_frame(
                TargetM::Slot { obj: self.obj as int, prop: PropM::Index(index as int) },
                *old(doc),
                *final(doc),
            ),
            r is Ok ==> target_good(
                TargetM::Slot { obj: self.obj as int, prop: PropM::Index(index as int) },
                *old(doc),
                *final(doc),
            ),
            r is Ok && forced_replacement::<T>(
                *old(doc),
                self.obj as int,
                PropM::Index(index as int),
                value.key_m(),
            ) ==> {
                // a mismatched identity key forces a fresh element: the old
                // one is deleted — the delete is logged for replay — and
                // whatever object now sits at the index was newly created
                &&& (match final(doc).slot(self.obj as int, PropM::Index(index as int)) {
                    Some(NodeM::Obj(t)) => t >= old(doc).num_objs(),
                    _ => true,
                })
                &&& final(doc).log_m().len() > old(doc).log_m().len()
                &&& final(doc).log_m()[old(doc).log_m().len() as int] == (WriteOpM::Delete {
                    obj: self.obj as int,
                    prop: PropM::Index(index as int),
                })
            },
            r is Ok && !forced_replacement::<T>(
                *old(doc),
                self.obj as int,
                PropM::Index(index as int),
                value.key_m(),
            ) ==> {
                // a matching or absent identity key sets the element in
                // place: an object reference still at the index is the one
                // that was already there, unless its kind had to change
                match (
                    old(doc).slot(self.obj as int, PropM::Index(index as int)),
                    final(doc).slot(self.obj as int, PropM::Index(index as int)),
                ) {
                    (Some(NodeM::Obj(g0)), Some(NodeM::Obj(t))) => t == g0
                        || final(doc).kind_m(t) != old(doc).kind_m(g0),
                    _ => true,
                }
            },
    {
        let ghost pre = *doc;
        let ghost g = self.obj as int;
        let ghost t = TargetM::Slot { obj: g, prop: PropM::Index(index as int) };
        let p = Prop::Index(index);
        let mismatch = match keyed_mismatch(doc, self.obj, &p, value) {
            Ok(m) => m,
            Err(e) => {
                proof {
                    lemma_frame_refl(t, *doc);
                }
                return Err(e);
            },
        };
        if mismatch {
            match self.delete(doc, index) {
                Ok(_) => {},
                Err(_) => {
                    proof {
                        assert(false);
                    }
                },
            }
            let ghost mid = *doc;
            proof {
                lemma_prefix_ne(pre.log_m(), mid.log_m());
                assert(target_frame(t, pre, mid));
            }
            let rec = Reconciler { target: Target::Fresh { obj: self.obj, index }, heads: self.heads };
            let r = value.reconcile(doc, &rec);
            proof {
                crate::reconcile::lemma_frame_retarget(
                    (TargetM::Fresh { obj: g, index: index as int }),
                    t,
                    mid,
                    *doc,
                );
                lemma_frame_trans(t, pre, mid, *doc);
                if r is Ok {
                    assert(mid.log_m() == pre.log_m().push(
                        WriteOpM::Delete { obj: g, prop: PropM::Index(index as int) },
                    ));
                    assert(mid.log_m().is_prefix_of(doc.log_m()));
                    assert(doc.log_m()[pre.log_m().len() as int] == mid.log_m()[pre.log_m().len()
                        as int]);
                    assert(mid.num_objs() == pre.num_objs());
                    assert(doc.slot(g, PropM::Index(index as int)) == Some(
                        doc.list_m(g)[index as int],
                    ));
                    assert(doc.list_m(g).len() == pre.list_m(g).len());
                    assert forall|j: int|
                        0 <= j < pre.list_m(g).len() && j != index as int implies doc.list_m(
                        g,
                    )[j] == pre.list_m(g)[j] by {
                        if j < index as int {
                            assert(doc.list_m(g).subrange(0, index as int)[j] == mid.list_m(
                                g,
                            ).subrange(0, index as int)[j]);
                            assert(mid.list_m(g)[j] == pre.list_m(g).remove(index as int)[j]);
                        } else {
                            assert(doc.list_m(g).skip(index as int + 1)[j - index - 1]
                                == mid.list_m(g).skip(index as int)[j - index - 1]);
                            assert(mid.list_m(g)[j - 1] == pre.list_m(g).remove(index as int)[j
                                - 1]);
                        }
                    }
                }
            }
            r
        } else {
            let rec = Reconciler {
                target: Target::Slot { obj: self.obj, prop: p },
                heads: self.heads,
            };
            value.reconcile(doc, &rec)
        }
    }

    /// Delete the element at `index`, shifting later elements down.
    pub fn delete(&self, doc: &mut Doc, index: usize) -> (r: Result<(), ReconcileError>)
        requires
            old(doc).wf(),
            self.ok(*old(doc)),
            (index as int) < old(doc).list_m(self.obj as int).len(),
        ensures
            final(doc).wf(),
            final(doc).heads_m() == old(doc).heads_m(),
            r is Ok,
            same_objs_except(*old(doc), *final(doc), self.obj as int),
            final(doc).objs_m()[self.obj as int] is ListObj,
            final(doc).list_m(self.obj as int) == old(doc).list_m(self.obj as int).remove(
                index as int,
            ),
            final(doc).log_m() == old(doc).log_m().push(
                WriteOpM::Delete { obj: self.obj as int, prop: PropM::Index(index as int) },
            ),
            old(doc).log_m().is_prefix_of(final(doc).log_m()),
            final(doc).dirty_m() == (old(doc).dirty_m() || final(doc).log_m() != old(doc).log_m()),
    {
        let p = Prop::Index(index);
        match doc.delete(self.obj, &p) {
            Ok(_) => {
                proof {
                    assert(old(doc).log_m().is_prefix_of(doc.log_m()));
                }
                Ok(())
            },
            Err(e) => {
                proof {
                    assert(false);
                }
                Err(ReconcileError::Doc(e))
            },
        }
    }
}

impl TextReconciler {
    /// The cursor points at a live text object of `d`.
    pub open spec fn ok(&self, d: Doc) -> bool {
        d.is_obj(self.obj as int) && d.kind_m(self.obj as int) == ObjKind::TextObj
    }

    /// Splice the text: delete `del` characters at `pos` and insert `ins`.
    pub fn splice(&self, doc: &mut Doc, pos: usize, del: usize, ins: &Vec<char>) -> (r: Result<
        (),
        ReconcileError,
    >)
        requires
            old(doc).wf(),
            self.ok(*old(doc)),
        ensures
            final(doc).wf(),
            final(doc).heads_m() == old(doc).heads_m(),
            same_objs_except(*old(doc), *final(doc), self.obj as int),
            old(doc).log_m().is_prefix_of(final(doc).log_m()),
            final(doc).dirty_m() == (old(doc).dirty_m() || final(doc).log_m() != old(doc).log_m()),
            match r {
                Ok(_) => {
                    &&& pos + del <= old(doc).text_at(self.obj as int).len()
                    &&& final(doc).objs_m()[self.obj as int] is TextObj
                    &&& final(doc).text_at(self.obj as int) == old(doc).text_at(
                        self.obj as int,
                    ).subrange(0, pos as int) + ins@ + old(doc).text_at(self.obj as int).skip(
                        pos + del,
                    )
                },
                Err(e) => {
                    &&& *final(doc) == *old(doc)
                    &&& pos + del > old(doc).text_at(self.obj as int).len()
                    &&& e == ReconcileError::Doc(DocError::OutOfBounds)
                },
            },
    {
        match doc.splice_text(self.obj, pos, del, ins) {
            Ok(_) => {
                proof {
                    assert(old(doc).log_m().is_prefix_of(doc.log_m()));
                    if del == 0 && ins@.len() == 0 {
                        assert(doc.text_at(self.obj as int) =~= old(doc).text_at(
                            self.obj as int,
                        ).subrange(0, pos as int) + ins@ + old(doc).text_at(
                            self.obj as int,
                        ).skip(pos + del));
                    }
                }
                Ok(())
            },
            Err(e) => {
                proof {
                    assert(e == DocError::OutOfBounds);
                }
                Err(ReconcileError::Doc(e))
            },
        }
    }

    /// The snapshot token the enclosing reconciliation started from, which
    /// the text staleness check compares against.
    pub fn heads(&self) -> (r: u64)
        ensures
            r == self.heads,
    {
        self.heads
    }
}

impl CounterReconciler {
    /// The cursor addresses a live, non-root position of `d`.
    pub open spec fn ok(&self, d: Doc) -> bool {
        target_ok(self.target@, d) && !(self.target@ is Root)
    }

    /// Set the counter to an absolute value.
    pub fn set(&self, doc: &mut Doc, value: i64) -> (r: Result<(), ReconcileError>)
        requires
            old(doc).wf(),
            self.ok(*old(doc)),
        ensures
            target_frame(self.target@, *old(doc), *final(doc)),
            scalar_write_res_m(self.target@, *old(doc), *final(doc), ScalarM::Counter(value), r),
            r is Ok ==> target_good(self.target@, *old(doc), *final(doc)),
    {
        let rec = Reconciler { target: clone_target(&self.target), heads: self.heads };
        proof {
            assert(rec.target@ == self.target@);
        }
        rec.write_scalar(doc, ScalarVal::Counter(value))
    }

    /// Apply a relative increment: add `by` to the counter already at the
    /// slot, or create a counter holding `by` where the slot holds no
    /// counter. A fresh position gets a counter holding `by`.
    pub fn increment(&self, doc: &mut Doc, by: i64) -> (r: Result<(), ReconcileError>)
        requires
            old(doc).wf(),
            self.ok(*old(doc)),
        ensures
            target_frame(self.target@, *old(doc), *final(doc)),
            match self.target@ {
                TargetM::Slot { obj, prop } => match old(doc).slot(obj, prop) {
                    Some(NodeM::Scalar(ScalarM::Counter(c))) => if i64::MIN <= c + by
                        <= i64::MAX {
                        // the write is the relative delta, never an absolute
                        // value: replayed elsewhere, concurrent increments sum
                        &&& r is Ok
                        &&& final(doc).slot(obj, prop) == Some(
                            NodeM::Scalar(ScalarM::Counter((c + by) as i64)),
                        )
                        &&& final(doc).log_m() == old(doc).log_m().push(
                            WriteOpM::Increment { obj, prop, by },
                        )
                    } else {
                        r == Err::<(), ReconcileError>(ReconcileError::Doc(DocError::Overflow))
                            && *final(doc) == *old(doc)
                    },
                    _ => scalar_write_res_m(
                        self.target@,
                        *old(doc),
                        *final(doc),
                        ScalarM::Counter(by),
                        r,
                    ),
                },
                TargetM::Fresh { .. } => scalar_write_res_m(
                    self.target@,
                    *old(doc),
                    *final(doc),
                    ScalarM::Counter(by),
                    r,
                ),
                TargetM::Root => false,
            },
            r is Ok ==> target_good(self.target@, *old(doc), *final(doc)),
    {
        match &self.target {
            Target::Root => {
                proof {
                    assert(false);
                }
                Err(ReconcileError::TopLevelNotMap)
            },
            Target::Slot { obj, prop } => {
                let existing = match doc.get(*obj, prop) {
                    Ok(v) => v,
                    Err(e) => {
                        proof {
                            assert(false);
                        }
                        return Err(ReconcileError::Doc(e));
                    },
                };
                let is_counter = match &existing {
                    Some(Node::Scalar(ScalarVal::Counter(_))) => true,
                    _ => false,
                };
                if is_counter {
                    match doc.increment(*obj, prop, by) {
                        Ok(_) => Ok(()),
                        Err(e) => {
                            proof {
                                assert(e == DocError::Overflow);
                            }
                            Err(ReconcileError::Doc(e))
                        },
                    }
                } else {
                    let rec = Reconciler {
                        target: clone_target(&self.target),
                        heads: self.heads,
                    };
                    proof {
                        assert(rec.target@ == self.target@);
                    }
                    rec.write_scalar(doc, ScalarVal::Counter(by))
                }
            },
            Target::Fresh { .. } => {
                let rec = Reconciler { target: clone_target(&self.target), heads: self.heads };
                proof {
                    assert(rec.target@ == self.target@);
                }
                rec.write_scalar(doc, ScalarVal::Counter(by))
            },
        }
    }
}

/// Clone a target, keeping its address.
pub fn clone_target(t: &Target) -> (r: Target)
    ensures
        r@ == t@,
{
    match t {
        Target::Root => Target::Root,
        Target::Slot { obj, prop } => Target::Slot { obj: *obj, prop: prop.clone_prop() },
        Target::Fresh { obj, index } => Target::Fresh { obj: *obj, index: *index },
    }
}

/// A proper prefix is strictly shorter; a prefix of equal length is equal.
pub proof fn lemma_prefix_ne<A>(a: Seq<A>, b: Seq<A>)
    requires
        a.is_prefix_of(b),
    ensures
        a != b ==> a.len() < b.len(),
        a.len() == b.len() ==> a == b,
{
    if a.len() == b.len() {
        assert(a =~= b);
    }
}

/// Cursor frames compose across consecutive reconciliation steps.
pub proof fn lemma_frame_trans(t: TargetM, pre: Doc, mid: Doc, post: Doc)
    requires
        target_frame(t, pre, mid),
        target_frame(t, mid, post),
    ensures
        target_frame(t, pre, post),
{
    lemma_prefix_ne(pre.log_m(), mid.log_m());
    lemma_prefix_ne(mid.log_m(), post.log_m());
    assert(pre.log_m().is_prefix_of(post.log_m())) by {
        assert(mid.log_m().subrange(0, pre.log_m().len() as int) =~= pre.log_m());
        assert(post.log_m().subrange(0, mid.log_m().len() as int) =~= mid.log_m());
        assert(post.log_m().subrange(0, pre.log_m().len() as int) =~= pre.log_m());
    }
    if post.log_m() != pre.log_m() {
        assert(post.log_m().len() > pre.log_m().len() || post.log_m() != pre.log_m());
    }
    if mid.log_m() != pre.log_m() {
        assert(post.log_m().len() >= mid.log_m().len() > pre.log_m().len());
        assert(post.log_m() != pre.log_m());
    }
    if post.log_m() != mid.log_m() {
        assert(post.log_m().len() > mid.log_m().len() >= pre.log_m().len());
        assert(post.log_m() != pre.log_m());
    }
    match t {
        TargetM::Root => {},
        TargetM::Slot { obj, .. } => {
            assert forall|x: int| 0 <= x < pre.num_objs() && x < obj implies post.objs_m()[x]
                == pre.objs_m()[x] by {
                assert(mid.objs_m()[x] == pre.objs_m()[x]);
            }
        },
        TargetM::Fresh { obj, .. } => {
            assert forall|x: int| 0 <= x < pre.num_objs() && x < obj implies post.objs_m()[x]
                == pre.objs_m()[x] by {
                assert(mid.objs_m()[x] == pre.objs_m()[x]);
            }
        },
    }
}

/// The container object a target addresses; the root map for the root
/// target.
pub open spec fn target_obj(t: TargetM) -> int {
    match t {
        TargetM::Root => 0,
        TargetM::Slot { obj, .. } => obj,
        TargetM::Fresh { obj, .. } => obj,
    }
}

/// The node a cursor's target addresses in a document, if any.
pub open spec fn target_node(t: TargetM, d: Doc) -> Option<NodeM> {
    match t {
        TargetM::Root => None,
        TargetM::Slot { obj, prop } => d.slot(obj, prop),
        TargetM::Fresh { obj, index } => if 0 <= index < d.list_m(obj).len() {
            Some(d.list_m(obj)[index])
        } else {
            None
        },
    }
}

/// The node a target addresses is untouched by writes that leave every
/// object below `g` unchanged, when the target's container lies below `g`.
pub proof fn lemma_target_node_framed(t: TargetM, a: Doc, b: Doc, g: int)
    requires
        target_obj(t) < g,
        0 <= target_obj(t) < a.num_objs(),
        a.num_objs() <= b.num_objs(),
        forall|x: int| 0 <= x < a.num_objs() && x < g ==> b.objs_m()[x] == a.objs_m()[x],
    ensures
        target_node(t, b) == target_node(t, a),
{
    match t {
        TargetM::Root => {},
        TargetM::Slot { obj, .. } => {
            assert(b.objs_m()[obj] == a.objs_m()[obj]);
        },
        TargetM::Fresh { obj, .. } => {
            assert(b.objs_m()[obj] == a.objs_m()[obj]);
        },
    }
}

/// The cursor frame holds reflexively.
pub proof fn lemma_frame_refl(t: TargetM, d: Doc)
    requires
        d.wf(),
    ensures
        target_frame(t, d, d),
{
    assert(d.log_m().subrange(0, d.log_m().len() as int) =~= d.log_m());
}

/// A frame for a deeper target implies the frame for any target at or below
/// it in the arena: whatever a nested write leaves untouched, the enclosing
/// write leaves untouched too.
pub proof fn lemma_frame_retarget(t1: TargetM, t2: TargetM, pre: Doc, post: Doc)
    requires
        target_frame(t1, pre, post),
        target_obj(t2) <= target_obj(t1),
    ensures
        target_frame(t2, pre, post),
{
}

/// A successful write's guarantees about its container survive later writes
/// that only touch objects at or above `child` in the arena.
pub proof fn lemma_good_preserved(t: TargetM, pre: Doc, mid: Doc, post: Doc, child: int)
    requires
        target_good(t, pre, mid),
        0 <= target_obj(t) < pre.num_objs(),
        target_obj(t) < child,
        pre.num_objs() <= mid.num_objs(),
        forall|x: int| 0 <= x < mid.num_objs() && x < child ==> post.objs_m()[x] == mid.objs_m()[x],
    ensures
        target_good(t, pre, post),
{
    match t {
        TargetM::Root => {},
        TargetM::Slot { obj, prop } => {
            assert(post.objs_m()[obj] == mid.objs_m()[obj]);
        },
        TargetM::Fresh { obj, .. } => {
            assert(post.objs_m()[obj] == mid.objs_m()[obj]);
        },
    }
}

// ---------------------------------------------------------------------------
// The Reconcile trait and entry points
// ---------------------------------------------------------------------------

/// A data type which can be reconciled with the document.
///
/// Besides `reconcile`, a type may declare an identity key: reconciliation
/// uses it to decide whether data already in the document is the same
/// logical item, to be updated in place, or a different one, to be replaced.
pub trait Reconcile: Sized {
    /// The identity key this value reports, as a mathematical value. A type
    /// without an identity notion keeps the default.
    open spec fn key_m(&self) -> LoadKeyM {
        LoadKeyM::NoKey
    }

    /// The identity key this type reads from slot `(obj, prop)` of a
    /// document, as a mathematical value. A type without an identity notion
    /// keeps the default.
    open spec fn slot_key_m(d: Doc, obj: int, prop: PropM) -> LoadKeyM {
        LoadKeyM::NoKey
    }

    /// The identity key of this value, if it has one. A keyless type
    /// returns `LoadKey::NoKey`.
    fn key(&self) -> (r: LoadKey<KeyVal>)
        ensures
            load_key_m(r) == self.key_m(),
    ;

    /// Hydrate the identity key of whatever sits at slot `(obj, prop)` of
    /// the document. A keyless type returns `Ok(LoadKey::NoKey)`.
    fn hydrate_key(doc: &Doc, obj: usize, prop: &Prop) -> (r: Result<
        LoadKey<KeyVal>,
        ReconcileError,
    >)
        requires
            doc.wf(),
        ensures
            r matches Ok(k) ==> load_key_m(k) == Self::slot_key_m(*doc, obj as int, prop@),
    ;

    /// Reconcile this value with the document through the given cursor.
    fn reconcile(&self, doc: &mut Doc, rec: &Reconciler) -> (res: Result<(), ReconcileError>)
        requires
            old(doc).wf(),
            rec.target_ok(*old(doc)),
        ensures
            rec.frame(*old(doc), *final(doc)),
            res is Ok ==> rec.good(*old(doc), *final(doc)),
            res is Ok ==> kind_fitting(rec.target@, *old(doc), *final(doc)),
    ;
}

/// Reconcile `value` with the whole document. The value must reconcile to a
/// map, since the root of a document is a map; anything else is refused with
/// `TopLevelNotMap` — the refusal arises inside the value's own `reconcile`
/// through the root cursor's writers, whose contracts pin it exactly
/// (`scalar_write_res_m` at the root target), so no clause of this generic
/// entry can state it for an arbitrary user type.
pub fn reconcile<T: Reconcile>(doc: &mut Doc, value: &T) -> (r: Result<(), ReconcileError>)
    requires
        old(doc).wf(),
    ensures
        final(doc).wf(),
        !final(doc).dirty_m(),
        old(doc).log_m().is_prefix_of(final(doc).log_m()),
        !old(doc).dirty_m() && final(doc).log_m() == old(doc).log_m() ==> final(doc).heads_m()
            == old(doc).heads_m(),
        final(doc).log_m() != old(doc).log_m() ==> final(doc).heads_m() == next_heads(
            old(doc).heads_m(),
        ),
{
    let heads = doc.get_heads();
    let rec = Reconciler { target: Target::Root, heads };
    let res = value.reconcile(doc, &rec);
    doc.commit();
    res
}

/// Reconcile `value` into slot `(obj, prop)` of the document, with the
/// keyed-replacement check: a value whose identity key differs from the key
/// hydrated from the slot's current occupant forces a fresh object identity
/// there instead of an in-place overwrite.
pub fn reconcile_prop<T: Reconcile>(doc: &mut Doc, obj: usize, prop: &Prop, value: &T) -> (r:
    Result<(), ReconcileError>)
    requires
        old(doc).wf(),
    ensures
        final(doc).wf(),
        !final(doc).dirty_m(),
        old(doc).log_m().is_prefix_of(final(doc).log_m()),
        target_ok(TargetM::Slot { obj: obj as int, prop: prop@ }, *old(doc)) && r is Ok
            ==> match prop@ {
            PropM::Key(k) => final(doc).objs_m()[obj as int] is MapObj && final(doc).slot(
                obj as int,
                PropM::Key(k),
            ) is Some && (forall|k2: Seq<char>|
                k2 != k ==> final(doc).slot(obj as int, PropM::Key(k2)) == old(doc).slot(
                    obj as int,
                    PropM::Key(k2),
                )),
            PropM::Index(i) => final(doc).objs_m()[obj as int] is ListObj && final(doc).list_m(
                obj as int,
            ).len() == old(doc).list_m(obj as int).len() && (forall|j: int|
                0 <= j < old(doc).list_m(obj as int).len() && j != i ==> final(doc).list_m(
                    obj as int,
                )[j] == old(doc).list_m(obj as int)[j]),
        },
        !target_ok(TargetM::Slot { obj: obj as int, prop: prop@ }, *old(doc)) ==> r == Err::<
            (),
            ReconcileError,
        >(ReconcileError::Doc(DocError::WrongKind)) && final(doc).objs_m() == old(doc).objs_m()
            && final(doc).log_m() == old(doc).log_m(),
        target_ok(TargetM::Slot { obj: obj as int, prop: prop@ }, *old(doc)) && r is Ok
            && forced_replacement::<T>(*old(doc), obj as int, prop@, value.key_m()) ==> {
            // keyed slot replacement: a mismatched identity forces a fresh
            // object, with the delete of the slot logged first
            &&& (match final(doc).slot(obj as int, prop@) {
                Some(NodeM::Obj(t)) => t >= old(doc).num_objs(),
                _ => true,
            })
            &&& final(doc).log_m().len() > old(doc).log_m().len()
            &&& final(doc).log_m()[old(doc).log_m().len() as int] == (WriteOpM::Delete {
                obj: obj as int,
                prop: prop@,
            })
        },
        target_ok(TargetM::Slot { obj: obj as int, prop: prop@ }, *old(doc)) && r is Ok
            && !forced_replacement::<T>(*old(doc), obj as int, prop@, value.key_m()) ==> {
            // matching or absent identity: an occupant of the right kind is
            // updated strictly in place; only a kind change creates anew
            match (old(doc).slot(obj as int, prop@), final(doc).slot(obj as int, prop@)) {
                (Some(NodeM::Obj(g)), Some(NodeM::Obj(t))) => t == g || final(doc).kind_m(t)
                    != old(doc).kind_m(g),
                _ => true,
            }
        },
        !old(doc).dirty_m() && final(doc).log_m() == old(doc).log_m() ==> final(doc).heads_m()
            == old(doc).heads_m(),
        final(doc).log_m() != old(doc).log_m() ==> final(doc).heads_m() == next_heads(
            old(doc).heads_m(),
        ),
{
    let ghost pre = *doc;
    let valid = match doc.object_kind(obj) {
        Some(ObjKind::MapObj) => matches!(prop, Prop::Key(_)),
        Some(ObjKind::ListObj) => match prop {
            Prop::Index(i) => *i < doc.length(obj),
            _ => false,
        },
        _ => false,
    };
    if !valid {
        doc.commit();
        return Err(ReconcileError::Doc(DocError::WrongKind));
    }
    let heads = doc.get_heads();
    let ghost t = TargetM::Slot { obj: obj as int, prop: prop@ };
    match prop {
        Prop::Key(k) => {
            let m = MapReconciler { obj, heads };
            let res = m.put(doc, k.as_str(), value);
            doc.commit();
            proof {
                if res is Ok {
                    assert forall|k2: Seq<char>| k2 != prop@->Key_0 implies doc.slot(
                        obj as int,
                        PropM::Key(k2),
                    ) == pre.slot(obj as int, PropM::Key(k2)) by {}
                }
            }
            res
        },
        Prop::Index(idx) => {
            let index = *idx;
            let sq = SeqReconciler { obj, heads };
            let res = sq.set(doc, index, value);
            doc.commit();
            res
        },
    }
}

/// Reconcile `value` into a fresh position of sequence object `obj`, at
/// `index`.
pub fn reconcile_insert<T: Reconcile>(doc: &mut Doc, obj: usize, index: usize, value: &T) -> (r:
    Result<(), ReconcileError>)
    requires
        old(doc).wf(),
    ensures
        final(doc).wf(),
        !final(doc).dirty_m(),
        old(doc).log_m().is_prefix_of(final(doc).log_m()),
        target_ok(TargetM::Fresh { obj: obj as int, index: index as int }, *old(doc)) && r is Ok
            ==> target_good(
            TargetM::Fresh { obj: obj as int, index: index as int },
            *old(doc),
            *final(doc),
        ),
        !target_ok(TargetM::Fresh { obj: obj as int, index: index as int }, *old(doc)) ==> {
            &&& r == Err::<(), ReconcileError>(ReconcileError::Doc(DocError::WrongKind))
            &&& final(doc).objs_m() == old(doc).objs_m()
            &&& final(doc).log_m() == old(doc).log_m()
        },
{
    let valid = match doc.object_kind(obj) {
        Some(ObjKind::ListObj) => index <= doc.length(obj),
        _ => false,
    };
    if !valid {
        doc.commit();
        return Err(ReconcileError::Doc(DocError::WrongKind));
    }
    let heads = doc.get_heads();
    let rec = Reconciler { target: Target::Fresh { obj, index }, heads };
    let res = value.reconcile(doc, &rec);
    doc.commit();
    res
}

/// Hydrate the key at property `inner` inside the value at `(obj, outer)`:
/// the usual way to implement `Reconcile::hydrate_key` for a type keyed by
/// one of its fields. `Unexpected` failures read as `KeyNotFound`.
pub fn hydrate_key<H: Hydrate>(doc: &Doc, obj: usize, outer: &Prop, inner: &Prop) -> (r: Result<
    LoadKey<H>,
    ReconcileError,
>)
    requires
        doc.wf(),
        doc.is_obj(obj as int),
    ensures
        r matches Ok(k) ==> !(k is NoKey),
        r matches Err(e) ==> e is Doc,
        r matches Ok(k) ==> match crate::hydrate::resolve_path_m(
            *doc,
            obj as int,
            seq![outer@, inner@],
        ) {
            Some(end) => (k matches LoadKey::Found(v) ==> crate::hydrate::slot_reads::<H>(
                *doc,
                end.0,
                end.1,
                v,
            )),
            None => k is KeyNotFound,
        },
{
    let mut path: Vec<Prop> = Vec::new();
    path.push(outer.clone_prop());
    path.push(inner.clone_prop());
    proof {
        assert(path@.map_values(|p: Prop| p@) =~= seq![outer@, inner@]);
    }
    match strip_unexpected(crate::hydrate::hydrate_path::<H>(doc, obj, &path)) {
        Ok(Some(v)) => Ok(LoadKey::Found(v)),
        Ok(None) => Ok(LoadKey::KeyNotFound),
        Err(e) => Err(ReconcileError::Doc(e)),
    }
}

} // verus!
