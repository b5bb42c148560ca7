//! Hydration: reconstructing a typed value by reading a subtree of the
//! document, and path traversal that fails gracefully on missing data.

use vstd::prelude::*;

use crate::doc::{Doc, DocError, Node, NodeM, ObjKind, ObjM};
use crate::prop::{clone_string, Prop, PropM};

verus! {

/// The object id of the document root map.
pub const ROOT: usize = 0;

/// The node kind a hydrator met where it expected another, named for error
/// reports.
#[derive(Debug)]
pub enum Unexpected {
    MapObject,
    SeqObject,
    TextObject,
    Boolean,
    Bytes,
    Counter,
    Int,
    Uint,
    Str,
    Timestamp,
    Nothing,
    Other { expected: String, found: String },
}

impl Unexpected {
    /// A short description of the unexpected value, for error messages.
    pub fn describe(&self) -> (r: String)
        ensures
            self matches Unexpected::Other { expected, found } ==> r@ == found@ + ", expected "@
                + expected@,
    {
        match self {
            Unexpected::MapObject => "map".to_owned(),
            Unexpected::SeqObject => "sequence".to_owned(),
            Unexpected::TextObject => "text".to_owned(),
            Unexpected::Boolean => "boolean".to_owned(),
            Unexpected::Bytes => "bytes".to_owned(),
            Unexpected::Counter => "counter".to_owned(),
            Unexpected::Int => "int".to_owned(),
            Unexpected::Uint => "uint".to_owned(),
            Unexpected::Str => "string".to_owned(),
            Unexpected::Timestamp => "timestamp".to_owned(),
            Unexpected::Nothing => "nothing".to_owned(),
            Unexpected::Other { expected, found } => {
                let r = clone_string(found);
                let r = r.concat(", expected ");
                let r = r.concat(expected.as_str());
                r
            },
        }
    }
}

/// An error raised while hydrating a value from the document.
#[derive(Debug)]
pub enum HydrateError {
    /// A fault of the document store, passed through unchanged.
    Doc(DocError),
    /// The document held a node of a kind the target type cannot read.
    Unexpected(Unexpected),
    /// A value was readable but failed a secondary string-to-key conversion.
    Parse(String),
}

impl HydrateError {
    /// An error for a structurally readable value that could not be
    /// converted, described by what was expected and what was found.
    pub fn unexpected(expected: &str, found: String) -> (r: HydrateError)
        ensures
            r matches HydrateError::Unexpected(u) && u matches Unexpected::Other {
                expected: e,
                found: f,
            } && e@ == expected@ && f@ == found@,
    {
        HydrateError::Unexpected(Unexpected::Other { expected: expected.to_owned(), found })
    }
}

/// Soften a hydration result: `Unexpected` and `Parse` failures become
/// `None`, while document-store faults stay errors. Used for speculative
/// reads such as key extraction.
pub fn strip_unexpected<T>(r: Result<Option<T>, HydrateError>) -> (out: Result<
    Option<T>,
    DocError,
>)
    ensures
        match r {
            Ok(v) => out == Ok::<Option<T>, DocError>(v),
            Err(HydrateError::Doc(e)) => out == Err::<Option<T>, DocError>(e),
            Err(_) => out == Ok::<Option<T>, DocError>(None::<T>),
        },
{
    match r {
        Ok(v) => Ok(v),
        Err(HydrateError::Doc(e)) => Err(e),
        Err(HydrateError::Unexpected(_)) => Ok(None),
        Err(HydrateError::Parse(_)) => Ok(None),
    }
}

/// A type which can be hydrated from the document.
///
/// Implementors override the constructors for the node kinds they accept —
/// every other kind reports an [`Unexpected`] error rather than panicking —
/// and, alongside each constructor, the spec member saying what a value it
/// returns is. The dispatching `hydrate` then guarantees that whatever comes
/// back stands in the declared relation to the node found at the slot.
pub trait Hydrate: Sized {
    /// What a value constructed from a boolean scalar is. A type that keeps
    /// the default constructor keeps the default, unconstrained relation.
    open spec fn from_bool(b: bool, v: Self) -> bool {
        true
    }

    /// What a value constructed from a bytes scalar is.
    open spec fn from_bytes(bs: Seq<u8>, v: Self) -> bool {
        true
    }

    /// What a value constructed from a counter scalar is.
    open spec fn from_counter(c: i64, v: Self) -> bool {
        true
    }

    /// What a value constructed from a signed-integer scalar is.
    open spec fn from_int(i: i64, v: Self) -> bool {
        true
    }

    /// What a value constructed from an unsigned-integer scalar is.
    open spec fn from_uint(u: u64, v: Self) -> bool {
        true
    }

    /// What a value constructed from a string scalar is.
    open spec fn from_string(s: Seq<char>, v: Self) -> bool {
        true
    }

    /// What a value constructed from a timestamp scalar is.
    open spec fn from_timestamp(t: i64, v: Self) -> bool {
        true
    }

    /// What a value constructed from an absent slot or a null scalar is.
    open spec fn from_none(v: Self) -> bool {
        true
    }

    /// What a value constructed from map object `obj` of `d` is.
    open spec fn from_map(d: Doc, obj: int, v: Self) -> bool {
        true
    }

    /// What a value constructed from sequence object `obj` of `d` is.
    open spec fn from_seq(d: Doc, obj: int, v: Self) -> bool {
        true
    }

    /// What a value constructed from text object `obj` of `d` is.
    open spec fn from_text(d: Doc, obj: int, v: Self) -> bool {
        true
    }

    /// Read the value at slot `(obj, prop)`, dispatching on the node kind
    /// found there.
    fn hydrate(doc: &Doc, obj: usize, prop: &Prop) -> (r: Result<Self, HydrateError>)
        requires
            doc.wf(),
        ensures
            r matches Ok(v) ==> match doc.slot(obj as int, prop@) {
                None => Self::from_none(v),
                Some(NodeM::Scalar(sm)) => match sm {
                    crate::doc::ScalarM::Null => Self::from_none(v),
                    crate::doc::ScalarM::Bool(b) => Self::from_bool(b, v),
                    crate::doc::ScalarM::Uint(u) => Self::from_uint(u, v),
                    crate::doc::ScalarM::Int(i) => Self::from_int(i, v),
                    crate::doc::ScalarM::Str(st) => Self::from_string(st, v),
                    crate::doc::ScalarM::Bytes(bs) => Self::from_bytes(bs, v),
                    crate::doc::ScalarM::Timestamp(t) => Self::from_timestamp(t, v),
                    crate::doc::ScalarM::Counter(c) => Self::from_counter(c, v),
                },
                Some(NodeM::Obj(t)) => if doc.kind_m(t) == ObjKind::MapObj {
                    Self::from_map(*doc, t, v)
                } else if doc.kind_m(t) == ObjKind::ListObj {
                    Self::from_seq(*doc, t, v)
                } else {
                    Self::from_text(*doc, t, v)
                },
            },
    {
        match doc.get(obj, prop) {
            Err(e) => Err(HydrateError::Doc(e)),
            Ok(None) => Self::hydrate_none(),
            Ok(Some(Node::Obj(id))) => {
                proof {
                    crate::doc::lemma_slot_obj_bounds(*doc, obj as int, prop@);
                }
                match doc.object_kind(id) {
                    Some(ObjKind::MapObj) => Self::hydrate_map(doc, id),
                    Some(ObjKind::ListObj) => Self::hydrate_seq(doc, id),
                    Some(ObjKind::TextObj) => Self::hydrate_text(doc, id),
                    None => {
                        proof {
                            assert(false);
                        }
                        Self::hydrate_none()
                    },
                }
            },
            Ok(Some(Node::Scalar(s))) => Self::hydrate_scalar(&s),
        }
    }

    /// Construct the value from a scalar, dispatching on its form.
    fn hydrate_scalar(s: &crate::doc::ScalarVal) -> (r: Result<Self, HydrateError>)
        ensures
            r matches Ok(v) ==> match s@ {
                crate::doc::ScalarM::Null => Self::from_none(v),
                crate::doc::ScalarM::Bool(b) => Self::from_bool(b, v),
                crate::doc::ScalarM::Uint(u) => Self::from_uint(u, v),
                crate::doc::ScalarM::Int(i) => Self::from_int(i, v),
                crate::doc::ScalarM::Str(st) => Self::from_string(st, v),
                crate::doc::ScalarM::Bytes(bs) => Self::from_bytes(bs, v),
                crate::doc::ScalarM::Timestamp(t) => Self::from_timestamp(t, v),
                crate::doc::ScalarM::Counter(c) => Self::from_counter(c, v),
            },
    {
        match s {
            crate::doc::ScalarVal::Null => Self::hydrate_none(),
            crate::doc::ScalarVal::Bool(b) => Self::hydrate_bool(*b),
            crate::doc::ScalarVal::Bytes(b) => Self::hydrate_bytes(b),
            crate::doc::ScalarVal::Counter(c) => Self::hydrate_counter(*c),
            crate::doc::ScalarVal::Int(i) => Self::hydrate_int(*i),
            crate::doc::ScalarVal::Uint(u) => Self::hydrate_uint(*u),
            crate::doc::ScalarVal::Str(st) => Self::hydrate_string(st.as_str()),
            crate::doc::ScalarVal::Timestamp(t) => Self::hydrate_timestamp(*t),
        }
    }

    fn hydrate_bool(b: bool) -> (r: Result<Self, HydrateError>)
        ensures
            r matches Ok(v) ==> Self::from_bool(b, v),
        default_ensures
            r matches Err(HydrateError::Unexpected(u)) && u is Boolean,
    {
        let _ = b;
        Err(HydrateError::Unexpected(Unexpected::Boolean))
    }

    fn hydrate_bytes(bytes: &Vec<u8>) -> (r: Result<Self, HydrateError>)
        ensures
            r matches Ok(v) ==> Self::from_bytes(bytes@, v),
        default_ensures
            r matches Err(HydrateError::Unexpected(u)) && u is Bytes,
    {
        let _ = bytes;
        Err(HydrateError::Unexpected(Unexpected::Bytes))
    }

    fn hydrate_counter(c: i64) -> (r: Result<Self, HydrateError>)
        ensures
            r matches Ok(v) ==> Self::from_counter(c, v),
        default_ensures
            r matches Err(HydrateError::Unexpected(u)) && u is Counter,
    {
        let _ = c;
        Err(HydrateError::Unexpected(Unexpected::Counter))
    }

    fn hydrate_int(i: i64) -> (r: Result<Self, HydrateError>)
        ensures
            r matches Ok(v) ==> Self::from_int(i, v),
        default_ensures
            r matches Err(HydrateError::Unexpected(u)) && u is Int,
    {
        let _ = i;
        Err(HydrateError::Unexpected(Unexpected::Int))
    }

    fn hydrate_uint(u: u64) -> (r: Result<Self, HydrateError>)
        ensures
            r matches Ok(v) ==> Self::from_uint(u, v),
        default_ensures
            r matches Err(HydrateError::Unexpected(u)) && u is Uint,
    {
        let _ = u;
        Err(HydrateError::Unexpected(Unexpected::Uint))
    }

    fn hydrate_string(s: &str) -> (r: Result<Self, HydrateError>)
        ensures
            r matches Ok(v) ==> Self::from_string(s@, v),
        default_ensures
            r matches Err(HydrateError::Unexpected(u)) && u is Str,
    {
        let _ = s;
        Err(HydrateError::Unexpected(Unexpected::Str))
    }

    fn hydrate_timestamp(t: i64) -> (r: Result<Self, HydrateError>)
        ensures
            r matches Ok(v) ==> Self::from_timestamp(t, v),
        default_ensures
            r matches Err(HydrateError::Unexpected(u)) && u is Timestamp,
    {
        let _ = t;
        Err(HydrateError::Unexpected(Unexpected::Timestamp))
    }

    fn hydrate_map(doc: &Doc, obj: usize) -> (r: Result<Self, HydrateError>)
        requires
            doc.wf(),
            doc.is_obj(obj as int),
        ensures
            r matches Ok(v) ==> Self::from_map(*doc, obj as int, v),
        default_ensures
            r matches Err(HydrateError::Unexpected(u)) && u is MapObject,
    {
        let _ = doc;
        let _ = obj;
        Err(HydrateError::Unexpected(Unexpected::MapObject))
    }

    fn hydrate_seq(doc: &Doc, obj: usize) -> (r: Result<Self, HydrateError>)
        requires
            doc.wf(),
            doc.is_obj(obj as int),
        ensures
            r matches Ok(v) ==> Self::from_seq(*doc, obj as int, v),
        default_ensures
            r matches Err(HydrateError::Unexpected(u)) && u is SeqObject,
    {
        let _ = doc;
        let _ = obj;
        Err(HydrateError::Unexpected(Unexpected::SeqObject))
    }

    fn hydrate_text(doc: &Doc, obj: usize) -> (r: Result<Self, HydrateError>)
        requires
            doc.wf(),
            doc.is_obj(obj as int),
        ensures
            r matches Ok(v) ==> Self::from_text(*doc, obj as int, v),
        default_ensures
            r matches Err(HydrateError::Unexpected(u)) && u is TextObject,
    {
        let _ = doc;
        let _ = obj;
        Err(HydrateError::Unexpected(Unexpected::TextObject))
    }

    fn hydrate_none() -> (r: Result<Self, HydrateError>)
        ensures
            r matches Ok(v) ==> Self::from_none(v),
        default_ensures
            r matches Err(HydrateError::Unexpected(u)) && u is Nothing,
    {
        Err(HydrateError::Unexpected(Unexpected::Nothing))
    }
}

/// What a value of `T` constructed from scalar `s` is, by the scalar's form.
pub open spec fn scalar_reads<T: Hydrate>(s: crate::doc::ScalarM, v: T) -> bool {
    match s {
        crate::doc::ScalarM::Null => T::from_none(v),
        crate::doc::ScalarM::Bool(b) => T::from_bool(b, v),
        crate::doc::ScalarM::Uint(u) => T::from_uint(u, v),
        crate::doc::ScalarM::Int(i) => T::from_int(i, v),
        crate::doc::ScalarM::Str(st) => T::from_string(st, v),
        crate::doc::ScalarM::Bytes(bs) => T::from_bytes(bs, v),
        crate::doc::ScalarM::Timestamp(t) => T::from_timestamp(t, v),
        crate::doc::ScalarM::Counter(c) => T::from_counter(c, v),
    }
}

/// What a value of `T` constructed from node `n` of `d` is: the scalar
/// relation for a leaf, the per-kind object relation for a reference.
pub open spec fn node_reads<T: Hydrate>(d: Doc, n: NodeM, v: T) -> bool {
    match n {
        NodeM::Scalar(s) => scalar_reads::<T>(s, v),
        NodeM::Obj(t) => if d.kind_m(t) == ObjKind::MapObj {
            T::from_map(d, t, v)
        } else if d.kind_m(t) == ObjKind::ListObj {
            T::from_seq(d, t, v)
        } else {
            T::from_text(d, t, v)
        },
    }
}

/// What a value of `T` hydrated from slot `(obj, prop)` of `d` is.
pub open spec fn slot_reads<T: Hydrate>(d: Doc, obj: int, prop: PropM, v: T) -> bool {
    match d.slot(obj, prop) {
        Some(n) => node_reads::<T>(d, n, v),
        None => T::from_none(v),
    }
}

/// Hydrate an instance of `H` from the document root.
pub fn hydrate<H: Hydrate>(doc: &Doc) -> (r: Result<H, HydrateError>)
    requires
        doc.wf(),
    ensures
        r matches Ok(v) ==> H::from_map(*doc, 0, v),
{
    H::hydrate_map(doc, ROOT)
}

/// Hydrate an instance of `H` at property `prop` of object `obj`.
pub fn hydrate_prop<H: Hydrate>(doc: &Doc, obj: usize, prop: &Prop) -> (r: Result<H, HydrateError>)
    requires
        doc.wf(),
    ensures
        r matches Ok(v) ==> slot_reads::<H>(*doc, obj as int, prop@, v),
{
    H::hydrate(doc, obj, prop)
}

// ---------------------------------------------------------------------------
// Path traversal
// ---------------------------------------------------------------------------

/// Where a non-empty property path leads, starting from object `o`: each
/// segment but the last must read an object reference, and the final slot is
/// returned. A missing or scalar intermediate segment resolves to nothing.
pub open spec fn resolve_path_m(d: Doc, o: int, path: Seq<PropM>) -> Option<(int, PropM)>
    decreases path.len(),
{
    if path.len() == 0 {
        None
    } else if path.len() == 1 {
        Some((o, path[0]))
    } else {
        match d.slot(o, path[0]) {
            Some(NodeM::Obj(t)) => resolve_path_m(d, t, path.drop_first()),
            _ => None,
        }
    }
}

/// The object reached after following the first `i` segments of `path` from
/// `o`, if every one of them reads an object reference.
pub open spec fn walk_to(d: Doc, o: int, path: Seq<PropM>, i: int) -> Option<int>
    decreases i,
{
    if i <= 0 {
        Some(o)
    } else {
        match walk_to(d, o, path, i - 1) {
            Some(p) => match d.slot(p, path[i - 1]) {
                Some(NodeM::Obj(t)) => Some(t),
                _ => None,
            },
            None => None,
        }
    }
}

/// A walk that reaches step `i` reaches every earlier step.
pub proof fn lemma_walk_some_prefix(d: Doc, o: int, path: Seq<PropM>, j: int, i: int)
    requires
        0 <= j <= i,
        walk_to(d, o, path, i) is Some,
    ensures
        walk_to(d, o, path, j) is Some,
    decreases i - j,
{
    if j < i {
        lemma_walk_some_prefix(d, o, path, j, i - 1);
    }
}

/// Path traversal short-circuits on missing data: if, anywhere before the
/// final segment, the walk reaches an object whose addressed slot holds no
/// object reference, the whole path resolves to nothing.
pub proof fn lemma_path_short_circuits(d: Doc, o: int, path: Seq<PropM>, i: int)
    requires
        0 <= i < path.len() - 1,
        walk_to(d, o, path, i) matches Some(oi) && !(d.slot(oi, path[i]) matches Some(
            NodeM::Obj(_),
        )),
    ensures
        resolve_path_m(d, o, path) is None,
    decreases i,
{
    if i == 0 {
        assert(walk_to(d, o, path, 0) == Some(o));
    } else {
        lemma_walk_some_prefix(d, o, path, 1, i);
        assert(walk_to(d, o, path, 0) == Some(o));
        match d.slot(o, path[0]) {
            Some(NodeM::Obj(t)) => {
                lemma_walk_to_step(d, o, path, i);
                assert(path.drop_first()[i - 1] == path[i]);
                lemma_path_short_circuits(d, t, path.drop_first(), i - 1);
            },
            _ => {
                assert(walk_to(d, o, path, 1) is None);
            },
        }
    }
}

/// Walking `i` segments from `o` equals walking `i - 1` segments from the
/// object the first segment reads.
pub proof fn lemma_walk_to_step(d: Doc, o: int, path: Seq<PropM>, i: int)
    requires
        1 <= i <= path.len(),
        d.slot(o, path[0]) matches Some(NodeM::Obj(_)),
    ensures
        walk_to(d, o, path, i) == walk_to(
            d,
            d.slot(o, path[0])->0->Obj_0,
            path.drop_first(),
            i - 1,
        ),
    decreases i,
{
    let t = d.slot(o, path[0])->0->Obj_0;
    if i == 1 {
        assert(walk_to(d, o, path, 1) == Some(t));
        assert(walk_to(d, t, path.drop_first(), 0) == Some(t));
    } else {
        lemma_walk_to_step(d, o, path, i - 1);
        assert(path.drop_first()[i - 2] == path[i - 1]);
    }
}

/// Hydrate an instance of `H` at the slot a property path leads to, walking
/// the document one segment at a time. A path that runs into missing data, a
/// scalar before its final segment, or a property form that does not match
/// the object it addresses yields `None` rather than an error. An empty path
/// at the document root hydrates the whole document as a map; an empty path
/// elsewhere hydrates the object's own slot in its parent.
pub fn hydrate_path<H: Hydrate>(doc: &Doc, obj: usize, path: &Vec<Prop>) -> (r: Result<
    Option<H>,
    HydrateError,
>)
    requires
        doc.wf(),
        doc.is_obj(obj as int),
    ensures
        path@.len() > 0 && resolve_path_m(*doc, obj as int, path@.map_values(|p: Prop| p@))
            is None ==> (r matches Ok(o) && o is None),
        path@.len() > 0 && resolve_path_m(*doc, obj as int, path@.map_values(|p: Prop| p@))
            is Some ==> !(r matches Ok(o) && o is None),
        path@.len() > 0 ==> match resolve_path_m(
            *doc,
            obj as int,
            path@.map_values(|p: Prop| p@),
        ) {
            Some(end) => (r matches Ok(o) ==> (o matches Some(v) ==> slot_reads::<H>(
                *doc,
                end.0,
                end.1,
                v,
            ))),
            None => true,
        },
        path@.len() == 0 && obj == 0 ==> !(r matches Ok(o) && o is None),
        path@.len() == 0 && obj == 0 ==> (r matches Ok(o) ==> (o matches Some(v)
            ==> H::from_map(*doc, 0, v))),
        path@.len() == 0 && obj != 0 ==> (r matches Ok(o) ==> (o matches Some(v)
            ==> node_reads::<H>(*doc, NodeM::Obj(obj as int), v))),
        path@.len() == 0 && obj != 0 && (forall|x: int, p: PropM|
            doc.is_obj(x) ==> #[trigger] doc.slot(x, p) != Some(NodeM::Obj(obj as int))) ==> (r
            matches Ok(o) && o is None),
        path@.len() == 0 && obj != 0 && (r matches Ok(o) && o is None) ==> forall|
            x: int,
            p: PropM,
        |
            doc.is_obj(x) ==> #[trigger] doc.slot(x, p) != Some(NodeM::Obj(obj as int)),
{
    let ghost pathm = path@.map_values(|p: Prop| p@);
    if path.len() == 0 {
        if obj == ROOT {
            return match hydrate::<H>(doc) {
                Ok(v) => Ok(Some(v)),
                Err(e) => Err(e),
            };
        }
        return match doc.parent_of(obj) {
            Some((pobj, pprop)) => match hydrate_prop::<H>(doc, pobj, &pprop) {
                Ok(v) => Ok(Some(v)),
                Err(e) => Err(e),
            },
            None => Ok(None),
        };
    }
    let mut cur: usize = obj;
    let mut i: usize = 0;
    proof {
        assert(pathm.skip(0) =~= pathm);
    }
    while i < path.len() - 1
        invariant
            doc.wf(),
            path@.len() > 0,
            pathm == path@.map_values(|p: Prop| p@),
            pathm.len() == path@.len(),
            i < path@.len(),
            doc.is_obj(cur as int),
            resolve_path_m(*doc, obj as int, pathm) == resolve_path_m(
                *doc,
                cur as int,
                pathm.skip(i as int),
            ),
        decreases path.len() - i,
    {
        proof {
            assert(pathm[i as int] == path@[i as int]@);
        }
        match doc.get(cur, &path[i]) {
            Err(e) => {
                proof {
                    assert(false);
                }
                return Err(HydrateError::Doc(e));
            },
            Ok(Some(Node::Obj(t))) => {
                proof {
                    crate::doc::lemma_slot_obj_bounds(*doc, cur as int, path@[i as int]@);
                    assert(pathm.skip(i as int)[0] == pathm[i as int]);
                    assert(pathm.skip(i as int).drop_first() =~= pathm.skip(i as int + 1));
                    assert(resolve_path_m(*doc, cur as int, pathm.skip(i as int))
                        == resolve_path_m(*doc, t as int, pathm.skip(i as int + 1)));
                }
                cur = t;
            },
            Ok(_) => {
                proof {
                    assert(pathm.skip(i as int)[0] == pathm[i as int]);
                    assert(resolve_path_m(*doc, cur as int, pathm.skip(i as int)) is None);
                }
                return Ok(None);
            },
        }
        i += 1;
    }
    proof {
        assert(pathm.skip(i as int).len() == 1);
        assert(pathm.skip(i as int)[0] == pathm[i as int]);
        assert(resolve_path_m(*doc, cur as int, pathm.skip(i as int)) == Some(
            (cur as int, pathm[i as int]),
        ));
    }
    match hydrate_prop::<H>(doc, cur, &path[i]) {
        Ok(v) => Ok(Some(v)),
        Err(e) => Err(e),
    }
}


// ---------------------------------------------------------------------------
// Exact scalar readers
// ---------------------------------------------------------------------------

/// The unsigned integer held at a slot, if that is what it holds.
pub open spec fn uint_at(d: Doc, o: int, p: PropM) -> Option<u64> {
    match d.slot(o, p) {
        Some(NodeM::Scalar(crate::doc::ScalarM::Uint(u))) => Some(u),
        _ => None,
    }
}

/// The string held at a slot, if that is what it holds.
pub open spec fn string_at(d: Doc, o: int, p: PropM) -> Option<Seq<char>> {
    match d.slot(o, p) {
        Some(NodeM::Scalar(crate::doc::ScalarM::Str(s))) => Some(s),
        _ => None,
    }
}

/// Read the unsigned integer at slot `(obj, prop)`: succeeds exactly when
/// the slot holds one, and returns exactly it.
pub fn read_uint(doc: &Doc, obj: usize, prop: &Prop) -> (r: Result<u64, HydrateError>)
    requires
        doc.wf(),
    ensures
        doc.is_obj(obj as int) ==> match uint_at(*doc, obj as int, prop@) {
            Some(u) => r == Ok::<u64, HydrateError>(u),
            None => r is Err,
        },
        !doc.is_obj(obj as int) ==> r is Err,
{
    match doc.get(obj, prop) {
        Err(e) => Err(HydrateError::Doc(e)),
        Ok(Some(Node::Scalar(crate::doc::ScalarVal::Uint(u)))) => Ok(u),
        Ok(Some(Node::Scalar(s))) => Err(HydrateError::Unexpected(unexpected_scalar(&s))),
        Ok(Some(Node::Obj(id))) => {
            proof {
                crate::doc::lemma_slot_obj_bounds(*doc, obj as int, prop@);
            }
            Err(HydrateError::Unexpected(unexpected_object(doc, id)))
        },
        Ok(None) => Err(HydrateError::Unexpected(Unexpected::Nothing)),
    }
}

/// The unexpected-kind report for a scalar a reader could not use.
fn unexpected_scalar(s: &crate::doc::ScalarVal) -> (r: Unexpected) {
    match s {
        crate::doc::ScalarVal::Null => Unexpected::Nothing,
        crate::doc::ScalarVal::Bool(_) => Unexpected::Boolean,
        crate::doc::ScalarVal::Uint(_) => Unexpected::Uint,
        crate::doc::ScalarVal::Int(_) => Unexpected::Int,
        crate::doc::ScalarVal::Str(_) => Unexpected::Str,
        crate::doc::ScalarVal::Bytes(_) => Unexpected::Bytes,
        crate::doc::ScalarVal::Timestamp(_) => Unexpected::Timestamp,
        crate::doc::ScalarVal::Counter(_) => Unexpected::Counter,
    }
}

/// The unexpected-kind report for a composite object a reader could not use.
fn unexpected_object(doc: &Doc, obj: usize) -> (r: Unexpected)
    requires
        doc.wf(),
        doc.is_obj(obj as int),
{
    match doc.object_kind(obj) {
        Some(ObjKind::MapObj) => Unexpected::MapObject,
        Some(ObjKind::ListObj) => Unexpected::SeqObject,
        Some(ObjKind::TextObj) => Unexpected::TextObject,
        None => {
            proof {
                assert(false);
            }
            Unexpected::Nothing
        },
    }
}

/// Read the string at slot `(obj, prop)`: succeeds exactly when the slot
/// holds one, and returns exactly it.
pub fn read_string(doc: &Doc, obj: usize, prop: &Prop) -> (r: Result<String, HydrateError>)
    requires
        doc.wf(),
    ensures
        doc.is_obj(obj as int) ==> match string_at(*doc, obj as int, prop@) {
            Some(s) => (r matches Ok(v) && v@ == s),
            None => r is Err,
        },
        !doc.is_obj(obj as int) ==> r is Err,
{
    match doc.get(obj, prop) {
        Err(e) => Err(HydrateError::Doc(e)),
        Ok(Some(Node::Scalar(crate::doc::ScalarVal::Str(st)))) => Ok(st),
        Ok(Some(Node::Scalar(s))) => Err(HydrateError::Unexpected(unexpected_scalar(&s))),
        Ok(Some(Node::Obj(id))) => {
            proof {
                crate::doc::lemma_slot_obj_bounds(*doc, obj as int, prop@);
            }
            Err(HydrateError::Unexpected(unexpected_object(doc, id)))
        },
        Ok(None) => Err(HydrateError::Unexpected(Unexpected::Nothing)),
    }
}

} // verus!
