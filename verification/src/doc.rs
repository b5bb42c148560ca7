//! The document store: a tree of maps, sequences and text objects, each with a
//! stable identity, holding scalar leaves.
//!
//! Every composite object lives in an arena and is addressed by its index;
//! index 0 is the root map. A slot of a map or sequence holds either a scalar
//! or a reference to a child object, and a child is always created after its
//! container, so references point strictly upwards in the arena. Every
//! mutation is recorded as a plain [`WriteOp`] in a log, which lets a caller
//! replay a reconciliation into an external document engine. The `heads`
//! counter is a snapshot token: it advances once per committed batch of
//! mutations and backs the staleness check of text reconciliation.

use vstd::prelude::*;

use crate::prop::{clone_string, Prop, PropM};

verus! {

// ---------------------------------------------------------------------------
// Values
// ---------------------------------------------------------------------------

/// A scalar document value.
#[derive(Clone, Debug)]
pub enum ScalarVal {
    Null,
    Bool(bool),
    Uint(u64),
    Int(i64),
    Str(String),
    Bytes(Vec<u8>),
    Timestamp(i64),
    Counter(i64),
}

/// The mathematical form of a [`ScalarVal`].
pub enum ScalarM {
    Null,
    Bool(bool),
    Uint(u64),
    Int(i64),
    Str(Seq<char>),
    Bytes(Seq<u8>),
    Timestamp(i64),
    Counter(i64),
}

impl View for ScalarVal {
    type V = ScalarM;

    open spec fn view(&self) -> ScalarM {
        match self {
            ScalarVal::Null => ScalarM::Null,
            ScalarVal::Bool(b) => ScalarM::Bool(*b),
            ScalarVal::Uint(u) => ScalarM::Uint(*u),
            ScalarVal::Int(i) => ScalarM::Int(*i),
            ScalarVal::Str(s) => ScalarM::Str(s@),
            ScalarVal::Bytes(b) => ScalarM::Bytes(b@),
            ScalarVal::Timestamp(t) => ScalarM::Timestamp(*t),
            ScalarVal::Counter(c) => ScalarM::Counter(*c),
        }
    }
}

/// The kind of a composite object.
#[derive(Clone, Copy, Debug, PartialEq, Eq)]
pub enum ObjKind {
    MapObj,
    ListObj,
    TextObj,
}

/// A node held by a slot: a scalar leaf or a reference to a composite object.
#[derive(Clone, Debug)]
pub enum Node {
    Scalar(ScalarVal),
    Obj(usize),
}

/// The mathematical form of a [`Node`].
pub enum NodeM {
    Scalar(ScalarM),
    Obj(int),
}

impl View for Node {
    type V = NodeM;

    open spec fn view(&self) -> NodeM {
        match self {
            Node::Scalar(s) => NodeM::Scalar(s@),
            Node::Obj(o) => NodeM::Obj(*o as int),
        }
    }
}

/// The contents of one composite object.
#[derive(Clone, Debug)]
pub enum ObjData {
    MapObj(Vec<(String, Node)>),
    ListObj(Vec<Node>),
    TextObj(Vec<char>),
}

/// The mathematical form of an [`ObjData`].
pub enum ObjM {
    MapObj(Seq<(Seq<char>, NodeM)>),
    ListObj(Seq<NodeM>),
    TextObj(Seq<char>),
}

impl View for ObjData {
    type V = ObjM;

    open spec fn view(&self) -> ObjM {
        match self {
            ObjData::MapObj(es) => ObjM::MapObj(es@.map_values(|e: (String, Node)| (e.0@, e.1@))),
            ObjData::ListObj(ns) => ObjM::ListObj(ns@.map_values(|n: Node| n@)),
            ObjData::TextObj(cs) => ObjM::TextObj(cs@),
        }
    }
}

/// One recorded mutation, in terms a document-engine adapter can replay:
/// object ids are arena indices, and a freshly created object carries the id
/// the store assigned to it.
#[derive(Clone, Debug)]
pub enum WriteOp {
    Put { obj: usize, prop: Prop, value: ScalarVal },
    PutObject { obj: usize, prop: Prop, kind: ObjKind, new_id: usize },
    Insert { obj: usize, index: usize, value: ScalarVal },
    InsertObject { obj: usize, index: usize, kind: ObjKind, new_id: usize },
    Increment { obj: usize, prop: Prop, by: i64 },
    Delete { obj: usize, prop: Prop },
    SpliceText { obj: usize, pos: usize, del: usize, insert: Vec<char> },
}

/// The mathematical form of a [`WriteOp`].
pub enum WriteOpM {
    Put { obj: int, prop: PropM, value: ScalarM },
    PutObject { obj: int, prop: PropM, kind: ObjKind, new_id: int },
    Insert { obj: int, index: int, value: ScalarM },
    InsertObject { obj: int, index: int, kind: ObjKind, new_id: int },
    Increment { obj: int, prop: PropM, by: i64 },
    Delete { obj: int, prop: PropM },
    SpliceText { obj: int, pos: int, del: int, insert: Seq<char> },
}

impl View for WriteOp {
    type V = WriteOpM;

    open spec fn view(&self) -> WriteOpM {
        match self {
            WriteOp::Put { obj, prop, value } => WriteOpM::Put {
                obj: *obj as int,
                prop: prop@,
                value: value@,
            },
            WriteOp::PutObject { obj, prop, kind, new_id } => WriteOpM::PutObject {
                obj: *obj as int,
                prop: prop@,
                kind: *kind,
                new_id: *new_id as int,
            },
            WriteOp::Insert { obj, index, value } => WriteOpM::Insert {
                obj: *obj as int,
                index: *index as int,
                value: value@,
            },
            WriteOp::InsertObject { obj, index, kind, new_id } => WriteOpM::InsertObject {
                obj: *obj as int,
                index: *index as int,
                kind: *kind,
                new_id: *new_id as int,
            },
            WriteOp::Increment { obj, prop, by } => WriteOpM::Increment {
                obj: *obj as int,
                prop: prop@,
                by: *by,
            },
            WriteOp::Delete { obj, prop } => WriteOpM::Delete { obj: *obj as int, prop: prop@ },
            WriteOp::SpliceText { obj, pos, del, insert } => WriteOpM::SpliceText {
                obj: *obj as int,
                pos: *pos as int,
                del: *del as int,
                insert: insert@,
            },
        }
    }
}

/// An error from the document store itself. The engine passes these through
/// unchanged.
#[derive(Clone, Copy, Debug, PartialEq, Eq)]
pub enum DocError {
    /// The object id does not name an object of the document.
    MissingObject,
    /// The object is not of the kind the operation requires, or the property
    /// form does not match the object.
    WrongKind,
    /// A sequence or text position lies beyond the current length.
    OutOfBounds,
    /// A counter increment would leave the representable range.
    Overflow,
}

// ---------------------------------------------------------------------------
// Small value helpers
// ---------------------------------------------------------------------------

/// Byte-vector equality, decided by the contents.
pub fn bytes_eq(a: &Vec<u8>, b: &Vec<u8>) -> (r: bool)
    ensures
        r == (a@ == b@),
{
    if a.len() != b.len() {
        assert(a@ != b@);
        return false;
    }
    let mut i: usize = 0;
    while i < a.len()
        invariant
            i <= a.len(),
            a.len() == b.len(),
            forall|j: int| 0 <= j < i ==> a@[j] == b@[j],
        decreases a.len() - i,
    {
        if a[i] != b[i] {
            assert(a@ != b@);
            return false;
        }
        i += 1;
    }
    assert(a@ =~= b@);
    true
}

/// Character-vector equality, decided by the contents.
pub fn chars_eq(a: &Vec<char>, b: &Vec<char>) -> (r: bool)
    ensures
        r == (a@ == b@),
{
    if a.len() != b.len() {
        assert(a@ != b@);
        return false;
    }
    let mut i: usize = 0;
    while i < a.len()
        invariant
            i <= a.len(),
            a.len() == b.len(),
            forall|j: int| 0 <= j < i ==> a@[j] == b@[j],
        decreases a.len() - i,
    {
        if a[i] != b[i] {
            assert(a@ != b@);
            return false;
        }
        i += 1;
    }
    assert(a@ =~= b@);
    true
}

/// Clone a byte vector, keeping its contents.
pub fn clone_bytes(a: &Vec<u8>) -> (r: Vec<u8>)
    ensures
        r@ == a@,
{
    let mut out: Vec<u8> = Vec::new();
    let mut i: usize = 0;
    while i < a.len()
        invariant
            i <= a.len(),
            out@ =~= a@.subrange(0, i as int),
        decreases a.len() - i,
    {
        out.push(a[i]);
        i += 1;
    }
    assert(out@ =~= a@);
    out
}

/// Clone a character vector, keeping its contents.
pub fn clone_chars(a: &Vec<char>) -> (r: Vec<char>)
    ensures
        r@ == a@,
{
    let mut out: Vec<char> = Vec::new();
    let mut i: usize = 0;
    while i < a.len()
        invariant
            i <= a.len(),
            out@ =~= a@.subrange(0, i as int),
        decreases a.len() - i,
    {
        out.push(a[i]);
        i += 1;
    }
    assert(out@ =~= a@);
    out
}

/// Clone a scalar, keeping its value.
pub fn clone_scalar(s: &ScalarVal) -> (r: ScalarVal)
    ensures
        r@ == s@,
{
    match s {
        ScalarVal::Null => ScalarVal::Null,
        ScalarVal::Bool(b) => ScalarVal::Bool(*b),
        ScalarVal::Uint(u) => ScalarVal::Uint(*u),
        ScalarVal::Int(i) => ScalarVal::Int(*i),
        ScalarVal::Str(st) => ScalarVal::Str(clone_string(st)),
        ScalarVal::Bytes(b) => ScalarVal::Bytes(clone_bytes(b)),
        ScalarVal::Timestamp(t) => ScalarVal::Timestamp(*t),
        ScalarVal::Counter(c) => ScalarVal::Counter(*c),
    }
}

/// Clone a node, keeping its value.
pub fn clone_node(n: &Node) -> (r: Node)
    ensures
        r@ == n@,
{
    match n {
        Node::Scalar(s) => Node::Scalar(clone_scalar(s)),
        Node::Obj(o) => Node::Obj(*o),
    }
}

/// Scalar equality, decided by the mathematical values.
pub fn scalar_eq(a: &ScalarVal, b: &ScalarVal) -> (r: bool)
    ensures
        r == (a@ == b@),
{
    match (a, b) {
        (ScalarVal::Null, ScalarVal::Null) => true,
        (ScalarVal::Bool(x), ScalarVal::Bool(y)) => x == y,
        (ScalarVal::Uint(x), ScalarVal::Uint(y)) => x == y,
        (ScalarVal::Int(x), ScalarVal::Int(y)) => x == y,
        (ScalarVal::Str(x), ScalarVal::Str(y)) => x.eq(y),
        (ScalarVal::Bytes(x), ScalarVal::Bytes(y)) => bytes_eq(x, y),
        (ScalarVal::Timestamp(x), ScalarVal::Timestamp(y)) => x == y,
        (ScalarVal::Counter(x), ScalarVal::Counter(y)) => x == y,
        _ => false,
    }
}

// ---------------------------------------------------------------------------
// Map entry lookup
// ---------------------------------------------------------------------------

/// The value of key `k` among map entries, going by the first occurrence.
pub open spec fn lookup_entries(es: Seq<(Seq<char>, NodeM)>, k: Seq<char>) -> Option<NodeM>
    decreases es.len(),
{
    if es.len() == 0 {
        None
    } else if es[0].0 == k {
        Some(es[0].1)
    } else {
        lookup_entries(es.drop_first(), k)
    }
}

/// Map entries carry pairwise distinct keys.
pub open spec fn entries_unique(es: Seq<(Seq<char>, NodeM)>) -> bool {
    forall|i: int, j: int| 0 <= i < j < es.len() ==> es[i].0 != es[j].0
}

pub proof fn lemma_lookup_found(es: Seq<(Seq<char>, NodeM)>, i: int)
    requires
        0 <= i < es.len(),
        forall|j: int| 0 <= j < i ==> es[j].0 != es[i].0,
    ensures
        lookup_entries(es, es[i].0) == Some(es[i].1),
    decreases i,
{
    if i > 0 {
        lemma_lookup_found(es.drop_first(), i - 1);
    }
}

pub proof fn lemma_lookup_not_found(es: Seq<(Seq<char>, NodeM)>, k: Seq<char>)
    requires
        forall|j: int| 0 <= j < es.len() ==> es[j].0 != k,
    ensures
        lookup_entries(es, k) is None,
    decreases es.len(),
{
    if es.len() > 0 {
        lemma_lookup_not_found(es.drop_first(), k);
    }
}

pub proof fn lemma_lookup_update(es: Seq<(Seq<char>, NodeM)>, i: int, n: NodeM, k2: Seq<char>)
    requires
        0 <= i < es.len(),
        forall|j: int| 0 <= j < i ==> es[j].0 != es[i].0,
    ensures
        lookup_entries(es.update(i, (es[i].0, n)), k2) == if k2 == es[i].0 {
            Some(n)
        } else {
            lookup_entries(es, k2)
        },
    decreases i,
{
    let es2 = es.update(i, (es[i].0, n));
    if i == 0 {
        if k2 != es[0].0 {
            assert(es2.drop_first() =~= es.drop_first());
        }
    } else {
        lemma_lookup_update(es.drop_first(), i - 1, n, k2);
        assert(es2.drop_first() =~= es.drop_first().update(i - 1, (es[i].0, n)));
    }
}

pub proof fn lemma_lookup_push(es: Seq<(Seq<char>, NodeM)>, k: Seq<char>, n: NodeM, k2: Seq<char>)
    requires
        forall|j: int| 0 <= j < es.len() ==> es[j].0 != k,
    ensures
        lookup_entries(es.push((k, n)), k2) == if k2 == k {
            Some(n)
        } else {
            lookup_entries(es, k2)
        },
    decreases es.len(),
{
    if es.len() == 0 {
        assert(es.push((k, n))[0] == (k, n));
        if k2 != k {
            assert(es.push((k, n)).drop_first() =~= es);
            lemma_lookup_not_found(es, k2);
        }
    } else {
        lemma_lookup_push(es.drop_first(), k, n, k2);
        assert(es.push((k, n)).drop_first() =~= es.drop_first().push((k, n)));
    }
}

pub proof fn lemma_lookup_remove(es: Seq<(Seq<char>, NodeM)>, i: int, k2: Seq<char>)
    requires
        0 <= i < es.len(),
        entries_unique(es),
    ensures
        lookup_entries(es.remove(i), k2) == if k2 == es[i].0 {
            None
        } else {
            lookup_entries(es, k2)
        },
    decreases i,
{
    if i == 0 {
        assert(es.remove(0) =~= es.drop_first());
        if k2 == es[0].0 {
            lemma_lookup_not_found(es.drop_first(), k2);
        }
    } else {
        assert(entries_unique(es.drop_first()));
        lemma_lookup_remove(es.drop_first(), i - 1, k2);
        assert(es.remove(i).drop_first() =~= es.drop_first().remove(i - 1));
    }
}

// ---------------------------------------------------------------------------
// The document
// ---------------------------------------------------------------------------

/// The document: an arena of composite objects rooted at the map with id 0,
/// together with a revision counter and the log of applied mutations.
pub struct Doc {
    objs: Vec<ObjData>,
    heads: u64,
    dirty: bool,
    log: Vec<WriteOp>,
}

impl Doc {
    /// The arena contents, as mathematical objects.
    pub closed spec fn objs_m(&self) -> Seq<ObjM> {
        self.objs@.map_values(|o: ObjData| o@)
    }

    /// The number of objects ever created in the document.
    pub open spec fn num_objs(&self) -> int {
        self.objs_m().len() as int
    }

    /// The current snapshot token.
    pub closed spec fn heads_m(&self) -> u64 {
        self.heads
    }

    /// Whether mutations have been applied since the last commit.
    pub closed spec fn dirty_m(&self) -> bool {
        self.dirty
    }

    /// The log of mutations applied so far, as mathematical operations.
    pub closed spec fn log_m(&self) -> Seq<WriteOpM> {
        self.log@.map_values(|op: WriteOp| op@)
    }

    /// Whether `o` names an object of the document.
    pub open spec fn is_obj(&self, o: int) -> bool {
        0 <= o < self.num_objs()
    }

    /// The kind of object `o`.
    pub open spec fn kind_m(&self, o: int) -> ObjKind {
        match self.objs_m()[o] {
            ObjM::MapObj(_) => ObjKind::MapObj,
            ObjM::ListObj(_) => ObjKind::ListObj,
            ObjM::TextObj(_) => ObjKind::TextObj,
        }
    }

    /// The entries of map object `o`.
    pub open spec fn map_m(&self, o: int) -> Seq<(Seq<char>, NodeM)> {
        match self.objs_m()[o] {
            ObjM::MapObj(es) => es,
            _ => Seq::empty(),
        }
    }

    /// The elements of list object `o`.
    pub open spec fn list_m(&self, o: int) -> Seq<NodeM> {
        match self.objs_m()[o] {
            ObjM::ListObj(ns) => ns,
            _ => Seq::empty(),
        }
    }

    /// The characters of text object `o`.
    pub open spec fn text_at(&self, o: int) -> Seq<char> {
        match self.objs_m()[o] {
            ObjM::TextObj(cs) => cs,
            _ => Seq::empty(),
        }
    }

    /// The node held by the slot `(o, p)`, if any.
    pub open spec fn slot(&self, o: int, p: PropM) -> Option<NodeM> {
        match p {
            PropM::Key(k) => match self.objs_m()[o] {
                ObjM::MapObj(es) => lookup_entries(es, k),
                _ => None,
            },
            PropM::Index(i) => match self.objs_m()[o] {
                ObjM::ListObj(ns) => if 0 <= i < ns.len() {
                    Some(ns[i])
                } else {
                    None
                },
                _ => None,
            },
        }
    }

    /// A node is well formed within container `c`: object references point
    /// strictly upwards in the arena and stay in bounds.
    pub open spec fn node_wf(&self, n: NodeM, c: int) -> bool {
        match n {
            NodeM::Scalar(_) => true,
            NodeM::Obj(t) => c < t < self.num_objs(),
        }
    }

    /// Object `o` is well formed: unique map keys and well-formed child nodes.
    pub open spec fn obj_wf(&self, o: int) -> bool {
        match self.objs_m()[o] {
            ObjM::MapObj(es) => entries_unique(es) && forall|i: int|
                0 <= i < es.len() ==> self.node_wf(#[trigger] es[i].1, o),
            ObjM::ListObj(ns) => forall|i: int| 0 <= i < ns.len() ==> self.node_wf(#[trigger] ns[i], o),
            ObjM::TextObj(_) => true,
        }
    }

    /// The document invariant: a root map exists and every object is well
    /// formed.
    pub open spec fn wf(&self) -> bool {
        &&& self.num_objs() >= 1
        &&& self.objs_m()[0] is MapObj
        &&& forall|o: int| 0 <= o < self.num_objs() ==> #[trigger] self.obj_wf(o)
    }

    /// A fresh document: an empty root map, no history, an empty log.
    pub fn new() -> (d: Doc)
        ensures
            d.wf(),
            d.num_objs() == 1,
            d.objs_m()[0] == ObjM::MapObj(Seq::<(Seq<char>, NodeM)>::empty()),
            d.heads_m() == 0,
            !d.dirty_m(),
            d.log_m() == Seq::<WriteOpM>::empty(),
    {
        let mut objs: Vec<ObjData> = Vec::new();
        objs.push(ObjData::MapObj(Vec::new()));
        let d = Doc { objs, heads: 0, dirty: false, log: Vec::new() };
        proof {
            assert(d.objs@.len() == 1);
            assert(d.objs_m().len() == 1);
            assert(d.objs_m()[0] == d.objs@[0]@);
            assert(Seq::<(String, Node)>::empty().map_values(
                |e: (String, Node)| (e.0@, e.1@),
            ) =~= Seq::<(Seq<char>, NodeM)>::empty());
            assert(d.objs_m()[0] == ObjM::MapObj(Seq::<(Seq<char>, NodeM)>::empty()));
            assert(d.objs_m() =~= seq![ObjM::MapObj(Seq::<(Seq<char>, NodeM)>::empty())]);
            assert forall|o: int| 0 <= o < d.num_objs() implies #[trigger] d.obj_wf(o) by {
                assert(d.objs_m()[o] == ObjM::MapObj(Seq::<(Seq<char>, NodeM)>::empty()));
            }
        }
        d
    }

    /// The current snapshot token of the document.
    pub fn get_heads(&self) -> (r: u64)
        ensures
            r == self.heads_m(),
    {
        self.heads
    }

    /// The kind of the object named by `obj`, if it exists.
    pub fn object_kind(&self, obj: usize) -> (r: Option<ObjKind>)
        ensures
            r == if self.is_obj(obj as int) {
                Some(self.kind_m(obj as int))
            } else {
                None::<ObjKind>
            },
    {
        if obj < self.objs.len() {
            match &self.objs[obj] {
                ObjData::MapObj(_) => Some(ObjKind::MapObj),
                ObjData::ListObj(_) => Some(ObjKind::ListObj),
                ObjData::TextObj(_) => Some(ObjKind::TextObj),
            }
        } else {
            None
        }
    }

    /// The length of object `obj`: entry, element or character count; 0 for an
    /// unknown id.
    pub fn length(&self, obj: usize) -> (r: usize)
        ensures
            r == if self.is_obj(obj as int) {
                match self.objs_m()[obj as int] {
                    ObjM::MapObj(es) => es.len(),
                    ObjM::ListObj(ns) => ns.len(),
                    ObjM::TextObj(cs) => cs.len(),
                }
            } else {
                0
            },
    {
        if obj < self.objs.len() {
            match &self.objs[obj] {
                ObjData::MapObj(es) => es.len(),
                ObjData::ListObj(ns) => ns.len(),
                ObjData::TextObj(cs) => cs.len(),
            }
        } else {
            0
        }
    }

    /// Read the slot `(obj, prop)`. Fails only on an unknown object id; a
    /// property whose form does not match the object reads as absent.
    #[verifier::loop_isolation(false)]
    pub fn get(&self, obj: usize, prop: &Prop) -> (r: Result<Option<Node>, DocError>)
        ensures
            match r {
                Ok(opt) => self.is_obj(obj as int) && match opt {
                    Some(n) => self.slot(obj as int, prop@) == Some(n@),
                    None => self.slot(obj as int, prop@) is None,
                },
                Err(e) => !self.is_obj(obj as int) && e == DocError::MissingObject,
            },
    {
        if obj >= self.objs.len() {
            return Err(DocError::MissingObject);
        }
        match prop {
            Prop::Key(k) => match &self.objs[obj] {
                ObjData::MapObj(es) => {
                let mut i: usize = 0;
                while i < es.len()
                    invariant
                        i <= es.len(),
                        obj < self.objs.len(),
                        self.objs@[obj as int] == ObjData::MapObj(*es),
                        forall|j: int| 0 <= j < i ==> (#[trigger] es@[j].0)@ != k@,
                    decreases es.len() - i,
                {
                    if es[i].0 == *k {
                        proof {
                            let esm = es@.map_values(|e: (String, Node)| (e.0@, e.1@));
                            assert forall|j: int| 0 <= j < i implies #[trigger] esm[j].0
                                != esm[i as int].0 by {
                                assert(esm[j] == (es@[j].0@, es@[j].1@));
                            }
                            lemma_lookup_found(esm, i as int);
                            assert(esm[i as int] == (es@[i as int].0@, es@[i as int].1@));
                            assert(esm[i as int].0 == k@);
                            assert(prop@ == PropM::Key(k@));
                            assert(self.objs_m()[obj as int] == self.objs@[obj as int]@);
                            assert(self.objs_m()[obj as int] == ObjM::MapObj(esm));
                            assert(self.slot(obj as int, prop@) == Some(esm[i as int].1));
                        }
                        return Ok(Some(clone_node(&es[i].1)));
                    }
                    i += 1;
                }
                proof {
                    let esm = es@.map_values(|e: (String, Node)| (e.0@, e.1@));
                    assert forall|j: int| 0 <= j < esm.len() implies #[trigger] esm[j].0 != k@ by {
                        assert(esm[j] == (es@[j].0@, es@[j].1@));
                    }
                    lemma_lookup_not_found(esm, k@);
                    assert(prop@ == PropM::Key(k@));
                    assert(self.objs_m()[obj as int] == self.objs@[obj as int]@);
                    assert(self.objs_m()[obj as int] == ObjM::MapObj(esm));
                }
                Ok(None)
                },
                _ => {
                    proof {
                        assert(self.objs_m()[obj as int] == self.objs@[obj as int]@);
                    }
                    Ok(None)
                },
            },
            Prop::Index(i) => match &self.objs[obj] {
                ObjData::ListObj(ns) => {
                    let idx = *i as usize;
                    if idx < ns.len() {
                        proof {
                            assert(self.objs_m()[obj as int] == self.objs@[obj as int]@);
                            assert(self.list_m(obj as int)[idx as int] == ns@[idx as int]@);
                        }
                        Ok(Some(clone_node(&ns[idx])))
                    } else {
                        proof {
                            assert(self.objs_m()[obj as int] == self.objs@[obj as int]@);
                        }
                        Ok(None)
                    }
                },
                _ => {
                    proof {
                        assert(self.objs_m()[obj as int] == self.objs@[obj as int]@);
                    }
                    Ok(None)
                },
            },
        }
    }

    /// The keys of map object `obj`, in entry order; empty for any other
    /// object.
    #[verifier::loop_isolation(false)]
    pub fn map_keys(&self, obj: usize) -> (r: Vec<String>)
        ensures
            r@.map_values(|s: String| s@) == if self.is_obj(obj as int) {
                self.map_m(obj as int).map_values(|e: (Seq<char>, NodeM)| e.0)
            } else {
                Seq::<Seq<char>>::empty()
            },
    {
        let mut out: Vec<String> = Vec::new();
        if obj >= self.objs.len() {
            proof {
                assert(out@.map_values(|s: String| s@) =~= Seq::<Seq<char>>::empty());
            }
            return out;
        }
        match &self.objs[obj] {
            ObjData::MapObj(es) => {
                let mut i: usize = 0;
                while i < es.len()
                    invariant
                        i <= es.len(),
                        obj < self.objs.len(),
                        self.objs@[obj as int] == ObjData::MapObj(*es),
                        out@.len() == i,
                        forall|j: int| 0 <= j < i ==> (#[trigger] out@[j])@ == es@[j].0@,
                    decreases es.len() - i,
                {
                    out.push(clone_string(&es[i].0));
                    i += 1;
                }
                proof {
                    let lhs = out@.map_values(|s: String| s@);
                    let rhs = self.map_m(obj as int).map_values(|e: (Seq<char>, NodeM)| e.0);
                    assert(self.objs_m()[obj as int] == self.objs@[obj as int]@);
                    assert forall|j: int| 0 <= j < lhs.len() implies #[trigger] lhs[j] == rhs[j] by {
                        assert(self.map_m(obj as int)[j] == (es@[j].0@, es@[j].1@));
                    }
                    assert(lhs =~= rhs);
                }
                out
            },
            _ => {
                proof {
                    assert(out@.map_values(|s: String| s@) =~= Seq::<Seq<char>>::empty());
                }
                out
            },
        }
    }

    /// The characters of text object `obj`.
    pub fn text_chars(&self, obj: usize) -> (r: Result<Vec<char>, DocError>)
        ensures
            match r {
                Ok(cs) => self.is_obj(obj as int) && self.kind_m(obj as int) == ObjKind::TextObj
                    && cs@ == self.text_at(obj as int),
                Err(e) => if !self.is_obj(obj as int) {
                    e == DocError::MissingObject
                } else {
                    self.kind_m(obj as int) != ObjKind::TextObj && e == DocError::WrongKind
                },
            },
    {
        if obj >= self.objs.len() {
            return Err(DocError::MissingObject);
        }
        match &self.objs[obj] {
            ObjData::TextObj(cs) => Ok(clone_chars(cs)),
            _ => Err(DocError::WrongKind),
        }
    }
}


// ---------------------------------------------------------------------------
// Frame predicates
// ---------------------------------------------------------------------------

/// The entry views of a map entry sequence.
pub open spec fn entries_m(es: Seq<(String, Node)>) -> Seq<(Seq<char>, NodeM)> {
    es.map_values(|e: (String, Node)| (e.0@, e.1@))
}

/// The node views of a node sequence.
pub open spec fn nodes_m(ns: Seq<Node>) -> Seq<NodeM> {
    ns.map_values(|n: Node| n@)
}

/// An empty object of the given kind.
pub open spec fn empty_obj_m(kind: ObjKind) -> ObjM {
    match kind {
        ObjKind::MapObj => ObjM::MapObj(Seq::empty()),
        ObjKind::ListObj => ObjM::ListObj(Seq::empty()),
        ObjKind::TextObj => ObjM::TextObj(Seq::empty()),
    }
}

/// The keys of map object `o`, in entry order.
pub open spec fn map_keys_of(d: Doc, o: int) -> Seq<Seq<char>> {
    d.map_m(o).map_values(|e: (Seq<char>, NodeM)| e.0)
}

/// The arena kept its length, and every object but `o` its contents.
pub open spec fn same_objs_except(pre: Doc, post: Doc, o: int) -> bool {
    &&& post.num_objs() == pre.num_objs()
    &&& forall|x: int|
        0 <= x < pre.num_objs() && x != o ==> post.objs_m()[x] == pre.objs_m()[x]
}

/// The arena grew by one fresh object, and every old object but `o` kept its
/// contents.
pub open spec fn grows_one_except(pre: Doc, post: Doc, o: int) -> bool {
    &&& post.num_objs() == pre.num_objs() + 1
    &&& forall|x: int|
        0 <= x < pre.num_objs() && x != o ==> post.objs_m()[x] == pre.objs_m()[x]
}

/// Map object `o` now holds `n` at key `k`; every other key reads as before,
/// and the key order is kept, with `k` appended if it was absent.
pub open spec fn map_write(pre: Doc, post: Doc, o: int, k: Seq<char>, n: NodeM) -> bool {
    &&& post.objs_m()[o] is MapObj
    &&& post.slot(o, PropM::Key(k)) == Some(n)
    &&& forall|k2: Seq<char>|
        k2 != k ==> post.slot(o, PropM::Key(k2)) == pre.slot(o, PropM::Key(k2))
    &&& map_keys_of(post, o) == if pre.slot(o, PropM::Key(k)) is Some {
        map_keys_of(pre, o)
    } else {
        map_keys_of(pre, o).push(k)
    }
}

/// List object `o` had element `i` replaced by `n`.
pub open spec fn list_write(pre: Doc, post: Doc, o: int, i: int, n: NodeM) -> bool {
    &&& post.objs_m()[o] is ListObj
    &&& post.list_m(o) == pre.list_m(o).update(i, n)
}

/// List object `o` had `n` inserted at position `i`.
pub open spec fn list_insert(pre: Doc, post: Doc, o: int, i: int, n: NodeM) -> bool {
    &&& post.objs_m()[o] is ListObj
    &&& post.list_m(o) == pre.list_m(o).insert(i, n)
}

/// The exact error a write to slot `(o, p)` reports on a malformed address:
/// an unknown object, a property form that does not fit the object's kind, or
/// an index beyond a list.
pub open spec fn write_err(pre: Doc, o: int, p: PropM, e: DocError) -> bool {
    if !pre.is_obj(o) {
        e == DocError::MissingObject
    } else {
        match p {
            PropM::Key(_) => pre.kind_m(o) != ObjKind::MapObj && e == DocError::WrongKind,
            PropM::Index(i) => if pre.kind_m(o) == ObjKind::ListObj {
                !(0 <= i < pre.list_m(o).len()) && e == DocError::OutOfBounds
            } else {
                e == DocError::WrongKind
            },
        }
    }
}

// ---------------------------------------------------------------------------
// Lemmas about entry views
// ---------------------------------------------------------------------------

pub proof fn lemma_entries_m_update(es: Seq<(String, Node)>, i: int, e: (String, Node))
    requires
        0 <= i < es.len(),
    ensures
        entries_m(es.update(i, e)) =~= entries_m(es).update(i, (e.0@, e.1@)),
{
}

pub proof fn lemma_entries_m_push(es: Seq<(String, Node)>, e: (String, Node))
    ensures
        entries_m(es.push(e)) =~= entries_m(es).push((e.0@, e.1@)),
{
}

pub proof fn lemma_entries_m_remove(es: Seq<(String, Node)>, i: int)
    requires
        0 <= i < es.len(),
    ensures
        entries_m(es.remove(i)) =~= entries_m(es).remove(i),
{
}

pub proof fn lemma_nodes_m_update(ns: Seq<Node>, i: int, n: Node)
    requires
        0 <= i < ns.len(),
    ensures
        nodes_m(ns.update(i, n)) =~= nodes_m(ns).update(i, n@),
{
}

pub proof fn lemma_nodes_m_insert(ns: Seq<Node>, i: int, n: Node)
    requires
        0 <= i <= ns.len(),
    ensures
        nodes_m(ns.insert(i, n)) =~= nodes_m(ns).insert(i, n@),
{
    assert forall|j: int| 0 <= j < ns.len() + 1 implies nodes_m(ns.insert(i, n))[j] == nodes_m(
        ns,
    ).insert(i, n@)[j] by {
        assert(ns.insert(i, n)[j] == if j < i {
            ns[j]
        } else if j == i {
            n
        } else {
            ns[j - 1]
        });
    }
}

pub proof fn lemma_nodes_m_remove(ns: Seq<Node>, i: int)
    requires
        0 <= i < ns.len(),
    ensures
        nodes_m(ns.remove(i)) =~= nodes_m(ns).remove(i),
{
    assert forall|j: int| 0 <= j < ns.len() - 1 implies nodes_m(ns.remove(i))[j] == nodes_m(
        ns,
    ).remove(i)[j] by {
        assert(ns.remove(i)[j] == if j < i {
            ns[j]
        } else {
            ns[j + 1]
        });
    }
}

/// Replacing one object of a well-formed document with a well-formed object
/// keeps the document well formed.
pub proof fn lemma_wf_update_obj(pre: Doc, post: Doc, o: int)
    requires
        pre.wf(),
        0 <= o < pre.num_objs(),
        same_objs_except(pre, post, o),
        post.obj_wf(o),
        post.objs_m()[0] is MapObj,
    ensures
        post.wf(),
{
    assert forall|x: int| 0 <= x < post.num_objs() implies #[trigger] post.obj_wf(x) by {
        if x != o {
            assert(post.objs_m()[x] == pre.objs_m()[x]);
            assert(pre.obj_wf(x));
        }
    }
}

/// Appending a fresh empty object and rewriting object `o` keeps the
/// document well formed.
pub proof fn lemma_wf_grow_obj(pre: Doc, post: Doc, o: int, kind: ObjKind)
    requires
        pre.wf(),
        0 <= o < pre.num_objs(),
        grows_one_except(pre, post, o),
        post.objs_m()[pre.num_objs()] == empty_obj_m(kind),
        post.obj_wf(o),
        post.objs_m()[0] is MapObj,
    ensures
        post.wf(),
{
    assert forall|x: int| 0 <= x < post.num_objs() implies #[trigger] post.obj_wf(x) by {
        if x == pre.num_objs() {
            assert(post.objs_m()[x] == empty_obj_m(kind));
        } else if x != o {
            assert(post.objs_m()[x] == pre.objs_m()[x]);
            assert(pre.obj_wf(x));
        }
    }
}


// ---------------------------------------------------------------------------
// Lemmas for mutations
// ---------------------------------------------------------------------------

/// Replacing one arena entry rewrites exactly that object's view.
proof fn lemma_doc_update(pre: Doc, post: Doc, o: int, d: ObjData)
    requires
        0 <= o < pre.objs@.len(),
        post.objs@ == pre.objs@.update(o, d),
    ensures
        post.num_objs() == pre.num_objs(),
        post.objs_m()[o] == d@,
        forall|x: int| 0 <= x < pre.num_objs() && x != o ==> post.objs_m()[x] == pre.objs_m()[x],
{
    assert(post.objs_m() =~= pre.objs_m().update(o, d@));
}

/// Replacing one arena entry and appending a fresh object.
proof fn lemma_doc_grow(pre: Doc, post: Doc, o: int, d: ObjData, nd: ObjData)
    requires
        0 <= o < pre.objs@.len(),
        post.objs@ == pre.objs@.update(o, d).push(nd),
    ensures
        post.num_objs() == pre.num_objs() + 1,
        post.objs_m()[o] == d@,
        post.objs_m()[pre.num_objs()] == nd@,
        forall|x: int| 0 <= x < pre.num_objs() && x != o ==> post.objs_m()[x] == pre.objs_m()[x],
{
    assert(post.objs_m() =~= pre.objs_m().update(o, d@).push(nd@));
}

/// Appending to the operation log appends to its view.
proof fn lemma_log_push(pre: Doc, post: Doc, op: WriteOp)
    requires
        post.log@ == pre.log@.push(op),
    ensures
        post.log_m() == pre.log_m().push(op@),
{
    assert(post.log_m() =~= pre.log_m().push(op@));
}

/// Rewriting the node of an existing map entry: the written key reads the new
/// node, every other key is untouched, and the key order is kept.
proof fn lemma_map_set(pre: Doc, post: Doc, o: int, fi: int, n: NodeM)
    requires
        pre.wf(),
        0 <= o < pre.num_objs(),
        pre.objs_m()[o] is MapObj,
        0 <= fi < pre.map_m(o).len(),
        match n {
            NodeM::Scalar(_) => true,
            NodeM::Obj(t) => o < t < post.num_objs(),
        },
        post.num_objs() >= pre.num_objs(),
        post.objs_m()[o] == ObjM::MapObj(pre.map_m(o).update(fi, (pre.map_m(o)[fi].0, n))),
    ensures
        map_write(pre, post, o, pre.map_m(o)[fi].0, n),
        pre.slot(o, PropM::Key(pre.map_m(o)[fi].0)) is Some,
        post.obj_wf(o),
{
    let es = pre.map_m(o);
    let k = es[fi].0;
    let es2 = es.update(fi, (k, n));
    assert(pre.obj_wf(o));
    assert(entries_unique(es));
    lemma_lookup_found(es, fi);
    lemma_lookup_update(es, fi, n, k);
    assert(post.slot(o, PropM::Key(k)) == Some(n));
    assert forall|k2: Seq<char>| k2 != k implies post.slot(o, PropM::Key(k2)) == pre.slot(
        o,
        PropM::Key(k2),
    ) by {
        lemma_lookup_update(es, fi, n, k2);
    }
    assert(map_keys_of(post, o) =~= map_keys_of(pre, o));
    assert(entries_unique(es2));
    assert forall|i: int| 0 <= i < es2.len() implies post.node_wf(#[trigger] es2[i].1, o) by {
        if i != fi {
            assert(es2[i] == es[i]);
            assert(pre.node_wf(es[i].1, o));
        }
    }
}

/// Adding a fresh key to a map: the new key reads the new node, every other
/// key is untouched, and the key is appended to the key order.
proof fn lemma_map_add(pre: Doc, post: Doc, o: int, k: Seq<char>, n: NodeM)
    requires
        pre.wf(),
        0 <= o < pre.num_objs(),
        pre.objs_m()[o] is MapObj,
        forall|j: int| 0 <= j < pre.map_m(o).len() ==> (#[trigger] pre.map_m(o)[j].0) != k,
        match n {
            NodeM::Scalar(_) => true,
            NodeM::Obj(t) => o < t < post.num_objs(),
        },
        post.num_objs() >= pre.num_objs(),
        post.objs_m()[o] == ObjM::MapObj(pre.map_m(o).push((k, n))),
    ensures
        map_write(pre, post, o, k, n),
        pre.slot(o, PropM::Key(k)) is None,
        post.obj_wf(o),
{
    let es = pre.map_m(o);
    let es2 = es.push((k, n));
    assert(pre.obj_wf(o));
    lemma_lookup_not_found(es, k);
    lemma_lookup_push(es, k, n, k);
    assert forall|k2: Seq<char>| k2 != k implies post.slot(o, PropM::Key(k2)) == pre.slot(
        o,
        PropM::Key(k2),
    ) by {
        lemma_lookup_push(es, k, n, k2);
    }
    assert(map_keys_of(post, o) =~= map_keys_of(pre, o).push(k));
    assert forall|i: int, j: int| 0 <= i < j < es2.len() implies es2[i].0 != es2[j].0 by {
        if j < es.len() {
            assert(entries_unique(es));
        }
    }
    assert forall|i: int| 0 <= i < es2.len() implies post.node_wf(#[trigger] es2[i].1, o) by {
        if i < es.len() {
            assert(pre.node_wf(es[i].1, o));
        }
    }
}

/// Removing a map entry: the removed key reads as absent, every other key is
/// untouched, and the key is dropped from the key order.
proof fn lemma_map_del(pre: Doc, post: Doc, o: int, fi: int)
    requires
        pre.wf(),
        0 <= o < pre.num_objs(),
        pre.objs_m()[o] is MapObj,
        0 <= fi < pre.map_m(o).len(),
        post.num_objs() >= pre.num_objs(),
        post.objs_m()[o] == ObjM::MapObj(pre.map_m(o).remove(fi)),
    ensures
        post.slot(o, PropM::Key(pre.map_m(o)[fi].0)) is None,
        forall|k2: Seq<char>|
            k2 != pre.map_m(o)[fi].0 ==> post.slot(o, PropM::Key(k2)) == pre.slot(
                o,
                PropM::Key(k2),
            ),
        map_keys_of(post, o) == map_keys_of(pre, o).remove(fi),
        post.obj_wf(o),
{
    let es = pre.map_m(o);
    let k = es[fi].0;
    let es2 = es.remove(fi);
    assert(pre.obj_wf(o));
    assert(entries_unique(es));
    lemma_lookup_remove(es, fi, k);
    assert forall|k2: Seq<char>| k2 != k implies post.slot(o, PropM::Key(k2)) == pre.slot(
        o,
        PropM::Key(k2),
    ) by {
        lemma_lookup_remove(es, fi, k2);
    }
    assert(map_keys_of(post, o) =~= map_keys_of(pre, o).remove(fi));
    assert forall|i: int, j: int| 0 <= i < j < es2.len() implies es2[i].0 != es2[j].0 by {
        assert(es2[i] == if i < fi {
            es[i]
        } else {
            es[i + 1]
        });
        assert(es2[j] == if j < fi {
            es[j]
        } else {
            es[j + 1]
        });
    }
    assert forall|i: int| 0 <= i < es2.len() implies post.node_wf(#[trigger] es2[i].1, o) by {
        assert(es2[i] == if i < fi {
            es[i]
        } else {
            es[i + 1]
        });
        assert(pre.obj_wf(o));
    }
}

/// Rewriting one list element.
proof fn lemma_list_set(pre: Doc, post: Doc, o: int, i: int, n: NodeM)
    requires
        pre.wf(),
        0 <= o < pre.num_objs(),
        pre.objs_m()[o] is ListObj,
        0 <= i < pre.list_m(o).len(),
        match n {
            NodeM::Scalar(_) => true,
            NodeM::Obj(t) => o < t < post.num_objs(),
        },
        post.num_objs() >= pre.num_objs(),
        post.objs_m()[o] == ObjM::ListObj(pre.list_m(o).update(i, n)),
    ensures
        list_write(pre, post, o, i, n),
        post.obj_wf(o),
{
    let ns = pre.list_m(o);
    let ns2 = ns.update(i, n);
    assert(pre.obj_wf(o));
    assert forall|j: int| 0 <= j < ns2.len() implies post.node_wf(#[trigger] ns2[j], o) by {
        if j != i {
            assert(ns2[j] == ns[j]);
            assert(pre.node_wf(ns[j], o));
        }
    }
}

/// Inserting one list element.
proof fn lemma_list_ins(pre: Doc, post: Doc, o: int, i: int, n: NodeM)
    requires
        pre.wf(),
        0 <= o < pre.num_objs(),
        pre.objs_m()[o] is ListObj,
        0 <= i <= pre.list_m(o).len(),
        match n {
            NodeM::Scalar(_) => true,
            NodeM::Obj(t) => o < t < post.num_objs(),
        },
        post.num_objs() >= pre.num_objs(),
        post.objs_m()[o] == ObjM::ListObj(pre.list_m(o).insert(i, n)),
    ensures
        list_insert(pre, post, o, i, n),
        post.obj_wf(o),
{
    let ns = pre.list_m(o);
    let ns2 = ns.insert(i, n);
    assert(pre.obj_wf(o));
    assert forall|j: int| 0 <= j < ns2.len() implies post.node_wf(#[trigger] ns2[j], o) by {
        assert(ns2[j] == if j < i {
            ns[j]
        } else if j == i {
            n
        } else {
            ns[j - 1]
        });
    }
}

/// Removing one list element.
proof fn lemma_list_del(pre: Doc, post: Doc, o: int, i: int)
    requires
        pre.wf(),
        0 <= o < pre.num_objs(),
        pre.objs_m()[o] is ListObj,
        0 <= i < pre.list_m(o).len(),
        post.num_objs() >= pre.num_objs(),
        post.objs_m()[o] == ObjM::ListObj(pre.list_m(o).remove(i)),
    ensures
        post.objs_m()[o] is ListObj,
        post.list_m(o) == pre.list_m(o).remove(i),
        post.obj_wf(o),
{
    let ns = pre.list_m(o);
    let ns2 = ns.remove(i);
    assert(pre.obj_wf(o));
    assert forall|j: int| 0 <= j < ns2.len() implies post.node_wf(#[trigger] ns2[j], o) by {
        assert(ns2[j] == if j < i {
            ns[j]
        } else {
            ns[j + 1]
        });
    }
}

// ---------------------------------------------------------------------------
// Mutations
// ---------------------------------------------------------------------------

impl Doc {
    /// Write scalar `value` to slot `(obj, prop)`: overwrite a map entry in
    /// place or create it, or replace a list element. Writing a scalar equal
    /// to what the slot already holds changes nothing and logs nothing.
    #[verifier::loop_isolation(false)]
    pub fn put(&mut self, obj: usize, prop: &Prop, value: ScalarVal) -> (r: Result<(), DocError>)
        requires
            old(self).wf(),
        ensures
            final(self).wf(),
            final(self).heads_m() == old(self).heads_m(),
            match r {
                Ok(_) => old(self).is_obj(obj as int) && match prop@ {
                    PropM::Key(k) => {
                        &&& old(self).kind_m(obj as int) == ObjKind::MapObj
                        &&& if old(self).slot(obj as int, prop@) == Some(NodeM::Scalar(value@)) {
                            *final(self) == *old(self)
                        } else {
                            &&& same_objs_except(*old(self), *final(self), obj as int)
                            &&& map_write(*old(self), *final(self), obj as int, k, NodeM::Scalar(value@))
                            &&& final(self).log_m() == old(self).log_m().push(
                                WriteOpM::Put { obj: obj as int, prop: prop@, value: value@ },
                            )
                            &&& final(self).dirty_m()
                        }
                    },
                    PropM::Index(i) => {
                        &&& old(self).kind_m(obj as int) == ObjKind::ListObj
                        &&& 0 <= i < old(self).list_m(obj as int).len()
                        &&& if old(self).slot(obj as int, prop@) == Some(NodeM::Scalar(value@)) {
                            *final(self) == *old(self)
                        } else {
                            &&& same_objs_except(*old(self), *final(self), obj as int)
                            &&& list_write(*old(self), *final(self), obj as int, i, NodeM::Scalar(value@))
                            &&& final(self).log_m() == old(self).log_m().push(
                                WriteOpM::Put { obj: obj as int, prop: prop@, value: value@ },
                            )
                            &&& final(self).dirty_m()
                        }
                    },
                },
                Err(e) => *final(self) == *old(self) && write_err(*old(self), obj as int, prop@, e),
            },
    {
        if obj >= self.objs.len() {
            return Err(DocError::MissingObject);
        }
        proof {
            assert(self.objs_m()[obj as int] == self.objs@[obj as int]@);
        }
        match prop {
            Prop::Key(k) => {
                let ghost km = k@;
                let mut found: Option<usize> = None;
                match &self.objs[obj] {
                    ObjData::MapObj(es) => {
                        let mut i: usize = 0;
                        while i < es.len()
                            invariant
                                i <= es.len(),
                                match found {
                                    Some(fi) => fi < i && es@[fi as int].0@ == km && (forall|
                                        j: int,
                                    |
                                        0 <= j < i && j != fi ==> (#[trigger] es@[j].0)@ != km),
                                    None => forall|j: int|
                                        0 <= j < i ==> (#[trigger] es@[j].0)@ != km,
                                },
                            decreases es.len() - i,
                        {
                            proof {
                                if found is Some {
                                    let fi = found->0;
                                    let esm = entries_m(es@);
                                    assert(self.objs_m()[obj as int] == self.objs@[obj as int]@);
                                    assert(self.obj_wf(obj as int));
                                    assert(entries_unique(esm));
                                    assert(esm[i as int] == (es@[i as int].0@, es@[i as int].1@));
                                    assert(esm[fi as int] == (es@[fi as int].0@, es@[
                                        fi as int
                                    ].1@));
                                    assert(es@[i as int].0@ != km);
                                }
                            }
                            if found.is_none() && es[i].0 == *k {
                                found = Some(i);
                            }
                            i += 1;
                        }
                        if let Some(fi) = found {
                            let mut is_noop = false;
                            if let Node::Scalar(sv) = &es[fi].1 {
                                if scalar_eq(sv, &value) {
                                    is_noop = true;
                                }
                            }
                            proof {
                                let esm = entries_m(es@);
                                assert forall|j: int| 0 <= j < fi implies #[trigger] esm[j].0
                                    != esm[fi as int].0 by {
                                    assert(esm[j] == (es@[j].0@, es@[j].1@));
                                }
                                assert(esm[fi as int] == (es@[fi as int].0@, es@[fi as int].1@));
                                lemma_lookup_found(esm, fi as int);
                                assert(self.slot(obj as int, prop@) == Some(esm[fi as int].1));
                                if !is_noop {
                                    assert(es@[fi as int].1@ != NodeM::Scalar(value@));
                                }
                            }
                            if is_noop {
                                return Ok(());
                            }
                        } else {
                            proof {
                                let esm = entries_m(es@);
                                assert forall|j: int| 0 <= j < esm.len() implies #[trigger] esm[j].0
                                    != km by {
                                    assert(esm[j] == (es@[j].0@, es@[j].1@));
                                }
                                lemma_lookup_not_found(esm, km);
                                assert(self.slot(obj as int, prop@) is None);
                            }
                        }
                    },
                    _ => {
                        return Err(DocError::WrongKind);
                    },
                }
                // apply the write
                let ghost pre = *self;
                let logged = clone_scalar(&value);
                let op = WriteOp::Put { obj, prop: prop.clone_prop(), value: logged };
                let ghost opm = op@;
                let data = self.objs.remove(obj);
                let ghost vm = value@;
                match data {
                    ObjData::MapObj(mut es) => {
                        let ghost esm = entries_m(es@);
                        proof {
                            assert(pre.objs_m()[obj as int] == ObjM::MapObj(esm));
                            assert forall|j: int| 0 <= j < es@.len() implies #[trigger] esm[j] == (
                                es@[j].0@,
                                es@[j].1@,
                            ) by {}
                        }
                        let ghost fi_opt = found;
                        match found {
                            Some(fi) => {
                                let ghost es0 = es@;
                                let entry = es.remove(fi);
                                es.insert(fi, (entry.0, Node::Scalar(value)));
                                proof {
                                    assert(es@ =~= es0.update(
                                        fi as int,
                                        (entry.0, Node::Scalar(value)),
                                    ));
                                    lemma_entries_m_update(
                                        es0,
                                        fi as int,
                                        (entry.0, Node::Scalar(value)),
                                    );
                                    assert(entries_m(es@) == esm.update(
                                        fi as int,
                                        (esm[fi as int].0, NodeM::Scalar(vm)),
                                    ));
                                }
                            },
                            None => {
                                let ghost es0 = es@;
                                es.push((clone_string(k), Node::Scalar(value)));
                                proof {
                                    let last = es@[es0.len() as int];
                                    assert(es@ == es0.push(last));
                                    lemma_entries_m_push(es0, last);
                                    assert(entries_m(es@) == esm.push((km, NodeM::Scalar(vm))));
                                }
                            },
                        }
                        let ghost esm2 = entries_m(es@);
                        let data2 = ObjData::MapObj(es);
                        proof {
                            assert(data2@ == ObjM::MapObj(esm2));
                        }
                        self.objs.insert(obj, data2);
                        self.log.push(op);
                        self.dirty = true;
                        proof {
                            assert(self.objs@ =~= pre.objs@.update(obj as int, data2));
                            lemma_doc_update(pre, *self, obj as int, data2);
                            match fi_opt {
                                Some(fi) => {
                                    assert(esm[fi as int].0 == km);
                                    lemma_map_set(
                                        pre,
                                        *self,
                                        obj as int,
                                        fi as int,
                                        NodeM::Scalar(vm),
                                    );
                                },
                                None => {
                                    assert forall|j: int|
                                        0 <= j < pre.map_m(obj as int).len() implies (
                                    #[trigger] pre.map_m(obj as int)[j].0) != km by {
                                        assert(esm[j] == (pre.objs@[obj as int]@->MapObj_0[j]));
                                    }
                                    lemma_map_add(pre, *self, obj as int, km, NodeM::Scalar(vm));
                                },
                            }
                            lemma_wf_update_obj(pre, *self, obj as int);
                            lemma_log_push(pre, *self, op);
                            assert(opm == WriteOpM::Put { obj: obj as int, prop: prop@, value: vm });
                        }
                        Ok(())
                    },
                    _ => {
                        proof {
                            assert(false);
                        }
                        Err(DocError::WrongKind)
                    },
                }
            },
            Prop::Index(idx) => {
                let i = *idx as usize;
                match &self.objs[obj] {
                    ObjData::ListObj(ns) => {
                        if i >= ns.len() {
                            return Err(DocError::OutOfBounds);
                        }
                        let mut is_noop = false;
                        if let Node::Scalar(sv) = &ns[i] {
                            if scalar_eq(sv, &value) {
                                is_noop = true;
                            }
                        }
                        proof {
                            assert(self.list_m(obj as int)[i as int] == ns@[i as int]@);
                            if !is_noop {
                                assert(ns@[i as int]@ != NodeM::Scalar(value@));
                            }
                        }
                        if is_noop {
                            return Ok(());
                        }
                    },
                    _ => {
                        return Err(DocError::WrongKind);
                    },
                }
                let ghost pre = *self;
                let logged = clone_scalar(&value);
                let op = WriteOp::Put { obj, prop: prop.clone_prop(), value: logged };
                let ghost opm = op@;
                let data = self.objs.remove(obj);
                let ghost vm = value@;
                match data {
                    ObjData::ListObj(mut ns) => {
                        let ghost nsm = nodes_m(ns@);
                        proof {
                            assert(pre.objs_m()[obj as int] == ObjM::ListObj(nsm));
                        }
                        let ghost ns0 = ns@;
                        let _ = ns.remove(i);
                        ns.insert(i, Node::Scalar(value));
                        proof {
                            assert(ns@ =~= ns0.update(i as int, Node::Scalar(value)));
                            lemma_nodes_m_update(ns0, i as int, Node::Scalar(value));
                        }
                        let data2 = ObjData::ListObj(ns);
                        proof {
                            assert(data2@ == ObjM::ListObj(nsm.update(i as int, NodeM::Scalar(vm))));
                        }
                        self.objs.insert(obj, data2);
                        self.log.push(op);
                        self.dirty = true;
                        proof {
                            assert(self.objs@ =~= pre.objs@.update(obj as int, data2));
                            lemma_doc_update(pre, *self, obj as int, data2);
                            lemma_list_set(pre, *self, obj as int, i as int, NodeM::Scalar(vm));
                            lemma_wf_update_obj(pre, *self, obj as int);
                            lemma_log_push(pre, *self, op);
                            assert(opm == WriteOpM::Put { obj: obj as int, prop: prop@, value: vm });
                        }
                        Ok(())
                    },
                    _ => {
                        proof {
                            assert(false);
                        }
                        Err(DocError::OutOfBounds)
                    },
                }
            },
        }
    }
}


impl Doc {
    /// Create a fresh, empty object of `kind` at slot `(obj, prop)`,
    /// replacing whatever the slot held. The new object's id is returned.
    #[verifier::loop_isolation(false)]
    pub fn put_object(&mut self, obj: usize, prop: &Prop, kind: ObjKind) -> (r: Result<
        usize,
        DocError,
    >)
        requires
            old(self).wf(),
        ensures
            final(self).wf(),
            final(self).heads_m() == old(self).heads_m(),
            match r {
                Ok(nid) => {
                    &&& old(self).is_obj(obj as int)
                    &&& nid as int == old(self).num_objs()
                    &&& grows_one_except(*old(self), *final(self), obj as int)
                    &&& final(self).objs_m()[nid as int] == empty_obj_m(kind)
                    &&& match prop@ {
                        PropM::Key(k) => {
                            &&& old(self).kind_m(obj as int) == ObjKind::MapObj
                            &&& map_write(
                                *old(self),
                                *final(self),
                                obj as int,
                                k,
                                NodeM::Obj(nid as int),
                            )
                        },
                        PropM::Index(i) => {
                            &&& old(self).kind_m(obj as int) == ObjKind::ListObj
                            &&& 0 <= i < old(self).list_m(obj as int).len()
                            &&& list_write(
                                *old(self),
                                *final(self),
                                obj as int,
                                i,
                                NodeM::Obj(nid as int),
                            )
                        },
                    }
                    &&& final(self).log_m() == old(self).log_m().push(
                        WriteOpM::PutObject {
                            obj: obj as int,
                            prop: prop@,
                            kind,
                            new_id: nid as int,
                        },
                    )
                    &&& final(self).dirty_m()
                },
                Err(e) => *final(self) == *old(self) && write_err(
                    *old(self),
                    obj as int,
                    prop@,
                    e,
                ),
            },
    {
        if obj >= self.objs.len() {
            return Err(DocError::MissingObject);
        }
        proof {
            assert(self.objs_m()[obj as int] == self.objs@[obj as int]@);
        }
        let new_id = self.objs.len();
        let fresh = match kind {
            ObjKind::MapObj => {
                let v: Vec<(String, Node)> = Vec::new();
                proof {
                    assert(entries_m(v@) =~= Seq::<(Seq<char>, NodeM)>::empty());
                }
                ObjData::MapObj(v)
            },
            ObjKind::ListObj => {
                let v: Vec<Node> = Vec::new();
                proof {
                    assert(nodes_m(v@) =~= Seq::<NodeM>::empty());
                }
                ObjData::ListObj(v)
            },
            ObjKind::TextObj => {
                let v: Vec<char> = Vec::new();
                ObjData::TextObj(v)
            },
        };
        proof {
            assert(fresh@ == empty_obj_m(kind));
        }
        match prop {
            Prop::Key(k) => {
                let ghost km = k@;
                let mut found: Option<usize> = None;
                match &self.objs[obj] {
                    ObjData::MapObj(es) => {
                        let mut i: usize = 0;
                        while i < es.len()
                            invariant
                                i <= es.len(),
                                match found {
                                    Some(fi) => fi < i && es@[fi as int].0@ == km && (forall|
                                        j: int,
                                    |
                                        0 <= j < i && j != fi ==> (#[trigger] es@[j].0)@ != km),
                                    None => forall|j: int|
                                        0 <= j < i ==> (#[trigger] es@[j].0)@ != km,
                                },
                            decreases es.len() - i,
                        {
                            proof {
                                if found is Some {
                                    let fi = found->0;
                                    let esm = entries_m(es@);
                                    assert(self.objs_m()[obj as int] == self.objs@[obj as int]@);
                                    assert(self.obj_wf(obj as int));
                                    assert(entries_unique(esm));
                                    assert(esm[i as int] == (es@[i as int].0@, es@[i as int].1@));
                                    assert(esm[fi as int] == (es@[fi as int].0@, es@[
                                        fi as int
                                    ].1@));
                                    assert(es@[i as int].0@ != km);
                                }
                            }
                            if found.is_none() && es[i].0 == *k {
                                found = Some(i);
                            }
                            i += 1;
                        }
                    },
                    _ => {
                        return Err(DocError::WrongKind);
                    },
                }
                let ghost pre = *self;
                let op = WriteOp::PutObject { obj, prop: prop.clone_prop(), kind, new_id };
                let data = self.objs.remove(obj);
                match data {
                    ObjData::MapObj(mut es) => {
                        let ghost esm = entries_m(es@);
                        proof {
                            assert(pre.objs_m()[obj as int] == ObjM::MapObj(esm));
                            assert forall|j: int| 0 <= j < es@.len() implies #[trigger] esm[j] == (
                                es@[j].0@,
                                es@[j].1@,
                            ) by {}
                        }
                        let ghost fi_opt = found;
                        match found {
                            Some(fi) => {
                                let ghost es0 = es@;
                                let entry = es.remove(fi);
                                es.insert(fi, (entry.0, Node::Obj(new_id)));
                                proof {
                                    assert(es@ =~= es0.update(
                                        fi as int,
                                        (entry.0, Node::Obj(new_id)),
                                    ));
                                    lemma_entries_m_update(
                                        es0,
                                        fi as int,
                                        (entry.0, Node::Obj(new_id)),
                                    );
                                    assert(entries_m(es@) == esm.update(
                                        fi as int,
                                        (esm[fi as int].0, NodeM::Obj(new_id as int)),
                                    ));
                                }
                            },
                            None => {
                                let ghost es0 = es@;
                                es.push((clone_string(k), Node::Obj(new_id)));
                                proof {
                                    let last = es@[es0.len() as int];
                                    assert(es@ == es0.push(last));
                                    lemma_entries_m_push(es0, last);
                                    assert(entries_m(es@) == esm.push(
                                        (km, NodeM::Obj(new_id as int)),
                                    ));
                                }
                            },
                        }
                        let ghost esm2 = entries_m(es@);
                        let data2 = ObjData::MapObj(es);
                        proof {
                            assert(data2@ == ObjM::MapObj(esm2));
                        }
                        self.objs.insert(obj, data2);
                        self.objs.push(fresh);
                        self.log.push(op);
                        self.dirty = true;
                        proof {
                            assert(self.objs@ =~= pre.objs@.update(obj as int, data2).push(fresh));
                            lemma_doc_grow(pre, *self, obj as int, data2, fresh);
                            match fi_opt {
                                Some(fi) => {
                                    assert(esm[fi as int].0 == km);
                                    lemma_map_set(
                                        pre,
                                        *self,
                                        obj as int,
                                        fi as int,
                                        NodeM::Obj(new_id as int),
                                    );
                                },
                                None => {
                                    assert forall|j: int|
                                        0 <= j < pre.map_m(obj as int).len() implies (
                                    #[trigger] pre.map_m(obj as int)[j].0) != km by {}
                                    lemma_map_add(
                                        pre,
                                        *self,
                                        obj as int,
                                        km,
                                        NodeM::Obj(new_id as int),
                                    );
                                },
                            }
                            lemma_wf_grow_obj(pre, *self, obj as int, kind);
                            lemma_log_push(pre, *self, op);
                        }
                        Ok(new_id)
                    },
                    _ => {
                        proof {
                            assert(false);
                        }
                        Err(DocError::WrongKind)
                    },
                }
            },
            Prop::Index(idx) => {
                let i = *idx as usize;
                match &self.objs[obj] {
                    ObjData::ListObj(ns) => {
                        if i >= ns.len() {
                            return Err(DocError::OutOfBounds);
                        }
                    },
                    _ => {
                        return Err(DocError::WrongKind);
                    },
                }
                let ghost pre = *self;
                let op = WriteOp::PutObject { obj, prop: prop.clone_prop(), kind, new_id };
                let data = self.objs.remove(obj);
                match data {
                    ObjData::ListObj(mut ns) => {
                        let ghost nsm = nodes_m(ns@);
                        proof {
                            assert(pre.objs_m()[obj as int] == ObjM::ListObj(nsm));
                        }
                        let ghost ns0 = ns@;
                        let _ = ns.remove(i);
                        ns.insert(i, Node::Obj(new_id));
                        proof {
                            assert(ns@ =~= ns0.update(i as int, Node::Obj(new_id)));
                            lemma_nodes_m_update(ns0, i as int, Node::Obj(new_id));
                        }
                        let data2 = ObjData::ListObj(ns);
                        proof {
                            assert(data2@ == ObjM::ListObj(
                                nsm.update(i as int, NodeM::Obj(new_id as int)),
                            ));
                        }
                        self.objs.insert(obj, data2);
                        self.objs.push(fresh);
                        self.log.push(op);
                        self.dirty = true;
                        proof {
                            assert(self.objs@ =~= pre.objs@.update(obj as int, data2).push(fresh));
                            lemma_doc_grow(pre, *self, obj as int, data2, fresh);
                            lemma_list_set(pre, *self, obj as int, i as int, NodeM::Obj(
                                new_id as int,
                            ));
                            lemma_wf_grow_obj(pre, *self, obj as int, kind);
                            lemma_log_push(pre, *self, op);
                        }
                        Ok(new_id)
                    },
                    _ => {
                        proof {
                            assert(false);
                        }
                        Err(DocError::OutOfBounds)
                    },
                }
            },
        }
    }

    /// Insert scalar `value` at position `index` of list object `obj`,
    /// shifting later elements up. `index` may equal the current length.
    pub fn insert(&mut self, obj: usize, index: usize, value: ScalarVal) -> (r: Result<
        (),
        DocError,
    >)
        requires
            old(self).wf(),
        ensures
            final(self).wf(),
            final(self).heads_m() == old(self).heads_m(),
            match r {
                Ok(_) => {
                    &&& old(self).is_obj(obj as int)
                    &&& old(self).kind_m(obj as int) == ObjKind::ListObj
                    &&& 0 <= index as int <= old(self).list_m(obj as int).len()
                    &&& same_objs_except(*old(self), *final(self), obj as int)
                    &&& list_insert(
                        *old(self),
                        *final(self),
                        obj as int,
                        index as int,
                        NodeM::Scalar(value@),
                    )
                    &&& final(self).log_m() == old(self).log_m().push(
                        WriteOpM::Insert { obj: obj as int, index: index as int, value: value@ },
                    )
                    &&& final(self).dirty_m()
                },
                Err(e) => *final(self) == *old(self) && if !old(self).is_obj(obj as int) {
                    e == DocError::MissingObject
                } else if old(self).kind_m(obj as int) != ObjKind::ListObj {
                    e == DocError::WrongKind
                } else {
                    index as int > old(self).list_m(obj as int).len() && e == DocError::OutOfBounds
                },
            },
    {
        if obj >= self.objs.len() {
            return Err(DocError::MissingObject);
        }
        proof {
            assert(self.objs_m()[obj as int] == self.objs@[obj as int]@);
        }
        match &self.objs[obj] {
            ObjData::ListObj(ns) => {
                if index > ns.len() {
                    return Err(DocError::OutOfBounds);
                }
            },
            _ => {
                return Err(DocError::WrongKind);
            },
        }
        let ghost pre = *self;
        let logged = clone_scalar(&value);
        let op = WriteOp::Insert { obj, index, value: logged };
        let data = self.objs.remove(obj);
        let ghost vm = value@;
        match data {
            ObjData::ListObj(mut ns) => {
                let ghost nsm = nodes_m(ns@);
                proof {
                    assert(pre.objs_m()[obj as int] == ObjM::ListObj(nsm));
                }
                let ghost ns0 = ns@;
                ns.insert(index, Node::Scalar(value));
                proof {
                    lemma_nodes_m_insert(ns0, index as int, Node::Scalar(value));
                }
                let data2 = ObjData::ListObj(ns);
                proof {
                    assert(data2@ == ObjM::ListObj(nsm.insert(index as int, NodeM::Scalar(vm))));
                }
                self.objs.insert(obj, data2);
                self.log.push(op);
                self.dirty = true;
                proof {
                    assert(self.objs@ =~= pre.objs@.update(obj as int, data2));
                    lemma_doc_update(pre, *self, obj as int, data2);
                    lemma_list_ins(pre, *self, obj as int, index as int, NodeM::Scalar(vm));
                    lemma_wf_update_obj(pre, *self, obj as int);
                    lemma_log_push(pre, *self, op);
                }
                Ok(())
            },
            _ => {
                proof {
                    assert(false);
                }
                Err(DocError::OutOfBounds)
            },
        }
    }

    /// Create a fresh, empty object of `kind` at position `index` of list
    /// object `obj`, shifting later elements up. The new id is returned.
    pub fn insert_object(&mut self, obj: usize, index: usize, kind: ObjKind) -> (r: Result<
        usize,
        DocError,
    >)
        requires
            old(self).wf(),
        ensures
            final(self).wf(),
            final(self).heads_m() == old(self).heads_m(),
            match r {
                Ok(nid) => {
                    &&& old(self).is_obj(obj as int)
                    &&& old(self).kind_m(obj as int) == ObjKind::ListObj
                    &&& 0 <= index as int <= old(self).list_m(obj as int).len()
                    &&& nid as int == old(self).num_objs()
                    &&& grows_one_except(*old(self), *final(self), obj as int)
                    &&& final(self).objs_m()[nid as int] == empty_obj_m(kind)
                    &&& list_insert(
                        *old(self),
                        *final(self),
                        obj as int,
                        index as int,
                        NodeM::Obj(nid as int),
                    )
                    &&& final(self).log_m() == old(self).log_m().push(
                        WriteOpM::InsertObject {
                            obj: obj as int,
                            index: index as int,
                            kind,
                            new_id: nid as int,
                        },
                    )
                    &&& final(self).dirty_m()
                },
                Err(e) => *final(self) == *old(self) && if !old(self).is_obj(obj as int) {
                    e == DocError::MissingObject
                } else if old(self).kind_m(obj as int) != ObjKind::ListObj {
                    e == DocError::WrongKind
                } else {
                    index as int > old(self).list_m(obj as int).len() && e == DocError::OutOfBounds
                },
            },
    {
        if obj >= self.objs.len() {
            return Err(DocError::MissingObject);
        }
        proof {
            assert(self.objs_m()[obj as int] == self.objs@[obj as int]@);
        }
        match &self.objs[obj] {
            ObjData::ListObj(ns) => {
                if index > ns.len() {
                    return Err(DocError::OutOfBounds);
                }
            },
            _ => {
                return Err(DocError::WrongKind);
            },
        }
        let new_id = self.objs.len();
        let fresh = match kind {
            ObjKind::MapObj => {
                let v: Vec<(String, Node)> = Vec::new();
                proof {
                    assert(entries_m(v@) =~= Seq::<(Seq<char>, NodeM)>::empty());
                }
                ObjData::MapObj(v)
            },
            ObjKind::ListObj => {
                let v: Vec<Node> = Vec::new();
                proof {
                    assert(nodes_m(v@) =~= Seq::<NodeM>::empty());
                }
                ObjData::ListObj(v)
            },
            ObjKind::TextObj => {
                let v: Vec<char> = Vec::new();
                ObjData::TextObj(v)
            },
        };
        proof {
            assert(fresh@ == empty_obj_m(kind));
        }
        let ghost pre = *self;
        let op = WriteOp::InsertObject { obj, index, kind, new_id };
        let data = self.objs.remove(obj);
        match data {
            ObjData::ListObj(mut ns) => {
                let ghost nsm = nodes_m(ns@);
                proof {
                    assert(pre.objs_m()[obj as int] == ObjM::ListObj(nsm));
                }
                let ghost ns0 = ns@;
                ns.insert(index, Node::Obj(new_id));
                proof {
                    lemma_nodes_m_insert(ns0, index as int, Node::Obj(new_id));
                }
                let data2 = ObjData::ListObj(ns);
                proof {
                    assert(data2@ == ObjM::ListObj(
                        nsm.insert(index as int, NodeM::Obj(new_id as int)),
                    ));
                }
                self.objs.insert(obj, data2);
                self.objs.push(fresh);
                self.log.push(op);
                self.dirty = true;
                proof {
                    assert(self.objs@ =~= pre.objs@.update(obj as int, data2).push(fresh));
                    lemma_doc_grow(pre, *self, obj as int, data2, fresh);
                    lemma_list_ins(pre, *self, obj as int, index as int, NodeM::Obj(new_id as int));
                    lemma_wf_grow_obj(pre, *self, obj as int, kind);
                    lemma_log_push(pre, *self, op);
                }
                Ok(new_id)
            },
            _ => {
                proof {
                    assert(false);
                }
                Err(DocError::OutOfBounds)
            },
        }
    }

    /// Delete the slot `(obj, prop)`: drop a map entry, or remove a list
    /// element and shift later elements down. Deleting an absent map key
    /// changes nothing and logs nothing.
    #[verifier::loop_isolation(false)]
    pub fn delete(&mut self, obj: usize, prop: &Prop) -> (r: Result<(), DocError>)
        requires
            old(self).wf(),
        ensures
            final(self).wf(),
            final(self).heads_m() == old(self).heads_m(),
            match r {
                Ok(_) => old(self).is_obj(obj as int) && match prop@ {
                    PropM::Key(k) => {
                        &&& old(self).kind_m(obj as int) == ObjKind::MapObj
                        &&& if old(self).slot(obj as int, prop@) is None {
                            *final(self) == *old(self)
                        } else {
                            &&& same_objs_except(*old(self), *final(self), obj as int)
                            &&& final(self).objs_m()[obj as int] is MapObj
                            &&& final(self).slot(obj as int, prop@) is None
                            &&& forall|k2: Seq<char>|
                                k2 != k ==> final(self).slot(obj as int, PropM::Key(k2)) == old(
                                    self,
                                ).slot(obj as int, PropM::Key(k2))
                            &&& final(self).map_m(obj as int).len() == old(self).map_m(
                                obj as int,
                            ).len() - 1
                            &&& final(self).log_m() == old(self).log_m().push(
                                WriteOpM::Delete { obj: obj as int, prop: prop@ },
                            )
                            &&& final(self).dirty_m()
                        }
                    },
                    PropM::Index(i) => {
                        &&& old(self).kind_m(obj as int) == ObjKind::ListObj
                        &&& 0 <= i < old(self).list_m(obj as int).len()
                        &&& same_objs_except(*old(self), *final(self), obj as int)
                        &&& final(self).objs_m()[obj as int] is ListObj
                        &&& final(self).list_m(obj as int) == old(self).list_m(obj as int).remove(i)
                        &&& final(self).log_m() == old(self).log_m().push(
                            WriteOpM::Delete { obj: obj as int, prop: prop@ },
                        )
                        &&& final(self).dirty_m()
                    },
                },
                Err(e) => *final(self) == *old(self) && write_err(*old(self), obj as int, prop@, e),
            },
    {
        if obj >= self.objs.len() {
            return Err(DocError::MissingObject);
        }
        proof {
            assert(self.objs_m()[obj as int] == self.objs@[obj as int]@);
        }
        match prop {
            Prop::Key(k) => {
                let ghost km = k@;
                let mut found: Option<usize> = None;
                match &self.objs[obj] {
                    ObjData::MapObj(es) => {
                        let mut i: usize = 0;
                        while i < es.len()
                            invariant
                                i <= es.len(),
                                match found {
                                    Some(fi) => fi < i && es@[fi as int].0@ == km && (forall|
                                        j: int,
                                    |
                                        0 <= j < i && j != fi ==> (#[trigger] es@[j].0)@ != km),
                                    None => forall|j: int|
                                        0 <= j < i ==> (#[trigger] es@[j].0)@ != km,
                                },
                            decreases es.len() - i,
                        {
                            proof {
                                if found is Some {
                                    let fi = found->0;
                                    let esm = entries_m(es@);
                                    assert(self.objs_m()[obj as int] == self.objs@[obj as int]@);
                                    assert(self.obj_wf(obj as int));
                                    assert(entries_unique(esm));
                                    assert(esm[i as int] == (es@[i as int].0@, es@[i as int].1@));
                                    assert(esm[fi as int] == (es@[fi as int].0@, es@[
                                        fi as int
                                    ].1@));
                                    assert(es@[i as int].0@ != km);
                                }
                            }
                            if found.is_none() && es[i].0 == *k {
                                found = Some(i);
                            }
                            i += 1;
                        }
                        proof {
                            let esm = entries_m(es@);
                            assert forall|j: int| 0 <= j < esm.len() implies #[trigger] esm[j] == (
                                es@[j].0@,
                                es@[j].1@,
                            ) by {}
                            if found is Some {
                                let fi = found->0;
                                assert forall|j: int| 0 <= j < fi implies #[trigger] esm[j].0
                                    != esm[fi as int].0 by {}
                                lemma_lookup_found(esm, fi as int);
                            } else {
                                lemma_lookup_not_found(esm, km);
                            }
                        }
                    },
                    _ => {
                        return Err(DocError::WrongKind);
                    },
                }
                let fi = match found {
                    Some(fi) => fi,
                    None => {
                        return Ok(());
                    },
                };
                let ghost pre = *self;
                let op = WriteOp::Delete { obj, prop: prop.clone_prop() };
                let data = self.objs.remove(obj);
                match data {
                    ObjData::MapObj(mut es) => {
                        let ghost esm = entries_m(es@);
                        proof {
                            assert(pre.objs_m()[obj as int] == ObjM::MapObj(esm));
                            assert forall|j: int| 0 <= j < es@.len() implies #[trigger] esm[j] == (
                                es@[j].0@,
                                es@[j].1@,
                            ) by {}
                        }
                        let ghost es0 = es@;
                        let _ = es.remove(fi);
                        proof {
                            lemma_entries_m_remove(es0, fi as int);
                        }
                        let data2 = ObjData::MapObj(es);
                        proof {
                            assert(data2@ == ObjM::MapObj(esm.remove(fi as int)));
                        }
                        self.objs.insert(obj, data2);
                        self.log.push(op);
                        self.dirty = true;
                        proof {
                            assert(self.objs@ =~= pre.objs@.update(obj as int, data2));
                            lemma_doc_update(pre, *self, obj as int, data2);
                            assert(esm[fi as int].0 == km);
                            lemma_map_del(pre, *self, obj as int, fi as int);
                            lemma_wf_update_obj(pre, *self, obj as int);
                            lemma_log_push(pre, *self, op);
                        }
                        Ok(())
                    },
                    _ => {
                        proof {
                            assert(false);
                        }
                        Err(DocError::WrongKind)
                    },
                }
            },
            Prop::Index(idx) => {
                let i = *idx as usize;
                match &self.objs[obj] {
                    ObjData::ListObj(ns) => {
                        if i >= ns.len() {
                            return Err(DocError::OutOfBounds);
                        }
                    },
                    _ => {
                        return Err(DocError::WrongKind);
                    },
                }
                let ghost pre = *self;
                let op = WriteOp::Delete { obj, prop: prop.clone_prop() };
                let data = self.objs.remove(obj);
                match data {
                    ObjData::ListObj(mut ns) => {
                        let ghost nsm = nodes_m(ns@);
                        proof {
                            assert(pre.objs_m()[obj as int] == ObjM::ListObj(nsm));
                        }
                        let ghost ns0 = ns@;
                        let _ = ns.remove(i);
                        proof {
                            lemma_nodes_m_remove(ns0, i as int);
                        }
                        let data2 = ObjData::ListObj(ns);
                        proof {
                            assert(data2@ == ObjM::ListObj(nsm.remove(i as int)));
                        }
                        self.objs.insert(obj, data2);
                        self.log.push(op);
                        self.dirty = true;
                        proof {
                            assert(self.objs@ =~= pre.objs@.update(obj as int, data2));
                            lemma_doc_update(pre, *self, obj as int, data2);
                            lemma_list_del(pre, *self, obj as int, i as int);
                            lemma_wf_update_obj(pre, *self, obj as int);
                            lemma_log_push(pre, *self, op);
                        }
                        Ok(())
                    },
                    _ => {
                        proof {
                            assert(false);
                        }
                        Err(DocError::OutOfBounds)
                    },
                }
            },
        }
    }
}


/// Well-formedness transfers between documents with the same arena contents.
pub proof fn lemma_wf_transfer(a: Doc, b: Doc)
    requires
        b.objs_m() == a.objs_m(),
        a.wf(),
    ensures
        b.wf(),
{
    assert(b.num_objs() == a.num_objs());
    assert forall|o: int| 0 <= o < b.num_objs() implies #[trigger] b.obj_wf(o) by {
        assert(a.obj_wf(o));
        assert(b.objs_m()[o] == a.objs_m()[o]);
        match a.objs_m()[o] {
            ObjM::MapObj(es) => {
                assert forall|i: int| 0 <= i < es.len() implies b.node_wf(
                    #[trigger] es[i].1,
                    o,
                ) by {
                    assert(a.node_wf(es[i].1, o));
                }
            },
            ObjM::ListObj(ns) => {
                assert forall|i: int| 0 <= i < ns.len() implies b.node_wf(#[trigger] ns[i], o) by {
                    assert(a.node_wf(ns[i], o));
                }
            },
            ObjM::TextObj(_) => {},
        }
    }
}

/// The snapshot token after a commit of pending mutations.
pub open spec fn next_heads(h: u64) -> u64 {
    if h < u64::MAX {
        (h + 1) as u64
    } else {
        0
    }
}

impl Doc {
    /// Add `by` to the counter held at slot `(obj, prop)`. The slot must
    /// already hold a counter; anything else is an error, as is leaving the
    /// representable range.
    #[verifier::loop_isolation(false)]
    pub fn increment(&mut self, obj: usize, prop: &Prop, by: i64) -> (r: Result<(), DocError>)
        requires
            old(self).wf(),
        ensures
            final(self).wf(),
            final(self).heads_m() == old(self).heads_m(),
            match r {
                Ok(_) => old(self).is_obj(obj as int) && match old(self).slot(obj as int, prop@) {
                    Some(NodeM::Scalar(ScalarM::Counter(c))) => {
                        &&& i64::MIN <= c + by <= i64::MAX
                        &&& same_objs_except(*old(self), *final(self), obj as int)
                        &&& match prop@ {
                            PropM::Key(k) => map_write(
                                *old(self),
                                *final(self),
                                obj as int,
                                k,
                                NodeM::Scalar(ScalarM::Counter((c + by) as i64)),
                            ),
                            PropM::Index(i) => list_write(
                                *old(self),
                                *final(self),
                                obj as int,
                                i,
                                NodeM::Scalar(ScalarM::Counter((c + by) as i64)),
                            ),
                        }
                        &&& final(self).log_m() == old(self).log_m().push(
                            WriteOpM::Increment { obj: obj as int, prop: prop@, by },
                        )
                        &&& final(self).dirty_m()
                    },
                    _ => false,
                },
                Err(e) => *final(self) == *old(self) && if !old(self).is_obj(obj as int) {
                    e == DocError::MissingObject
                } else {
                    match old(self).slot(obj as int, prop@) {
                        Some(NodeM::Scalar(ScalarM::Counter(c))) => !(i64::MIN <= c + by
                            <= i64::MAX) && e == DocError::Overflow,
                        _ => e == DocError::WrongKind || e == DocError::OutOfBounds,
                    }
                },
            },
    {
        if obj >= self.objs.len() {
            return Err(DocError::MissingObject);
        }
        let cur = match self.get(obj, prop) {
            Ok(Some(Node::Scalar(ScalarVal::Counter(c)))) => c,
            Ok(_) => {
                return Err(DocError::WrongKind);
            },
            Err(e) => {
                return Err(e);
            },
        };
        let next = match cur.checked_add(by) {
            Some(n) => n,
            None => {
                return Err(DocError::Overflow);
            },
        };
        let ghost pre = *self;
        proof {
            assert(pre.slot(obj as int, prop@) == Some(
                NodeM::Scalar(ScalarM::Counter(cur)),
            ));
        }
        match prop {
            Prop::Key(k) => {
                let ghost km = k@;
                let mut found: Option<usize> = None;
                match &self.objs[obj] {
                    ObjData::MapObj(es) => {
                        let mut i: usize = 0;
                        while i < es.len()
                            invariant
                                i <= es.len(),
                                match found {
                                    Some(fi) => fi < i && es@[fi as int].0@ == km && (forall|
                                        j: int,
                                    |
                                        0 <= j < i && j != fi ==> (#[trigger] es@[j].0)@ != km),
                                    None => forall|j: int|
                                        0 <= j < i ==> (#[trigger] es@[j].0)@ != km,
                                },
                            decreases es.len() - i,
                        {
                            proof {
                                if found is Some {
                                    let fi = found->0;
                                    let esm = entries_m(es@);
                                    assert(self.objs_m()[obj as int] == self.objs@[obj as int]@);
                                    assert(self.obj_wf(obj as int));
                                    assert(entries_unique(esm));
                                    assert(esm[i as int] == (es@[i as int].0@, es@[i as int].1@));
                                    assert(esm[fi as int] == (es@[fi as int].0@, es@[
                                        fi as int
                                    ].1@));
                                    assert(es@[i as int].0@ != km);
                                }
                            }
                            if found.is_none() && es[i].0 == *k {
                                found = Some(i);
                            }
                            i += 1;
                        }
                        proof {
                            let esm = entries_m(es@);
                            assert forall|j: int| 0 <= j < esm.len() implies #[trigger] esm[j] == (
                                es@[j].0@,
                                es@[j].1@,
                            ) by {}
                            if found is None {
                                lemma_lookup_not_found(esm, km);
                                assert(false);
                            }
                        }
                    },
                    _ => {
                        proof {
                            assert(self.objs_m()[obj as int] == self.objs@[obj as int]@);
                            assert(false);
                        }
                        return Err(DocError::WrongKind);
                    },
                }
                let fi = match found {
                    Some(fi) => fi,
                    None => {
                        proof {
                            assert(false);
                        }
                        return Err(DocError::WrongKind);
                    },
                };
                let op = WriteOp::Increment { obj, prop: prop.clone_prop(), by };
                let data = self.objs.remove(obj);
                match data {
                    ObjData::MapObj(mut es) => {
                        let ghost esm = entries_m(es@);
                        proof {
                            assert(pre.objs_m()[obj as int] == ObjM::MapObj(esm));
                            assert forall|j: int| 0 <= j < es@.len() implies #[trigger] esm[j] == (
                                es@[j].0@,
                                es@[j].1@,
                            ) by {}
                        }
                        let ghost es0 = es@;
                        let entry = es.remove(fi);
                        es.insert(fi, (entry.0, Node::Scalar(ScalarVal::Counter(next))));
                        proof {
                            assert(es@ =~= es0.update(
                                fi as int,
                                (entry.0, Node::Scalar(ScalarVal::Counter(next))),
                            ));
                            lemma_entries_m_update(
                                es0,
                                fi as int,
                                (entry.0, Node::Scalar(ScalarVal::Counter(next))),
                            );
                        }
                        let data2 = ObjData::MapObj(es);
                        self.objs.insert(obj, data2);
                        self.log.push(op);
                        self.dirty = true;
                        proof {
                            assert(self.objs@ =~= pre.objs@.update(obj as int, data2));
                            lemma_doc_update(pre, *self, obj as int, data2);
                            assert(esm[fi as int].0 == km);
                            lemma_map_set(
                                pre,
                                *self,
                                obj as int,
                                fi as int,
                                NodeM::Scalar(ScalarM::Counter(next)),
                            );
                            lemma_wf_update_obj(pre, *self, obj as int);
                            lemma_log_push(pre, *self, op);
                            lemma_lookup_found(esm, fi as int);
                            assert(esm[fi as int].1 == NodeM::Scalar(ScalarM::Counter(cur)));
                        }
                        Ok(())
                    },
                    _ => {
                        proof {
                            assert(false);
                        }
                        Err(DocError::WrongKind)
                    },
                }
            },
            Prop::Index(idx) => {
                let i = *idx as usize;
                match &self.objs[obj] {
                    ObjData::ListObj(ns) => {
                        if i >= ns.len() {
                            proof {
                                assert(self.objs_m()[obj as int] == self.objs@[obj as int]@);
                                assert(false);
                            }
                            return Err(DocError::OutOfBounds);
                        }
                    },
                    _ => {
                        proof {
                            assert(self.objs_m()[obj as int] == self.objs@[obj as int]@);
                            assert(false);
                        }
                        return Err(DocError::WrongKind);
                    },
                }
                let op = WriteOp::Increment { obj, prop: prop.clone_prop(), by };
                let data = self.objs.remove(obj);
                match data {
                    ObjData::ListObj(mut ns) => {
                        let ghost nsm = nodes_m(ns@);
                        proof {
                            assert(pre.objs_m()[obj as int] == ObjM::ListObj(nsm));
                        }
                        let ghost ns0 = ns@;
                        let _ = ns.remove(i);
                        ns.insert(i, Node::Scalar(ScalarVal::Counter(next)));
                        proof {
                            assert(ns@ =~= ns0.update(
                                i as int,
                                Node::Scalar(ScalarVal::Counter(next)),
                            ));
                            lemma_nodes_m_update(
                                ns0,
                                i as int,
                                Node::Scalar(ScalarVal::Counter(next)),
                            );
                        }
                        let data2 = ObjData::ListObj(ns);
                        self.objs.insert(obj, data2);
                        self.log.push(op);
                        self.dirty = true;
                        proof {
                            assert(self.objs@ =~= pre.objs@.update(obj as int, data2));
                            lemma_doc_update(pre, *self, obj as int, data2);
                            lemma_list_set(
                                pre,
                                *self,
                                obj as int,
                                i as int,
                                NodeM::Scalar(ScalarM::Counter(next)),
                            );
                            lemma_wf_update_obj(pre, *self, obj as int);
                            lemma_log_push(pre, *self, op);
                        }
                        Ok(())
                    },
                    _ => {
                        proof {
                            assert(false);
                        }
                        Err(DocError::WrongKind)
                    },
                }
            },
        }
    }

    /// Splice text object `obj`: delete `del` characters at `pos` and insert
    /// `ins` there. A splice that deletes and inserts nothing changes nothing
    /// and logs nothing.
    #[verifier::loop_isolation(false)]
    pub fn splice_text(&mut self, obj: usize, pos: usize, del: usize, ins: &Vec<char>) -> (r:
        Result<(), DocError>)
        requires
            old(self).wf(),
        ensures
            final(self).wf(),
            final(self).heads_m() == old(self).heads_m(),
            match r {
                Ok(_) => {
                    &&& old(self).is_obj(obj as int)
                    &&& old(self).kind_m(obj as int) == ObjKind::TextObj
                    &&& pos + del <= old(self).text_at(obj as int).len()
                    &&& if del == 0 && ins@.len() == 0 {
                        *final(self) == *old(self)
                    } else {
                        &&& same_objs_except(*old(self), *final(self), obj as int)
                        &&& final(self).objs_m()[obj as int] is TextObj
                        &&& final(self).text_at(obj as int) == old(self).text_at(
                            obj as int,
                        ).subrange(0, pos as int) + ins@ + old(self).text_at(obj as int).skip(
                            pos + del,
                        )
                        &&& final(self).log_m() == old(self).log_m().push(
                            WriteOpM::SpliceText {
                                obj: obj as int,
                                pos: pos as int,
                                del: del as int,
                                insert: ins@,
                            },
                        )
                        &&& final(self).dirty_m()
                    }
                },
                Err(e) => *final(self) == *old(self) && if !old(self).is_obj(obj as int) {
                    e == DocError::MissingObject
                } else if old(self).kind_m(obj as int) != ObjKind::TextObj {
                    e == DocError::WrongKind
                } else {
                    pos + del > old(self).text_at(obj as int).len() && e == DocError::OutOfBounds
                },
            },
    {
        if obj >= self.objs.len() {
            return Err(DocError::MissingObject);
        }
        proof {
            assert(self.objs_m()[obj as int] == self.objs@[obj as int]@);
        }
        match &self.objs[obj] {
            ObjData::TextObj(cs) => {
                if pos > cs.len() || del > cs.len() - pos {
                    return Err(DocError::OutOfBounds);
                }
            },
            _ => {
                return Err(DocError::WrongKind);
            },
        }
        if del == 0 && ins.len() == 0 {
            return Ok(());
        }
        let ghost pre = *self;
        let op = WriteOp::SpliceText { obj, pos, del, insert: clone_chars(ins) };
        let data = self.objs.remove(obj);
        match data {
            ObjData::TextObj(cs) => {
                let ghost cs0 = cs@;
                proof {
                    assert(pre.objs_m()[obj as int] == ObjM::TextObj(cs0));
                }
                let mut out: Vec<char> = Vec::new();
                let mut i: usize = 0;
                while i < pos
                    invariant
                        i <= pos,
                        pos + del <= cs.len(),
                        cs@ == cs0,
                        out@ =~= cs0.subrange(0, i as int),
                    decreases pos - i,
                {
                    out.push(cs[i]);
                    i += 1;
                }
                let mut j: usize = 0;
                while j < ins.len()
                    invariant
                        j <= ins.len(),
                        pos + del <= cs.len(),
                        cs@ == cs0,
                        out@ =~= cs0.subrange(0, pos as int) + ins@.subrange(0, j as int),
                    decreases ins.len() - j,
                {
                    out.push(ins[j]);
                    j += 1;
                }
                let mut t: usize = pos + del;
                while t < cs.len()
                    invariant
                        pos + del <= t <= cs.len(),
                        cs@ == cs0,
                        out@ =~= cs0.subrange(0, pos as int) + ins@ + cs0.subrange(
                            pos + del,
                            t as int,
                        ),
                    decreases cs.len() - t,
                {
                    out.push(cs[t]);
                    t += 1;
                }
                proof {
                    assert(out@ =~= cs0.subrange(0, pos as int) + ins@ + cs0.skip(pos + del));
                }
                let data2 = ObjData::TextObj(out);
                self.objs.insert(obj, data2);
                self.log.push(op);
                self.dirty = true;
                proof {
                    assert(self.objs@ =~= pre.objs@.update(obj as int, data2));
                    lemma_doc_update(pre, *self, obj as int, data2);
                    assert(self.obj_wf(obj as int));
                    lemma_wf_update_obj(pre, *self, obj as int);
                    lemma_log_push(pre, *self, op);
                }
                Ok(())
            },
            _ => {
                proof {
                    assert(false);
                }
                Err(DocError::OutOfBounds)
            },
        }
    }

    /// Commit pending mutations: advance the snapshot token once if any
    /// mutation was applied since the last commit.
    pub fn commit(&mut self)
        ensures
            final(self).objs_m() == old(self).objs_m(),
            final(self).log_m() == old(self).log_m(),
            !final(self).dirty_m(),
            final(self).heads_m() == if old(self).dirty_m() {
                next_heads(old(self).heads_m())
            } else {
                old(self).heads_m()
            },
            old(self).wf() ==> final(self).wf(),
    {
        if self.dirty {
            if self.heads < u64::MAX {
                self.heads = self.heads + 1;
            } else {
                self.heads = 0;
            }
            self.dirty = false;
        }
        proof {
            if old(self).wf() {
                lemma_wf_transfer(*old(self), *self);
            }
        }
    }

    /// Take the mutations logged so far, leaving the log empty. An adapter
    /// replays them, in order, into an external document engine.
    pub fn take_ops(&mut self) -> (r: Vec<WriteOp>)
        ensures
            r@.map_values(|op: WriteOp| op@) == old(self).log_m(),
            final(self).log_m() == Seq::<WriteOpM>::empty(),
            final(self).objs_m() == old(self).objs_m(),
            final(self).heads_m() == old(self).heads_m(),
            final(self).dirty_m() == old(self).dirty_m(),
            old(self).wf() ==> final(self).wf(),
    {
        let mut out: Vec<WriteOp> = Vec::new();
        core::mem::swap(&mut out, &mut self.log);
        proof {
            assert(self.log_m() =~= Seq::<WriteOpM>::empty());
            if old(self).wf() {
                lemma_wf_transfer(*old(self), *self);
            }
        }
        out
    }

    /// The number of mutations logged so far.
    pub fn log_len(&self) -> (r: usize)
        ensures
            r == self.log_m().len(),
    {
        self.log.len()
    }
}


/// A found key lies at some entry of the sequence.
pub proof fn lemma_lookup_mem(es: Seq<(Seq<char>, NodeM)>, k: Seq<char>)
    requires
        lookup_entries(es, k) is Some,
    ensures
        exists|i: int|
            0 <= i < es.len() && #[trigger] es[i] == (k, lookup_entries(es, k)->0),
    decreases es.len(),
{
    if es.len() > 0 {
        if es[0].0 == k {
            assert(es[0] == (k, lookup_entries(es, k)->0));
        } else {
            lemma_lookup_mem(es.drop_first(), k);
            let i = choose|i: int|
                0 <= i < es.drop_first().len() && #[trigger] es.drop_first()[i] == (
                    k,
                    lookup_entries(es.drop_first(), k)->0,
                );
            assert(es[i + 1] == (k, lookup_entries(es, k)->0));
        }
    }
}

/// In a well-formed document, a slot that reads an object reference points
/// strictly upwards in the arena and stays in bounds.
pub proof fn lemma_slot_obj_bounds(d: Doc, o: int, p: PropM)
    requires
        d.wf(),
        d.is_obj(o),
        d.slot(o, p) matches Some(NodeM::Obj(_)),
    ensures
        o < d.slot(o, p)->0->Obj_0 < d.num_objs(),
{
    assert(d.obj_wf(o));
    match p {
        PropM::Key(k) => {
            match d.objs_m()[o] {
                ObjM::MapObj(es) => {
                    lemma_lookup_mem(es, k);
                    let i = choose|i: int|
                        0 <= i < es.len() && #[trigger] es[i] == (k, lookup_entries(es, k)->0);
                    assert(d.node_wf(es[i].1, o));
                },
                _ => {},
            }
        },
        PropM::Index(i) => {
            match d.objs_m()[o] {
                ObjM::ListObj(ns) => {
                    assert(d.node_wf(ns[i], o));
                },
                _ => {},
            }
        },
    }
}

impl Doc {
    /// The slot whose node references object `target`, if any object holds
    /// one. Absence means no slot of the document references `target`.
    #[verifier::loop_isolation(false)]
    pub fn parent_of(&self, target: usize) -> (r: Option<(usize, Prop)>)
        requires
            self.wf(),
        ensures
            match r {
                Some((o, p)) => self.is_obj(o as int) && self.slot(o as int, p@) == Some(
                    NodeM::Obj(target as int),
                ),
                None => forall|o: int, p: PropM|
                    self.is_obj(o) ==> #[trigger] self.slot(o, p) != Some(
                        NodeM::Obj(target as int),
                    ),
            },
    {
        let mut o: usize = 0;
        while o < self.objs.len()
            invariant
                o <= self.objs@.len(),
                forall|x: int, p: PropM|
                    0 <= x < o ==> #[trigger] self.slot(x, p) != Some(NodeM::Obj(target as int)),
            decreases self.objs@.len() - o,
        {
            proof {
                assert(self.objs_m()[o as int] == self.objs@[o as int]@);
            }
            match &self.objs[o] {
                ObjData::MapObj(es) => {
                    let mut i: usize = 0;
                    while i < es.len()
                        invariant
                            i <= es.len(),
                            o < self.objs@.len(),
                            self.objs@[o as int] == ObjData::MapObj(*es),
                            forall|j: int|
                                0 <= j < i ==> (#[trigger] es@[j].1)@ != NodeM::Obj(target as int),
                        decreases es.len() - i,
                    {
                        if let Node::Obj(t) = &es[i].1 {
                            if *t == target {
                                proof {
                                    let esm = entries_m(es@);
                                    assert(self.obj_wf(o as int));
                                    assert(entries_unique(esm));
                                    assert forall|j: int| 0 <= j < i implies #[trigger] esm[j].0
                                        != esm[i as int].0 by {}
                                    lemma_lookup_found(esm, i as int);
                                    assert(esm[i as int] == (es@[i as int].0@, es@[i as int].1@));
                                }
                                return Some((o, Prop::Key(clone_string(&es[i].0))));
                            }
                        }
                        i += 1;
                    }
                    proof {
                        assert forall|p: PropM|
                            #[trigger] self.slot(o as int, p) != Some(
                                NodeM::Obj(target as int),
                            ) by {
                            let esm = entries_m(es@);
                            match p {
                                PropM::Key(k) => {
                                    if self.slot(o as int, p) is Some {
                                        lemma_lookup_mem(esm, k);
                                        let j = choose|j: int|
                                            0 <= j < esm.len() && #[trigger] esm[j] == (
                                                k,
                                                lookup_entries(esm, k)->0,
                                            );
                                        assert(esm[j] == (es@[j].0@, es@[j].1@));
                                    }
                                },
                                PropM::Index(_) => {},
                            }
                        }
                    }
                },
                ObjData::ListObj(ns) => {
                    let mut i: usize = 0;
                    while i < ns.len()
                        invariant
                            i <= ns.len(),
                            o < self.objs@.len(),
                            self.objs@[o as int] == ObjData::ListObj(*ns),
                            forall|j: int|
                                0 <= j < i ==> (#[trigger] ns@[j])@ != NodeM::Obj(target as int),
                        decreases ns.len() - i,
                    {
                        if let Node::Obj(t) = &ns[i] {
                            if *t == target {
                                proof {
                                    assert(self.list_m(o as int)[i as int] == ns@[i as int]@);
                                }
                                return Some((o, Prop::Index(i)));
                            }
                        }
                        i += 1;
                    }
                    proof {
                        assert forall|p: PropM|
                            #[trigger] self.slot(o as int, p) != Some(
                                NodeM::Obj(target as int),
                            ) by {
                            match p {
                                PropM::Index(j) => {
                                    if 0 <= j < nodes_m(ns@).len() {
                                        assert(self.list_m(o as int)[j] == ns@[j]@);
                                    }
                                },
                                PropM::Key(_) => {},
                            }
                        }
                    }
                },
                ObjData::TextObj(_) => {},
            }
            o += 1;
        }
        None
    }
}

} // verus!
