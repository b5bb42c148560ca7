//! Tests that replay the engine's recorded write operations into a real
//! automerge document and exercise concurrent-merge behaviour: identity
//! preservation, keyed list edits, counter commutativity and text merging.

use std::collections::HashMap;

use automerge::transaction::Transactable;
use automerge::ReadDoc as AmRead;
use automerge::{ActorId, AutoCommit, ObjType, Value};

use autosurgeon::{
    hydrate_key, hydrate_prop, reconcile, reconcile_prop, Counter, Doc, Hydrate, HydrateError,
    KeyVal, LoadKey, ObjKind, Prop, Reconcile, ReconcileError, Reconciler, ScalarVal, Text,
    WriteOp, ROOT,
};

fn am_prop(p: &Prop) -> automerge::Prop {
    match p {
        Prop::Key(k) => automerge::Prop::Map(k.clone()),
        Prop::Index(i) => automerge::Prop::Seq(*i),
    }
}

fn am_scalar(s: &ScalarVal) -> automerge::ScalarValue {
    match s {
        ScalarVal::Null => automerge::ScalarValue::Null,
        ScalarVal::Bool(b) => automerge::ScalarValue::Boolean(*b),
        ScalarVal::Uint(u) => automerge::ScalarValue::Uint(*u),
        ScalarVal::Int(i) => automerge::ScalarValue::Int(*i),
        ScalarVal::Str(st) => automerge::ScalarValue::Str(st.as_str().into()),
        ScalarVal::Bytes(b) => automerge::ScalarValue::Bytes(b.clone()),
        ScalarVal::Timestamp(t) => automerge::ScalarValue::Timestamp(*t),
        ScalarVal::Counter(c) => automerge::ScalarValue::Counter((*c).into()),
    }
}

fn am_kind(k: &ObjKind) -> ObjType {
    match k {
        ObjKind::MapObj => ObjType::Map,
        ObjKind::ListObj => ObjType::List,
        ObjKind::TextObj => ObjType::Text,
    }
}

/// Replay the engine's recorded operations into an automerge document.
/// `ids` maps the engine's object ids to automerge object ids; fresh objects
/// extend the map as they are created.
fn apply_ops(am: &mut AutoCommit, ops: Vec<WriteOp>, ids: &mut HashMap<usize, automerge::ObjId>) {
    for op in ops {
        match op {
            WriteOp::Put { obj, prop, value } => {
                am.put(&ids[&obj], am_prop(&prop), am_scalar(&value)).unwrap();
            }
            WriteOp::PutObject { obj, prop, kind, new_id } => {
                let id = am.put_object(&ids[&obj], am_prop(&prop), am_kind(&kind)).unwrap();
                ids.insert(new_id, id);
            }
            WriteOp::Insert { obj, index, value } => {
                am.insert(&ids[&obj], index, am_scalar(&value)).unwrap();
            }
            WriteOp::InsertObject { obj, index, kind, new_id } => {
                let id = am.insert_object(&ids[&obj], index, am_kind(&kind)).unwrap();
                ids.insert(new_id, id);
            }
            WriteOp::Increment { obj, prop, by } => {
                am.increment(&ids[&obj], am_prop(&prop), by).unwrap();
            }
            WriteOp::Delete { obj, prop } => {
                am.delete(&ids[&obj], am_prop(&prop)).unwrap();
            }
            WriteOp::SpliceText { obj, pos, del, insert } => {
                let text: String = insert.into_iter().collect();
                am.splice_text(&ids[&obj], pos, del as isize, &text).unwrap();
            }
        }
    }
}

fn read_object(
    am: &AutoCommit,
    am_obj: &automerge::ObjId,
    doc: &mut Doc,
    our_obj: usize,
    ids: &mut HashMap<usize, automerge::ObjId>,
) {
    match am.object_type(am_obj).unwrap() {
        ObjType::Map | ObjType::Table => {
            let keys: Vec<String> = am.keys(am_obj).collect();
            for k in keys {
                match am.get(am_obj, k.as_str()).unwrap() {
                    Some((Value::Object(ot), id)) => {
                        let kind = match ot {
                            ObjType::Map | ObjType::Table => ObjKind::MapObj,
                            ObjType::List => ObjKind::ListObj,
                            ObjType::Text => ObjKind::TextObj,
                        };
                        let child = doc.put_object(our_obj, &Prop::key(&k), kind).unwrap();
                        ids.insert(child, id.clone());
                        read_object(am, &id, doc, child, ids);
                    }
                    Some((Value::Scalar(s), _)) => {
                        doc.put(our_obj, &Prop::key(&k), our_scalar(&s)).unwrap();
                    }
                    None => {}
                }
            }
        }
        ObjType::List => {
            let len = am.length(am_obj);
            for i in 0..len {
                match am.get(am_obj, i).unwrap() {
                    Some((Value::Object(ot), id)) => {
                        let kind = match ot {
                            ObjType::Map | ObjType::Table => ObjKind::MapObj,
                            ObjType::List => ObjKind::ListObj,
                            ObjType::Text => ObjKind::TextObj,
                        };
                        let child = doc.insert_object(our_obj, i, kind).unwrap();
                        ids.insert(child, id.clone());
                        read_object(am, &id, doc, child, ids);
                    }
                    Some((Value::Scalar(s), _)) => {
                        doc.insert(our_obj, i, our_scalar(&s)).unwrap();
                    }
                    None => {}
                }
            }
        }
        ObjType::Text => {
            let text = am.text(am_obj).unwrap();
            let chars: Vec<char> = text.chars().collect();
            doc.splice_text(our_obj, 0, 0, &chars).unwrap();
        }
    }
}

fn our_scalar(s: &automerge::ScalarValue) -> ScalarVal {
    match s {
        automerge::ScalarValue::Null => ScalarVal::Null,
        automerge::ScalarValue::Boolean(b) => ScalarVal::Bool(*b),
        automerge::ScalarValue::Uint(u) => ScalarVal::Uint(*u),
        automerge::ScalarValue::Int(i) => ScalarVal::Int(*i),
        automerge::ScalarValue::Str(st) => ScalarVal::Str(st.to_string()),
        automerge::ScalarValue::Bytes(b) => ScalarVal::Bytes(b.clone()),
        automerge::ScalarValue::Timestamp(t) => ScalarVal::Timestamp(*t),
        automerge::ScalarValue::Counter(c) => ScalarVal::Counter(c.into()),
        other => panic!("a scalar kind the engine does not model: {:?}", other),
    }
}

/// Mirror an automerge document into a fresh engine document, so values can
/// be hydrated from it and reconciled back. Returns the mirror, the engine
/// to automerge id map, and leaves the mirror's log empty.
fn mirror(am: &AutoCommit) -> (Doc, HashMap<usize, automerge::ObjId>) {
    let mut doc = Doc::new();
    let mut ids = HashMap::new();
    ids.insert(ROOT, automerge::ROOT);
    let root = automerge::ROOT;
    read_object(am, &root, &mut doc, ROOT, &mut ids);
    let _ = doc.take_ops();
    doc.commit();
    (doc, ids)
}

#[derive(Clone, Debug, PartialEq)]
struct Contact {
    name: String,
    addresses: Vec<Address>,
    id: u64,
}

#[derive(Clone, Debug, PartialEq)]
struct Address {
    line_one: String,
    line_two: String,
}

impl Reconcile for Address {
    fn key(&self) -> LoadKey<KeyVal> {
        LoadKey::NoKey
    }

    fn hydrate_key(_doc: &Doc, _obj: usize, _prop: &Prop) -> Result<LoadKey<KeyVal>, ReconcileError> {
        Ok(LoadKey::NoKey)
    }

    fn reconcile(&self, doc: &mut Doc, rec: &Reconciler) -> Result<(), ReconcileError> {
        let m = rec.map(doc)?;
        m.put(doc, "line_one", &self.line_one)?;
        m.put(doc, "line_two", &self.line_two)?;
        Ok(())
    }
}

impl Hydrate for Address {
    fn hydrate_map(doc: &Doc, obj: usize) -> Result<Self, HydrateError> {
        Ok(Address {
            line_one: hydrate_prop(doc, obj, &Prop::key("line_one"))?,
            line_two: hydrate_prop(doc, obj, &Prop::key("line_two"))?,
        })
    }
}

impl Reconcile for Contact {
    fn key(&self) -> LoadKey<KeyVal> {
        LoadKey::NoKey
    }

    fn hydrate_key(_doc: &Doc, _obj: usize, _prop: &Prop) -> Result<LoadKey<KeyVal>, ReconcileError> {
        Ok(LoadKey::NoKey)
    }

    fn reconcile(&self, doc: &mut Doc, rec: &Reconciler) -> Result<(), ReconcileError> {
        let m = rec.map(doc)?;
        m.put(doc, "addresses", &self.addresses)?;
        m.put(doc, "name", &self.name)?;
        m.put(doc, "id", &self.id)?;
        Ok(())
    }
}

impl Hydrate for Contact {
    fn hydrate_map(doc: &Doc, obj: usize) -> Result<Self, HydrateError> {
        Ok(Contact {
            name: hydrate_prop(doc, obj, &Prop::key("name"))?,
            addresses: hydrate_prop(doc, obj, &Prop::key("addresses"))?,
            id: hydrate_prop(doc, obj, &Prop::key("id"))?,
        })
    }
}

#[test]
fn basic_reconciliation() {
    let mut bob = Contact {
        name: "bob".to_string(),
        id: 1,
        addresses: vec![Address {
            line_one: "line one".to_string(),
            line_two: "line two".to_string(),
        }],
    };
    let mut doc = Doc::new();
    let mut am = AutoCommit::new();
    let mut ids = HashMap::new();
    ids.insert(ROOT, automerge::ROOT);
    reconcile(&mut doc, &bob).unwrap();
    apply_ops(&mut am, doc.take_ops(), &mut ids);

    // one writer renames, another edits an address line, concurrently
    let mut am2 = am.fork().with_actor(ActorId::from("actor2".as_bytes()));
    let (mut d2, mut ids2) = mirror(&am2);
    bob.name = "Bobsson".to_string();
    reconcile(&mut d2, &bob).unwrap();
    apply_ops(&mut am2, d2.take_ops(), &mut ids2);

    let mut am3 = am.fork().with_actor(ActorId::from("actor3".as_bytes()));
    let (mut d3, mut ids3) = mirror(&am3);
    bob.name = "bob".to_string();
    bob.addresses[0].line_one = "Line one the premier".to_string();
    reconcile(&mut d3, &bob).unwrap();
    apply_ops(&mut am3, d3.take_ops(), &mut ids3);

    am.merge(&mut am2).unwrap();
    am.merge(&mut am3).unwrap();

    let (merged, _) = mirror(&am);
    let back: Contact = autosurgeon::hydrate(&merged).unwrap();
    assert_eq!(
        back,
        Contact {
            name: "Bobsson".to_string(),
            id: 1,
            addresses: vec![Address {
                line_one: "Line one the premier".to_string(),
                line_two: "line two".to_string(),
            }],
        }
    );
}

#[derive(Clone, Debug, PartialEq)]
struct Person {
    id: String,
    name: String,
}

impl Reconcile for Person {
    fn key(&self) -> LoadKey<KeyVal> {
        LoadKey::Found(KeyVal::Str(self.id.clone()))
    }

    fn hydrate_key(doc: &Doc, obj: usize, prop: &Prop) -> Result<LoadKey<KeyVal>, ReconcileError> {
        match hydrate_key::<String>(doc, obj, prop, &Prop::key("id"))? {
            LoadKey::Found(s) => Ok(LoadKey::Found(KeyVal::Str(s))),
            LoadKey::KeyNotFound => Ok(LoadKey::KeyNotFound),
            LoadKey::NoKey => Ok(LoadKey::NoKey),
        }
    }

    fn reconcile(&self, doc: &mut Doc, rec: &Reconciler) -> Result<(), ReconcileError> {
        let m = rec.map(doc)?;
        m.put(doc, "name", &self.name)?;
        m.put(doc, "id", &self.id)?;
        Ok(())
    }
}

impl Hydrate for Person {
    fn hydrate_map(doc: &Doc, obj: usize) -> Result<Self, HydrateError> {
        Ok(Person {
            id: hydrate_prop(doc, obj, &Prop::key("id"))?,
            name: hydrate_prop(doc, obj, &Prop::key("name"))?,
        })
    }
}

#[test]
fn test_reconcile_vec_with_key() {
    let mut vals = vec![
        Person { id: "one".to_string(), name: "Burt".to_string() },
        Person { id: "two".to_string(), name: "Winston".to_string() },
    ];
    let mut doc = Doc::new();
    let mut am = AutoCommit::new();
    let mut ids = HashMap::new();
    ids.insert(ROOT, automerge::ROOT);
    reconcile_prop(&mut doc, ROOT, &Prop::key("people"), &vals).unwrap();
    apply_ops(&mut am, doc.take_ops(), &mut ids);

    // one writer inserts a keyed person at the front ...
    let mut am2 = am.fork().with_actor(ActorId::from("actor2".as_bytes()));
    let (mut d2, mut ids2) = mirror(&am2);
    let mut vals2 = vals.clone();
    vals2.insert(0, Person { id: "three".to_string(), name: "Charlotte".to_string() });
    reconcile_prop(&mut d2, ROOT, &Prop::key("people"), &vals2).unwrap();
    apply_ops(&mut am2, d2.take_ops(), &mut ids2);

    // ... while the other removes one elsewhere in the list
    vals.remove(1);
    reconcile_prop(&mut doc, ROOT, &Prop::key("people"), &vals).unwrap();
    apply_ops(&mut am, doc.take_ops(), &mut ids);

    am.merge(&mut am2).unwrap();

    let (merged, _) = mirror(&am);
    let back: Vec<Person> = hydrate_prop(&merged, ROOT, &Prop::key("people")).unwrap();
    assert_eq!(
        back,
        vec![
            Person { id: "three".to_string(), name: "Charlotte".to_string() },
            Person { id: "one".to_string(), name: "Burt".to_string() },
        ]
    );
}

#[test]
fn merge_text() {
    let mut doc1 = Doc::new();
    let mut am1 = AutoCommit::new();
    let mut ids1 = HashMap::new();
    ids1.insert(ROOT, automerge::ROOT);
    let text = Text::with_value("glitters");
    reconcile_prop(&mut doc1, ROOT, &Prop::key("text"), &text).unwrap();
    apply_ops(&mut am1, doc1.take_ops(), &mut ids1);

    let mut am2 = am1.fork().with_actor(ActorId::from("actor2".as_bytes()));

    let mut text1: Text = hydrate_prop(&doc1, ROOT, &Prop::key("text")).unwrap();
    text1.splice(0, 0, "all that ");
    reconcile_prop(&mut doc1, ROOT, &Prop::key("text"), &text1).unwrap();
    apply_ops(&mut am1, doc1.take_ops(), &mut ids1);

    let (d2, mut ids2) = mirror(&am2);
    let mut d2 = d2;
    let mut text2: Text = hydrate_prop(&d2, ROOT, &Prop::key("text")).unwrap();
    let offset = text2.char_len();
    text2.splice(offset, 0, " is not gold");
    reconcile_prop(&mut d2, ROOT, &Prop::key("text"), &text2).unwrap();
    apply_ops(&mut am2, d2.take_ops(), &mut ids2);

    am1.merge(&mut am2).unwrap();

    let (merged, _) = mirror(&am1);
    let result: Text = hydrate_prop(&merged, ROOT, &Prop::key("text")).unwrap();
    assert_eq!(result.as_str(), "all that glitters is not gold");
}

#[test]
fn simple_increment() {
    let mut doc = Doc::new();
    let mut am = AutoCommit::new();
    let mut ids = HashMap::new();
    ids.insert(ROOT, automerge::ROOT);
    let counter = Counter::with_value(0);
    reconcile_prop(&mut doc, ROOT, &Prop::key("counter"), &counter).unwrap();
    apply_ops(&mut am, doc.take_ops(), &mut ids);

    // two writers increment the same counter concurrently
    let mut am2 = am.fork().with_actor(ActorId::from("actor2".as_bytes()));
    let (mut d2, mut ids2) = mirror(&am2);
    let mut counter2: Counter = hydrate_prop(&d2, ROOT, &Prop::key("counter")).unwrap();
    counter2.increment(5);
    reconcile_prop(&mut d2, ROOT, &Prop::key("counter"), &counter2).unwrap();
    apply_ops(&mut am2, d2.take_ops(), &mut ids2);

    let mut counter3: Counter = hydrate_prop(&doc, ROOT, &Prop::key("counter")).unwrap();
    counter3.increment(3);
    reconcile_prop(&mut doc, ROOT, &Prop::key("counter"), &counter3).unwrap();
    apply_ops(&mut am, doc.take_ops(), &mut ids);

    am.merge(&mut am2).unwrap();

    let (merged, _) = mirror(&am);
    let counter: Counter = hydrate_prop(&merged, ROOT, &Prop::key("counter")).unwrap();
    assert_eq!(counter.value(), 8);
}

#[test]
fn map_put_matching_keys_updates_in_place() {
    let mut doc = Doc::new();
    let mut am = AutoCommit::new();
    let mut ids = HashMap::new();
    ids.insert(ROOT, automerge::ROOT);
    reconcile_prop(
        &mut doc,
        ROOT,
        &Prop::key("item"),
        &Person { id: "item1".to_string(), name: "original".to_string() },
    )
    .unwrap();
    apply_ops(&mut am, doc.take_ops(), &mut ids);

    // a concurrent writer updates a field of the same item
    let mut am2 = am.fork().with_actor(ActorId::from("actor2".as_bytes()));
    let (mut d2, mut ids2) = mirror(&am2);
    reconcile_prop(
        &mut d2,
        ROOT,
        &Prop::key("item"),
        &Person { id: "item1".to_string(), name: "concurrent".to_string() },
    )
    .unwrap();
    apply_ops(&mut am2, d2.take_ops(), &mut ids2);

    // this writer updates the same field, with the key unchanged
    reconcile_prop(
        &mut doc,
        ROOT,
        &Prop::key("item"),
        &Person { id: "item1".to_string(), name: "updated".to_string() },
    )
    .unwrap();
    apply_ops(&mut am, doc.take_ops(), &mut ids);

    am.merge(&mut am2).unwrap();

    // identity was preserved, so the merge is a field-level conflict on the
    // same object, not two competing objects
    let (_, item) = am.get(&automerge::ROOT, "item").unwrap().unwrap();
    let conflicting = am.get_all(&item, "name").unwrap();
    assert_eq!(conflicting.len(), 2, "expected a field-level conflict with 2 values");
}

#[test]
fn map_put_different_keys_creates_new_object() {
    let mut doc = Doc::new();
    let mut am = AutoCommit::new();
    let mut ids = HashMap::new();
    ids.insert(ROOT, automerge::ROOT);
    reconcile_prop(
        &mut doc,
        ROOT,
        &Prop::key("item"),
        &Person { id: "item1".to_string(), name: "original".to_string() },
    )
    .unwrap();
    apply_ops(&mut am, doc.take_ops(), &mut ids);
    let (_, before) = am.get(&automerge::ROOT, "item").unwrap().unwrap();

    reconcile_prop(
        &mut doc,
        ROOT,
        &Prop::key("item"),
        &Person { id: "item2".to_string(), name: "new_item".to_string() },
    )
    .unwrap();
    apply_ops(&mut am, doc.take_ops(), &mut ids);
    let (_, after) = am.get(&automerge::ROOT, "item").unwrap().unwrap();
    assert_ne!(before, after, "a changed key must create a new object");
    let (merged, _) = mirror(&am);
    let back: Person = hydrate_prop(&merged, ROOT, &Prop::key("item")).unwrap();
    assert_eq!(back, Person { id: "item2".to_string(), name: "new_item".to_string() });
}

#[derive(Clone, Debug, PartialEq)]
struct Label {
    text: String,
}

impl Reconcile for Label {
    fn key(&self) -> LoadKey<KeyVal> {
        LoadKey::NoKey
    }

    fn hydrate_key(_doc: &Doc, _obj: usize, _prop: &Prop) -> Result<LoadKey<KeyVal>, ReconcileError> {
        Ok(LoadKey::NoKey)
    }

    fn reconcile(&self, doc: &mut Doc, rec: &Reconciler) -> Result<(), ReconcileError> {
        let m = rec.map(doc)?;
        m.put(doc, "text", &self.text)?;
        Ok(())
    }
}

impl Hydrate for Label {
    fn hydrate_map(doc: &Doc, obj: usize) -> Result<Self, HydrateError> {
        Ok(Label { text: hydrate_prop(doc, obj, &Prop::key("text"))? })
    }
}

fn label(text: &str) -> Label {
    Label { text: text.to_string() }
}

#[test]
fn keyless_concurrent_edits_collide_on_positions() {
    let mut doc = Doc::new();
    let mut am = AutoCommit::new().with_actor(ActorId::from("actor1".as_bytes()));
    let mut ids = HashMap::new();
    ids.insert(ROOT, automerge::ROOT);
    reconcile_prop(&mut doc, ROOT, &Prop::key("vals"), &vec![label("a"), label("b")]).unwrap();
    apply_ops(&mut am, doc.take_ops(), &mut ids);

    // one writer inserts at the front of the keyless list ...
    let mut am2 = am.fork().with_actor(ActorId::from("actor2".as_bytes()));
    let (mut d2, mut ids2) = mirror(&am2);
    reconcile_prop(
        &mut d2,
        ROOT,
        &Prop::key("vals"),
        &vec![label("z"), label("a"), label("b")],
    )
    .unwrap();
    apply_ops(&mut am2, d2.take_ops(), &mut ids2);

    // ... while the other deletes the last element
    reconcile_prop(&mut doc, ROOT, &Prop::key("vals"), &vec![label("a")]).unwrap();
    apply_ops(&mut am, doc.take_ops(), &mut ids);

    am.merge(&mut am2).unwrap();

    // without identity keys the edits land on positions, not items: the
    // front insertion was really an overwrite of position 0 and an append,
    // so the merge does not contain the clean keyed result [z, a]
    let (merged, _) = mirror(&am);
    let back: Vec<Label> = hydrate_prop(&merged, ROOT, &Prop::key("vals")).unwrap();
    assert_ne!(back, vec![label("z"), label("a")]);
    // the overwrite of position 0 collided with the delete of position 1:
    // "a" was lost and the appended "b" survived
    assert_eq!(back, vec![label("z"), label("b")]);
}

#[test]
fn reconcile_prop_matching_keys_updates_in_place() {
    let mut doc = Doc::new();
    let mut am = AutoCommit::new();
    let mut ids = HashMap::new();
    ids.insert(ROOT, automerge::ROOT);
    reconcile_prop(
        &mut doc,
        ROOT,
        &Prop::key("item"),
        &Person { id: "item1".to_string(), name: "original".to_string() },
    )
    .unwrap();
    apply_ops(&mut am, doc.take_ops(), &mut ids);

    let mut am2 = am.fork().with_actor(ActorId::from("actor2".as_bytes()));
    let (mut d2, mut ids2) = mirror(&am2);
    reconcile_prop(
        &mut d2,
        ROOT,
        &Prop::key("item"),
        &Person { id: "item1".to_string(), name: "concurrent".to_string() },
    )
    .unwrap();
    apply_ops(&mut am2, d2.take_ops(), &mut ids2);

    reconcile_prop(
        &mut doc,
        ROOT,
        &Prop::key("item"),
        &Person { id: "item1".to_string(), name: "updated".to_string() },
    )
    .unwrap();
    apply_ops(&mut am, doc.take_ops(), &mut ids);

    am.merge(&mut am2).unwrap();

    let (_, item) = am.get(&automerge::ROOT, "item").unwrap().unwrap();
    let values = am.get_all(&item, "name").unwrap();
    assert_eq!(values.len(), 2, "expected a field-level conflict with 2 values on one object");
}

#[test]
fn reconcile_prop_different_keys_creates_new_object() {
    let mut doc = Doc::new();
    let mut am = AutoCommit::new();
    let mut ids = HashMap::new();
    ids.insert(ROOT, automerge::ROOT);
    reconcile_prop(
        &mut doc,
        ROOT,
        &Prop::key("item"),
        &Person { id: "item1".to_string(), name: "original".to_string() },
    )
    .unwrap();
    apply_ops(&mut am, doc.take_ops(), &mut ids);
    let (_, before) = am.get(&automerge::ROOT, "item").unwrap().unwrap();

    reconcile_prop(
        &mut doc,
        ROOT,
        &Prop::key("item"),
        &Person { id: "item2".to_string(), name: "new_item".to_string() },
    )
    .unwrap();
    apply_ops(&mut am, doc.take_ops(), &mut ids);
    let (_, after) = am.get(&automerge::ROOT, "item").unwrap().unwrap();
    assert_ne!(before, after, "expected a new object to be created when keys don't match");
    let (merged, _) = mirror(&am);
    let back: Person = hydrate_prop(&merged, ROOT, &Prop::key("item")).unwrap();
    assert_eq!(back, Person { id: "item2".to_string(), name: "new_item".to_string() });
}

#[derive(Clone, Debug, PartialEq)]
struct FreshItem {
    id: String,
    name: String,
}

impl Reconcile for FreshItem {
    // simulates an instance that should carry a key but cannot produce one
    fn key(&self) -> LoadKey<KeyVal> {
        LoadKey::KeyNotFound
    }

    fn hydrate_key(doc: &Doc, obj: usize, prop: &Prop) -> Result<LoadKey<KeyVal>, ReconcileError> {
        match hydrate_key::<String>(doc, obj, prop, &Prop::key("id"))? {
            LoadKey::Found(s) => Ok(LoadKey::Found(KeyVal::Str(s))),
            LoadKey::KeyNotFound => Ok(LoadKey::KeyNotFound),
            LoadKey::NoKey => Ok(LoadKey::NoKey),
        }
    }

    fn reconcile(&self, doc: &mut Doc, rec: &Reconciler) -> Result<(), ReconcileError> {
        let m = rec.map(doc)?;
        m.put(doc, "id", &self.id)?;
        m.put(doc, "name", &self.name)?;
        Ok(())
    }
}

#[test]
fn reconcile_prop_fresh_over_keyed_creates_new_object() {
    let mut doc = Doc::new();
    let mut am = AutoCommit::new();
    let mut ids = HashMap::new();
    ids.insert(ROOT, automerge::ROOT);
    reconcile_prop(
        &mut doc,
        ROOT,
        &Prop::key("item"),
        &Person { id: "item1".to_string(), name: "original".to_string() },
    )
    .unwrap();
    apply_ops(&mut am, doc.take_ops(), &mut ids);
    let (_, before) = am.get(&automerge::ROOT, "item").unwrap().unwrap();

    reconcile_prop(
        &mut doc,
        ROOT,
        &Prop::key("item"),
        &FreshItem { id: "item1".to_string(), name: "fresh_value".to_string() },
    )
    .unwrap();
    apply_ops(&mut am, doc.take_ops(), &mut ids);
    let (_, after) = am.get(&automerge::ROOT, "item").unwrap().unwrap();
    assert_ne!(
        before, after,
        "expected a new object to be created when the incoming item has no key"
    );
}
