//! Tests of the engine against its own document store: hydration, path
//! traversal, reconciliation, the sequence diff, text and counters.

use autosurgeon::{
    hydrate, hydrate_key, hydrate_map_entries, hydrate_prop, hydrate_path, reconcile,
    reconcile_map_entries, reconcile_prop, Counter, Doc, Hydrate, HydrateError, KeyVal, LoadKey,
    Prop, Reconcile, ReconcileError, Reconciler, ScalarVal, Text, Unexpected, WriteOp, ROOT,
};

#[derive(Clone, Debug, PartialEq)]
struct Company {
    name: String,
    employees: Vec<Employee>,
}

#[derive(Clone, Debug, PartialEq)]
struct Employee {
    name: String,
    number: u64,
}

impl Hydrate for Company {
    fn hydrate_map(doc: &Doc, obj: usize) -> Result<Self, HydrateError> {
        let name = hydrate_prop::<String>(doc, obj, &Prop::key("name"))?;
        let employees = hydrate_prop::<Vec<Employee>>(doc, obj, &Prop::key("employees"))?;
        Ok(Company { name, employees })
    }
}

impl Hydrate for Employee {
    fn hydrate_map(doc: &Doc, obj: usize) -> Result<Self, HydrateError> {
        let name = hydrate_prop::<String>(doc, obj, &Prop::key("name"))?;
        let number = hydrate_prop::<u64>(doc, obj, &Prop::key("number"))?;
        Ok(Employee { name, number })
    }
}

impl Reconcile for Employee {
    fn key(&self) -> LoadKey<KeyVal> {
        LoadKey::NoKey
    }

    fn hydrate_key(_doc: &Doc, _obj: usize, _prop: &Prop) -> Result<LoadKey<KeyVal>, ReconcileError> {
        Ok(LoadKey::NoKey)
    }

    fn reconcile(&self, doc: &mut Doc, rec: &Reconciler) -> Result<(), ReconcileError> {
        let m = rec.map(doc)?;
        m.put(doc, "name", &self.name)?;
        m.put(doc, "number", &self.number)?;
        Ok(())
    }
}

impl Reconcile for Company {
    fn key(&self) -> LoadKey<KeyVal> {
        LoadKey::NoKey
    }

    fn hydrate_key(_doc: &Doc, _obj: usize, _prop: &Prop) -> Result<LoadKey<KeyVal>, ReconcileError> {
        Ok(LoadKey::NoKey)
    }

    fn reconcile(&self, doc: &mut Doc, rec: &Reconciler) -> Result<(), ReconcileError> {
        let m = rec.map(doc)?;
        m.put(doc, "name", &self.name)?;
        m.put(doc, "employees", &self.employees)?;
        Ok(())
    }
}

fn build_company_doc() -> Doc {
    let mut doc = Doc::new();
    doc.put(ROOT, &Prop::key("name"), ScalarVal::Str("Microsoft".to_string()))
        .unwrap();
    let emps = doc
        .put_object(ROOT, &Prop::key("employees"), autosurgeon::ObjKind::ListObj)
        .unwrap();
    let emp = doc
        .insert_object(emps, 0, autosurgeon::ObjKind::MapObj)
        .unwrap();
    doc.put(emp, &Prop::key("name"), ScalarVal::Str("Satya Nadella".to_string()))
        .unwrap();
    doc.put(emp, &Prop::key("number"), ScalarVal::Uint(1)).unwrap();
    doc
}

#[test]
fn basic_hydrate() {
    let doc = build_company_doc();
    let microsoft: Company = hydrate(&doc).unwrap();
    assert_eq!(
        microsoft,
        Company {
            name: "Microsoft".to_string(),
            employees: vec![Employee { name: "Satya Nadella".to_string(), number: 1 }],
        }
    );
}

#[test]
fn basic_hydrate_path() {
    let mut doc = Doc::new();
    let companies = doc
        .put_object(ROOT, &Prop::key("companies"), autosurgeon::ObjKind::MapObj)
        .unwrap();
    let ms = doc
        .put_object(companies, &Prop::key("Microsoft"), autosurgeon::ObjKind::MapObj)
        .unwrap();
    doc.put(ms, &Prop::key("name"), ScalarVal::Str("Microsoft".to_string()))
        .unwrap();
    let employees = doc
        .put_object(ms, &Prop::key("employees"), autosurgeon::ObjKind::ListObj)
        .unwrap();
    let emp = doc
        .insert_object(employees, 0, autosurgeon::ObjKind::MapObj)
        .unwrap();
    doc.put(emp, &Prop::key("name"), ScalarVal::Str("Satya Nadella".to_string()))
        .unwrap();
    doc.put(emp, &Prop::key("number"), ScalarVal::Uint(1)).unwrap();

    let expected_ms = Company {
        name: "Microsoft".to_string(),
        employees: vec![Employee { name: "Satya Nadella".to_string(), number: 1 }],
    };
    let result: Company = hydrate_path(&doc, companies, &vec![Prop::key("Microsoft")])
        .unwrap()
        .unwrap();
    assert_eq!(result, expected_ms);

    let satya: Employee = hydrate_path(
        &doc,
        companies,
        &vec![Prop::key("Microsoft"), Prop::key("employees"), Prop::Index(0)],
    )
    .unwrap()
    .unwrap();
    assert_eq!(satya, expected_ms.employees[0]);

    let name_from_comp: String = hydrate_path(
        &doc,
        companies,
        &vec![
            Prop::key("Microsoft"),
            Prop::key("employees"),
            Prop::Index(0),
            Prop::key("name"),
        ],
    )
    .unwrap()
    .unwrap();
    assert_eq!(name_from_comp, "Satya Nadella");

    // a path whose intermediate segment does not exist yields None, not an error
    let missing: Option<Company> = hydrate_path(
        &doc,
        companies,
        &vec![Prop::key("Initech"), Prop::key("employees")],
    )
    .unwrap();
    assert!(missing.is_none());
}

#[test]
fn hydrate_path_root() {
    let mut doc = Doc::new();
    doc.put(ROOT, &Prop::key("name"), ScalarVal::Str("Moist von Lipwig".to_string()))
        .unwrap();
    doc.put(ROOT, &Prop::key("number"), ScalarVal::Uint(1)).unwrap();
    let moist: Employee = hydrate_path(&doc, ROOT, &vec![]).unwrap().unwrap();
    assert_eq!(moist, Employee { name: "Moist von Lipwig".to_string(), number: 1 });
}

#[test]
fn hydrate_empty_path() {
    let mut doc = Doc::new();
    let moist = doc
        .put_object(ROOT, &Prop::key("moist"), autosurgeon::ObjKind::MapObj)
        .unwrap();
    doc.put(moist, &Prop::key("name"), ScalarVal::Str("Moist von Lipwig".to_string()))
        .unwrap();
    doc.put(moist, &Prop::key("number"), ScalarVal::Uint(1)).unwrap();
    let moist: Employee = hydrate_path(&doc, moist, &vec![]).unwrap().unwrap();
    assert_eq!(moist, Employee { name: "Moist von Lipwig".to_string(), number: 1 });
}

#[test]
fn reconcile_then_hydrate_round_trips() {
    let company = Company {
        name: "Microsoft".to_string(),
        employees: vec![Employee { name: "Satya Nadella".to_string(), number: 1 }],
    };
    let mut doc = Doc::new();
    reconcile(&mut doc, &company).unwrap();
    let back: Company = hydrate(&doc).unwrap();
    assert_eq!(back, company);
}

#[test]
fn reconcile_unchanged_value_logs_nothing() {
    let company = Company {
        name: "Microsoft".to_string(),
        employees: vec![Employee { name: "Satya Nadella".to_string(), number: 1 }],
    };
    let mut doc = Doc::new();
    reconcile(&mut doc, &company).unwrap();
    let heads_before = doc.get_heads();
    let _ = doc.take_ops();
    reconcile(&mut doc, &company).unwrap();
    let ops = doc.take_ops();
    assert!(ops.is_empty(), "an unchanged value must produce no document mutation");
    assert_eq!(doc.get_heads(), heads_before);
}

#[test]
fn reconcile_preserves_object_identity() {
    let mut company = Company {
        name: "Microsoft".to_string(),
        employees: vec![Employee { name: "Satya Nadella".to_string(), number: 1 }],
    };
    let mut doc = Doc::new();
    reconcile(&mut doc, &company).unwrap();
    let _ = doc.take_ops();
    company.name = "Microsoft Corporation".to_string();
    reconcile(&mut doc, &company).unwrap();
    let ops = doc.take_ops();
    // only the one scalar changed: no object was created or deleted
    assert_eq!(ops.len(), 1);
    match &ops[0] {
        WriteOp::Put { obj, prop, value } => {
            assert_eq!(*obj, ROOT);
            assert!(matches!(prop, Prop::Key(k) if k == "name"));
            assert!(matches!(value, ScalarVal::Str(s) if s == "Microsoft Corporation"));
        }
        other => panic!("expected a plain overwrite, got {:?}", other),
    }
}

#[test]
fn test_reconcile_vec_deletes_extra_elems() {
    let mut vals: Vec<u64> = vec![1, 2, 3];
    let mut doc = Doc::new();
    reconcile_prop(&mut doc, ROOT, &Prop::key("vals"), &vals).unwrap();
    vals.remove(1);
    reconcile_prop(&mut doc, ROOT, &Prop::key("vals"), &vals).unwrap();
    let back: Vec<u64> = hydrate_prop(&doc, ROOT, &Prop::key("vals")).unwrap();
    assert_eq!(back, vec![1, 3]);
}

#[derive(Clone, Debug, PartialEq)]
struct Label {
    text: String,
}

impl Reconcile for Label {
    fn key(&self) -> LoadKey<KeyVal> {
        LoadKey::NoKey
    }

    fn hydrate_key(_doc: &Doc, _obj: usize, _prop: &Prop) -> Result<LoadKey<KeyVal>, ReconcileError> {
        Ok(LoadKey::NoKey)
    }

    fn reconcile(&self, doc: &mut Doc, rec: &Reconciler) -> Result<(), ReconcileError> {
        let m = rec.map(doc)?;
        m.put(doc, "text", &self.text)?;
        Ok(())
    }
}

impl Hydrate for Label {
    fn hydrate_map(doc: &Doc, obj: usize) -> Result<Self, HydrateError> {
        Ok(Label { text: hydrate_prop(doc, obj, &Prop::key("text"))? })
    }
}

fn label(text: &str) -> Label {
    Label { text: text.to_string() }
}

#[test]
fn keyless_front_insert_rewrites_positions() {
    let mut doc = Doc::new();
    reconcile_prop(&mut doc, ROOT, &Prop::key("vals"), &vec![label("a"), label("b")]).unwrap();
    let _ = doc.take_ops();
    // keyless elements match only their own position, so inserting at the
    // front is seen as overwriting every existing position and appending
    reconcile_prop(
        &mut doc,
        ROOT,
        &Prop::key("vals"),
        &vec![label("z"), label("a"), label("b")],
    )
    .unwrap();
    let ops = doc.take_ops();
    assert!(
        !ops.iter().any(|op| matches!(op, WriteOp::InsertObject { index: 0, .. })),
        "a keyless front insertion must not insert at the front: {:?}",
        ops
    );
    assert!(
        ops.iter().any(|op| matches!(
            op,
            WriteOp::Put { value: ScalarVal::Str(s), .. } if s == "z"
        )),
        "position 0 must be overwritten in place, which is what makes \
         concurrent edits collide on positions: {:?}",
        ops
    );
    let back: Vec<Label> = hydrate_prop(&doc, ROOT, &Prop::key("vals")).unwrap();
    assert_eq!(back, vec![label("z"), label("a"), label("b")]);
}

#[derive(Clone, Debug, PartialEq)]
struct Person {
    id: String,
    name: String,
}

impl Reconcile for Person {
    fn key(&self) -> LoadKey<KeyVal> {
        LoadKey::Found(KeyVal::Str(self.id.clone()))
    }

    fn hydrate_key(doc: &Doc, obj: usize, prop: &Prop) -> Result<LoadKey<KeyVal>, ReconcileError> {
        match hydrate_key::<String>(doc, obj, prop, &Prop::key("id"))? {
            LoadKey::Found(s) => Ok(LoadKey::Found(KeyVal::Str(s))),
            LoadKey::KeyNotFound => Ok(LoadKey::KeyNotFound),
            LoadKey::NoKey => Ok(LoadKey::NoKey),
        }
    }

    fn reconcile(&self, doc: &mut Doc, rec: &Reconciler) -> Result<(), ReconcileError> {
        let m = rec.map(doc)?;
        m.put(doc, "name", &self.name)?;
        m.put(doc, "id", &self.id)?;
        Ok(())
    }
}

impl Hydrate for Person {
    fn hydrate_map(doc: &Doc, obj: usize) -> Result<Self, HydrateError> {
        let id = hydrate_prop::<String>(doc, obj, &Prop::key("id"))?;
        let name = hydrate_prop::<String>(doc, obj, &Prop::key("name"))?;
        Ok(Person { id, name })
    }
}

#[test]
fn keyed_elements_update_in_place() {
    let vals = vec![
        Person { id: "one".to_string(), name: "Burt".to_string() },
        Person { id: "two".to_string(), name: "Winston".to_string() },
    ];
    let mut doc = Doc::new();
    reconcile_prop(&mut doc, ROOT, &Prop::key("people"), &vals).unwrap();
    let _ = doc.take_ops();
    // insert a new keyed person at the front: the existing two must be kept
    // in place, with a single insertion and no overwrite of their fields
    let mut vals2 = vals.clone();
    vals2.insert(0, Person { id: "three".to_string(), name: "Charlotte".to_string() });
    reconcile_prop(&mut doc, ROOT, &Prop::key("people"), &vals2).unwrap();
    let ops = doc.take_ops();
    assert!(
        ops.iter().all(|op| !matches!(op, WriteOp::Delete { .. })),
        "a keyed front insertion must not delete anything: {:?}",
        ops
    );
    assert!(ops
        .iter()
        .any(|op| matches!(op, WriteOp::InsertObject { index: 0, .. })));
    let back: Vec<Person> = hydrate_prop(&doc, ROOT, &Prop::key("people")).unwrap();
    assert_eq!(back, vals2);
}

#[test]
fn reconcile_tuple_2_round_trip() {
    let mut doc = Doc::new();
    reconcile_prop(&mut doc, ROOT, &Prop::key("t"), &(1u64, 2u64)).unwrap();
    reconcile_prop(&mut doc, ROOT, &Prop::key("t"), &(10u64, 20u64)).unwrap();
    let back: (u64, u64) = hydrate_prop(&doc, ROOT, &Prop::key("t")).unwrap();
    assert_eq!(back, (10, 20));
}

#[test]
fn reconcile_tuple_3_insert_delete() {
    let mut doc = Doc::new();
    reconcile_prop(&mut doc, ROOT, &Prop::key("t"), &(1u64, 2u64, 3u64)).unwrap();
    reconcile_prop(&mut doc, ROOT, &Prop::key("t"), &(7u64, 8u64)).unwrap();
    let back: (u64, u64) = hydrate_prop(&doc, ROOT, &Prop::key("t")).unwrap();
    assert_eq!(back, (7, 8));
}

#[test]
fn hydrate_tuple_2_round_trip() {
    let mut doc = Doc::new();
    reconcile_prop(&mut doc, ROOT, &Prop::key("t"), &(1u64, 2u64)).unwrap();
    let hydrated: (u64, u64) = hydrate_prop(&doc, ROOT, &Prop::key("t")).unwrap();
    assert_eq!(hydrated, (1, 2));
}

#[test]
fn hydrate_tuple_3_round_trip() {
    let mut doc = Doc::new();
    reconcile_prop(&mut doc, ROOT, &Prop::key("t"), &(1u64, 2u64, 3u64)).unwrap();
    let hydrated: (u64, u64, u64) = hydrate_prop(&doc, ROOT, &Prop::key("t")).unwrap();
    assert_eq!(hydrated, (1, 2, 3));
}

#[test]
fn hydrate_tuple_wrong_len_errors() {
    let mut doc = Doc::new();
    reconcile_prop(&mut doc, ROOT, &Prop::key("t"), &(1u64, 2u64)).unwrap();
    let err = hydrate_prop::<(u64, u64, u64)>(&doc, ROOT, &Prop::key("t")).unwrap_err();
    match err {
        HydrateError::Unexpected(u) => {
            assert!(u.describe().contains("tuple arity mismatch"));
        }
        other => panic!("expected an unexpected-kind error, got {:?}", other),
    }
}

#[test]
fn map_entries_round_trip() {
    let entries = vec![
        ("key1".to_string(), vec!["one".to_string(), "two".to_string()]),
        ("key2".to_string(), vec!["three".to_string()]),
    ];
    let mut doc = Doc::new();
    let rec = Reconciler { target: autosurgeon::Target::Root, heads: doc.get_heads() };
    let m = rec.map(&mut doc).unwrap();
    reconcile_map_entries(&m, &mut doc, &entries).unwrap();
    let keys = m.keys(&doc);
    assert_eq!(keys, vec!["key1".to_string(), "key2".to_string()]);
    let back: Vec<(String, Vec<String>)> = hydrate_map_entries(&doc, ROOT).unwrap();
    assert_eq!(back, entries);
}

#[test]
fn map_entries_matching_key_updates_in_place() {
    let mut doc = Doc::new();
    let rec = Reconciler { target: autosurgeon::Target::Root, heads: 0 };
    let m = rec.map(&mut doc).unwrap();
    reconcile_map_entries(
        &m,
        &mut doc,
        &vec![("item".to_string(), Person { id: "item1".to_string(), name: "original".to_string() })],
    )
    .unwrap();
    let _ = doc.take_ops();
    reconcile_map_entries(
        &m,
        &mut doc,
        &vec![("item".to_string(), Person { id: "item1".to_string(), name: "updated".to_string() })],
    )
    .unwrap();
    let ops = doc.take_ops();
    // same identity key: the entry's object is kept; only the field changed
    assert!(ops.iter().all(|op| matches!(op, WriteOp::Put { .. })), "{:?}", ops);
}

#[test]
fn map_entries_different_key_recreates_entry() {
    let mut doc = Doc::new();
    let rec = Reconciler { target: autosurgeon::Target::Root, heads: 0 };
    let m = rec.map(&mut doc).unwrap();
    reconcile_map_entries(
        &m,
        &mut doc,
        &vec![("item".to_string(), Person { id: "item1".to_string(), name: "original".to_string() })],
    )
    .unwrap();
    let _ = doc.take_ops();
    reconcile_map_entries(
        &m,
        &mut doc,
        &vec![("item".to_string(), Person { id: "item2".to_string(), name: "new_item".to_string() })],
    )
    .unwrap();
    let ops = doc.take_ops();
    // a different identity key forces delete-then-put: a fresh object
    assert!(ops.iter().any(|op| matches!(op, WriteOp::Delete { .. })), "{:?}", ops);
    assert!(ops.iter().any(|op| matches!(op, WriteOp::PutObject { .. })), "{:?}", ops);
}

#[test]
fn round_trip_vec() {
    let mut doc = Doc::new();
    let value = autosurgeon::ByteVec::new(vec![1u8, 2, 3, 4]);
    reconcile_prop(&mut doc, ROOT, &Prop::key("values"), &value).unwrap();
    let result: autosurgeon::ByteVec = hydrate_prop(&doc, ROOT, &Prop::key("values")).unwrap();
    assert_eq!(result, value);
}

#[test]
fn option_text_survives_re_reconciliation() {
    let mut doc = Doc::new();
    let text: Option<Text> = Some(Text::with_value("hello"));
    reconcile_prop(&mut doc, ROOT, &Prop::key("greeting"), &text).unwrap();

    let hydrated: Option<Text> = hydrate_prop(&doc, ROOT, &Prop::key("greeting")).unwrap();
    assert_eq!(hydrated.as_ref().map(|t| t.as_str()), Some("hello".to_string()));

    reconcile_prop(&mut doc, ROOT, &Prop::key("greeting"), &hydrated).unwrap();

    let result: Option<Text> = hydrate_prop(&doc, ROOT, &Prop::key("greeting")).unwrap();
    assert_eq!(
        result.as_ref().map(|t| t.as_str()),
        Some("hello".to_string()),
        "Option<Text> content should survive re-reconciliation"
    );
}

#[test]
fn test_partial_eq() {
    let text = Text::with_value("hello");
    assert_eq!(text, Text::with_value("hello"));
    assert_ne!(text, Text::with_value("world"));
}

#[test]
fn test_eq() {
    let text: Text = Text::with_value("hello");
    assert_eq!(text, text);
}

#[test]
fn text_splice_and_update() {
    let mut value = Text::with_value("some value");
    value.splice(5, 0, "amazing ");
    assert_eq!(value.as_str(), "some amazing value");
    value.update("some day");
    assert_eq!(value.as_str(), "some day");
}

#[test]
fn stale_text_is_rejected_without_mutation() {
    let mut doc = Doc::new();
    reconcile_prop(&mut doc, ROOT, &Prop::key("text"), &Text::with_value("glitters")).unwrap();

    let mut text: Text = hydrate_prop(&doc, ROOT, &Prop::key("text")).unwrap();
    // another write moves the document past the snapshot the text was read at
    reconcile_prop(&mut doc, ROOT, &Prop::key("other"), &1u64).unwrap();
    let _ = doc.take_ops();

    text.splice(0, 0, "all that ");
    let err = reconcile_prop(&mut doc, ROOT, &Prop::key("text"), &text).unwrap_err();
    assert!(matches!(err, ReconcileError::StaleHeads(_)));
    assert!(doc.take_ops().is_empty(), "a stale text must write nothing");
    let back: Text = hydrate_prop(&doc, ROOT, &Prop::key("text")).unwrap();
    assert_eq!(back.as_str(), "glitters");
}

#[test]
fn counter_value_accumulates() {
    let mut c = Counter::with_value(10);
    c.increment(5);
    c.increment(-2);
    assert_eq!(c.value(), 13);
}

#[test]
fn fresh_counter_reconciles_absolute_value() {
    let mut doc = Doc::new();
    let c = Counter::with_value(7);
    reconcile_prop(&mut doc, ROOT, &Prop::key("counter"), &c).unwrap();
    let ops = doc.take_ops();
    assert!(ops
        .iter()
        .any(|op| matches!(op, WriteOp::Put { value: ScalarVal::Counter(7), .. })));
}

#[test]
fn rehydrated_counter_reconciles_relative_delta() {
    let mut doc = Doc::new();
    reconcile_prop(&mut doc, ROOT, &Prop::key("counter"), &Counter::with_value(7)).unwrap();
    let _ = doc.take_ops();
    let mut c: Counter = hydrate_prop(&doc, ROOT, &Prop::key("counter")).unwrap();
    c.increment(5);
    assert_eq!(c.value(), 12);
    reconcile_prop(&mut doc, ROOT, &Prop::key("counter"), &c).unwrap();
    let ops = doc.take_ops();
    // only the delta is written, never the absolute value
    assert!(ops.iter().any(|op| matches!(op, WriteOp::Increment { by: 5, .. })), "{:?}", ops);
    assert!(ops.iter().all(|op| !matches!(op, WriteOp::Put { .. })), "{:?}", ops);
    let back: Counter = hydrate_prop(&doc, ROOT, &Prop::key("counter")).unwrap();
    assert_eq!(back.value(), 12);
}

#[test]
fn strip_unexpected_softens_shape_errors() {
    let shaped: Result<Option<u64>, HydrateError> =
        Err(HydrateError::Unexpected(Unexpected::Boolean));
    assert_eq!(autosurgeon::strip_unexpected(shaped).unwrap(), None);
    let ok: Result<Option<u64>, HydrateError> = Ok(Some(3));
    assert_eq!(autosurgeon::strip_unexpected(ok).unwrap(), Some(3));
}

#[test]
fn load_key_map_carries_found() {
    let found: LoadKey<u64> = LoadKey::Found(3);
    assert!(matches!(found.map(|v| v + 1), LoadKey::Found(4)));
    let missing: LoadKey<u64> = LoadKey::KeyNotFound;
    assert!(matches!(missing.map(|v| v + 1), LoadKey::KeyNotFound));
    let none: LoadKey<u64> = LoadKey::NoKey;
    assert!(matches!(none.map(|v| v + 1), LoadKey::NoKey));
}

#[test]
fn top_level_scalar_is_rejected() {
    let mut doc = Doc::new();
    let err = reconcile(&mut doc, &42u64).unwrap_err();
    assert!(matches!(err, ReconcileError::TopLevelNotMap));
}

#[test]
fn hydrate_u8_out_of_range_errors() {
    let mut doc = Doc::new();
    doc.put(ROOT, &Prop::key("n"), ScalarVal::Uint(300)).unwrap();
    let err = hydrate_prop::<u8>(&doc, ROOT, &Prop::key("n")).unwrap_err();
    assert!(matches!(err, HydrateError::Unexpected(_)));
}

#[test]
fn unexpected_describe_names_kinds() {
    assert_eq!(Unexpected::MapObject.describe(), "map");
    assert_eq!(Unexpected::SeqObject.describe(), "sequence");
    assert_eq!(Unexpected::Nothing.describe(), "nothing");
    let other = Unexpected::Other { expected: "a map".to_string(), found: "a list".to_string() };
    assert_eq!(other.describe(), "a list, expected a map");
}

#[test]
fn seq_set_different_keys_recreates_element() {
    let mut doc = Doc::new();
    reconcile_prop(
        &mut doc,
        ROOT,
        &Prop::key("items"),
        &vec![Person { id: "item1".to_string(), name: "original".to_string() }],
    )
    .unwrap();
    let _ = doc.take_ops();
    reconcile_prop(
        &mut doc,
        ROOT,
        &Prop::key("items"),
        &vec![Person { id: "item2".to_string(), name: "new_item".to_string() }],
    )
    .unwrap();
    let ops = doc.take_ops();
    // the element's key changed, so it is removed and recreated fresh
    assert!(ops.iter().any(|op| matches!(op, WriteOp::Delete { .. })), "{:?}", ops);
    assert!(ops.iter().any(|op| matches!(op, WriteOp::InsertObject { .. })), "{:?}", ops);
    let back: Vec<Person> = hydrate_prop(&doc, ROOT, &Prop::key("items")).unwrap();
    assert_eq!(back, vec![Person { id: "item2".to_string(), name: "new_item".to_string() }]);
}

#[test]
fn option_hydrates_null_as_none_and_missing_as_error() {
    let mut doc = Doc::new();
    doc.put(ROOT, &Prop::key("present"), ScalarVal::Null).unwrap();
    let none: Option<u64> = hydrate_prop(&doc, ROOT, &Prop::key("present")).unwrap();
    assert_eq!(none, None);
    let missing = hydrate_prop::<Option<u64>>(&doc, ROOT, &Prop::key("absent"));
    assert!(matches!(missing, Err(HydrateError::Unexpected(_))));
}

#[test]
fn counter_rehydration_survives_round_trips() {
    let mut doc = Doc::new();
    reconcile_prop(&mut doc, ROOT, &Prop::key("n"), &Counter::with_value(2)).unwrap();
    let c: Counter = hydrate_prop(&doc, ROOT, &Prop::key("n")).unwrap();
    reconcile_prop(&mut doc, ROOT, &Prop::key("n"), &c).unwrap();
    let back: Counter = hydrate_prop(&doc, ROOT, &Prop::key("n")).unwrap();
    assert_eq!(back.value(), 2);
}

#[derive(Clone, Debug, PartialEq)]
struct FreshItem {
    id: String,
    name: String,
}

impl Reconcile for FreshItem {
    // simulates an instance that should carry a key but cannot produce one
    fn key(&self) -> LoadKey<KeyVal> {
        LoadKey::KeyNotFound
    }

    fn hydrate_key(doc: &Doc, obj: usize, prop: &Prop) -> Result<LoadKey<KeyVal>, ReconcileError> {
        match hydrate_key::<String>(doc, obj, prop, &Prop::key("id"))? {
            LoadKey::Found(s) => Ok(LoadKey::Found(KeyVal::Str(s))),
            LoadKey::KeyNotFound => Ok(LoadKey::KeyNotFound),
            LoadKey::NoKey => Ok(LoadKey::NoKey),
        }
    }

    fn reconcile(&self, doc: &mut Doc, rec: &Reconciler) -> Result<(), ReconcileError> {
        let m = rec.map(doc)?;
        m.put(doc, "id", &self.id)?;
        m.put(doc, "name", &self.name)?;
        Ok(())
    }
}

#[test]
fn map_put_fresh_over_keyed_creates_new_object() {
    let mut doc = Doc::new();
    reconcile_prop(
        &mut doc,
        ROOT,
        &Prop::key("item"),
        &Person { id: "item1".to_string(), name: "original".to_string() },
    )
    .unwrap();
    let _ = doc.take_ops();
    reconcile_prop(
        &mut doc,
        ROOT,
        &Prop::key("item"),
        &FreshItem { id: "item1".to_string(), name: "fresh_value".to_string() },
    )
    .unwrap();
    let ops = doc.take_ops();
    // the incoming item has no key, so the keyed entry is recreated fresh
    assert!(ops.iter().any(|op| matches!(op, WriteOp::Delete { .. })), "{:?}", ops);
    assert!(ops.iter().any(|op| matches!(op, WriteOp::PutObject { .. })), "{:?}", ops);
}

#[test]
fn reconcile_insert_appends_fresh_element() {
    let mut doc = Doc::new();
    reconcile_prop(&mut doc, ROOT, &Prop::key("vals"), &vec![1u64, 2u64]).unwrap();
    let list = match doc.get(ROOT, &Prop::key("vals")).unwrap() {
        Some(autosurgeon::Node::Obj(id)) => id,
        other => panic!("expected a list object, got {:?}", other),
    };
    autosurgeon::reconcile_insert(&mut doc, list, 1, &9u64).unwrap();
    let back: Vec<u64> = hydrate_prop(&doc, ROOT, &Prop::key("vals")).unwrap();
    assert_eq!(back, vec![1, 9, 2]);
}

#[test]
fn read_uint_reads_back_exactly() {
    let mut doc = Doc::new();
    reconcile_prop(&mut doc, ROOT, &Prop::key("n"), &7u64).unwrap();
    assert_eq!(autosurgeon::read_uint(&doc, ROOT, &Prop::key("n")).unwrap(), 7);
    assert!(autosurgeon::read_uint(&doc, ROOT, &Prop::key("missing")).is_err());
    reconcile_prop(&mut doc, ROOT, &Prop::key("s"), &"hi".to_string()).unwrap();
    assert!(autosurgeon::read_uint(&doc, ROOT, &Prop::key("s")).is_err());
    assert_eq!(autosurgeon::read_string(&doc, ROOT, &Prop::key("s")).unwrap(), "hi");
}

#[test]
fn seq_set_matching_keys_updates_in_place() {
    let mut doc = Doc::new();
    reconcile_prop(
        &mut doc,
        ROOT,
        &Prop::key("items"),
        &vec![Person { id: "item1".to_string(), name: "original".to_string() }],
    )
    .unwrap();
    let _ = doc.take_ops();
    reconcile_prop(
        &mut doc,
        ROOT,
        &Prop::key("items"),
        &vec![Person { id: "item1".to_string(), name: "updated".to_string() }],
    )
    .unwrap();
    let ops = doc.take_ops();
    // same identity key: the element's object is kept, only fields written
    assert!(ops.iter().all(|op| matches!(op, WriteOp::Put { .. })), "{:?}", ops);
}

#[test]
fn seq_set_fresh_over_keyed_creates_new_object() {
    let mut doc = Doc::new();
    reconcile_prop(
        &mut doc,
        ROOT,
        &Prop::key("items"),
        &vec![Person { id: "item1".to_string(), name: "original".to_string() }],
    )
    .unwrap();
    let _ = doc.take_ops();
    reconcile_prop(
        &mut doc,
        ROOT,
        &Prop::key("items"),
        &vec![FreshItem { id: "item1".to_string(), name: "fresh_value".to_string() }],
    )
    .unwrap();
    let ops = doc.take_ops();
    // the incoming element carries no key, so it takes a fresh identity
    assert!(ops.iter().any(|op| matches!(op, WriteOp::Delete { .. })), "{:?}", ops);
    assert!(ops.iter().any(|op| matches!(op, WriteOp::InsertObject { .. })), "{:?}", ops);
}

#[test]
fn retain_keeps_approved_entries() {
    let mut doc = Doc::new();
    let rec = Reconciler { target: autosurgeon::Target::Root, heads: 0 };
    let m = rec.map(&mut doc).unwrap();
    m.put(&mut doc, "one", &1u64).unwrap();
    m.put(&mut doc, "two", &2u64).unwrap();
    m.put(&mut doc, "three", &3u64).unwrap();
    m.retain(&mut doc, |k: &String, _n: &autosurgeon::Node| k.len() == 3).unwrap();
    let back: Vec<(String, u64)> = hydrate_map_entries(&doc, ROOT).unwrap();
    assert_eq!(back, vec![("one".to_string(), 1), ("two".to_string(), 2)]);
}

#[test]
fn parse_u64_key_reads_decimals_exactly() {
    assert_eq!(autosurgeon::parse_u64_key("123").unwrap(), 123);
    assert_eq!(autosurgeon::parse_u64_key("0").unwrap(), 0);
    assert!(matches!(
        autosurgeon::parse_u64_key("12x"),
        Err(HydrateError::Parse(_))
    ));
    assert!(matches!(autosurgeon::parse_u64_key(""), Err(HydrateError::Parse(_))));
    assert!(matches!(
        autosurgeon::parse_u64_key("99999999999999999999999"),
        Err(HydrateError::Parse(_))
    ));
}

#[test]
fn hydrate_parsed_entries_parses_keys() {
    let mut doc = Doc::new();
    doc.put(ROOT, &Prop::key("123"), ScalarVal::Str("one-two-three".to_string())).unwrap();
    doc.put(ROOT, &Prop::key("456"), ScalarVal::Str("four-five-six".to_string())).unwrap();
    let back: Vec<(u64, String)> = autosurgeon::hydrate_parsed_entries(&doc, ROOT).unwrap();
    assert_eq!(
        back,
        vec![(123, "one-two-three".to_string()), (456, "four-five-six".to_string())]
    );
    doc.put(ROOT, &Prop::key("not-a-number"), ScalarVal::Str("seven".to_string())).unwrap();
    let bad = autosurgeon::hydrate_parsed_entries::<String>(&doc, ROOT);
    assert!(matches!(bad, Err(HydrateError::Parse(_))));
}
