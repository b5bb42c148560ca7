//! Keyed map reconciliation: writing a set of named entries into a map
//! object, overwriting each in place — unless the identity key of the value
//! differs from the key hydrated from what is already there, in which case
//! the entry is deleted and recreated so that it takes a fresh object
//! identity and merges as a replacement rather than silently fusing two
//! different logical items.

use vstd::prelude::*;

use crate::doc::Doc;
use crate::text::str_chars;
use crate::hydrate::{hydrate_prop, Hydrate, HydrateError};
use crate::prop::{Prop, PropM};
use crate::reconcile::{
    lemma_frame_refl, lemma_frame_trans, target_frame, MapReconciler, Reconcile, ReconcileError,
    TargetM,
};

verus! {

/// Reconcile the named `entries` into the map at `m`. An entry whose value
/// carries an identity key equal to the key hydrated from the entry already
/// present is overwritten in place; one whose key differs is deleted and
/// recreated. Afterwards every given name holds a value.
#[verifier::loop_isolation(false)]
pub fn reconcile_map_entries<T: Reconcile>(
    m: &MapReconciler,
    doc: &mut Doc,
    entries: &Vec<(String, T)>,
) -> (r: Result<(), ReconcileError>)
    requires
        old(doc).wf(),
        m.ok(*old(doc)),
    ensures
        target_frame(
            TargetM::Slot { obj: m.obj as int, prop: PropM::Index(0) },
            *old(doc),
            *final(doc),
        ),
        r is Ok ==> final(doc).objs_m()[m.obj as int] is MapObj && forall|i: int|
            0 <= i < entries@.len() ==> final(doc).slot(
                m.obj as int,
                PropM::Key(entries@[i].0@),
            ) is Some,
        r is Ok ==> forall|k2: Seq<char>|
            (forall|i: int| 0 <= i < entries@.len() ==> (#[trigger] entries@[i].0@) != k2)
                ==> #[trigger] final(doc).slot(m.obj as int, PropM::Key(k2)) == old(doc).slot(
                m.obj as int,
                PropM::Key(k2),
            ),
        entries@.len() == 0 ==> r is Ok && *final(doc) == *old(doc),
        r is Ok && entries@.len() == 1 && crate::reconcile::forced_replacement::<T>(
            *old(doc),
            m.obj as int,
            PropM::Key(entries@[0].0@),
            entries@[0].1.key_m(),
        ) ==> {
            // the keyed decision, visible at this level for a single entry: a
            // mismatched identity recreates the entry fresh, delete logged
            &&& (match final(doc).slot(m.obj as int, PropM::Key(entries@[0].0@)) {
                Some(crate::doc::NodeM::Obj(t)) => t >= old(doc).num_objs(),
                _ => true,
            })
            &&& final(doc).log_m().len() > old(doc).log_m().len()
            &&& final(doc).log_m()[old(doc).log_m().len() as int] == (crate::doc::WriteOpM::Delete {
                obj: m.obj as int,
                prop: PropM::Key(entries@[0].0@),
            })
        },
{
    let ghost g = m.obj as int;
    let ghost tc = TargetM::Slot { obj: g, prop: PropM::Index(0) };
    let ghost pre = *doc;
    proof {
        lemma_frame_refl(tc, *doc);
    }
    let mut i: usize = 0;
    while i < entries.len()
        invariant
            i <= entries.len(),
            doc.wf(),
            m.ok(*doc),
            target_frame(tc, pre, *doc),
            forall|j: int|
                0 <= j < i ==> doc.slot(g, PropM::Key(#[trigger] entries@[j].0@)) is Some,
            forall|k2: Seq<char>|
                (forall|j: int| 0 <= j < i ==> (#[trigger] entries@[j].0@) != k2)
                    ==> #[trigger] doc.slot(g, PropM::Key(k2)) == pre.slot(g, PropM::Key(k2)),
            i == 0 ==> *doc == pre,
            entries@.len() == 1 && i == 1 && crate::reconcile::forced_replacement::<T>(
                pre,
                g,
                PropM::Key(entries@[0].0@),
                entries@[0].1.key_m(),
            ) ==> {
                &&& (match doc.slot(g, PropM::Key(entries@[0].0@)) {
                    Some(crate::doc::NodeM::Obj(t)) => t >= pre.num_objs(),
                    _ => true,
                })
                &&& doc.log_m().len() > pre.log_m().len()
                &&& doc.log_m()[pre.log_m().len() as int] == (crate::doc::WriteOpM::Delete {
                    obj: g,
                    prop: PropM::Key(entries@[0].0@),
                })
            },
        decreases entries.len() - i,
    {
        let ghost before = *doc;
        let entry = &entries[i];
        let key = entry.0.as_str();
        let res = m.put(doc, key, &entry.1);
        proof {
            let t = TargetM::Slot { obj: g, prop: PropM::Key(entry.0@) };
            crate::reconcile::lemma_frame_retarget(t, tc, before, *doc);
            lemma_frame_trans(tc, pre, before, *doc);
        }
        match res {
            Ok(_) => {
                proof {
                    assert forall|j: int|
                        0 <= j < i + 1 implies doc.slot(
                        g,
                        PropM::Key(#[trigger] entries@[j].0@),
                    ) is Some by {
                        if j < i && entries@[j].0@ != entry.0@ {
                            assert(before.slot(g, PropM::Key(entries@[j].0@)) is Some);
                        }
                    }
                    assert forall|k2: Seq<char>|
                        (forall|j: int| 0 <= j < i + 1 ==> (#[trigger] entries@[j].0@) != k2)
                            implies #[trigger] doc.slot(g, PropM::Key(k2)) == pre.slot(
                        g,
                        PropM::Key(k2),
                    ) by {
                        assert(entries@[i as int].0@ != k2);
                        assert(before.slot(g, PropM::Key(k2)) == pre.slot(g, PropM::Key(k2)));
                    }
                }
            },
            Err(e) => {
                return Err(e);
            },
        }
        i += 1;
    }
    Ok(())
}

/// Hydrate every entry of the map object `obj` into a vector of named
/// values, in the document's entry order. Any other kind of object is an
/// unexpected-kind error.
#[verifier::loop_isolation(false)]
pub fn hydrate_map_entries<V: Hydrate>(doc: &Doc, obj: usize) -> (r: Result<
    Vec<(String, V)>,
    HydrateError,
>)
    requires
        doc.wf(),
        doc.is_obj(obj as int),
    ensures
        r matches Ok(es) ==> doc.objs_m()[obj as int] is MapObj && es@.map_values(
            |e: (String, V)| e.0@,
        ) == crate::doc::map_keys_of(*doc, obj as int),
        doc.objs_m()[obj as int] is MapObj && crate::doc::map_keys_of(*doc, obj as int).len()
            == 0 ==> r is Ok,
{
    match doc.object_kind(obj) {
        Some(crate::doc::ObjKind::MapObj) => {},
        _ => {
            return Err(HydrateError::unexpected("a map", "another kind of node".to_owned()));
        },
    }
    let keys = doc.map_keys(obj);
    let mut out: Vec<(String, V)> = Vec::new();
    let mut i: usize = 0;
    while i < keys.len()
        invariant
            i <= keys.len(),
            out@.len() == i,
            forall|j: int| 0 <= j < i ==> (#[trigger] out@[j].0)@ == keys@[j]@,
        decreases keys.len() - i,
    {
        let p = Prop::key(keys[i].as_str());
        match hydrate_prop::<V>(doc, obj, &p) {
            Ok(v) => out.push((crate::prop::clone_string(&keys[i]), v)),
            Err(e) => {
                return Err(e);
            },
        }
        i += 1;
    }
    proof {
        let lhs = out@.map_values(|e: (String, V)| e.0@);
        let rhs = crate::doc::map_keys_of(*doc, obj as int);
        assert(keys@.map_values(|s: String| s@) == rhs);
        assert forall|j: int| 0 <= j < lhs.len() implies #[trigger] lhs[j] == rhs[j] by {
            assert(lhs[j] == out@[j].0@);
            assert(rhs[j] == keys@.map_values(|s: String| s@)[j]);
        }
        assert(lhs =~= rhs);
    }
    Ok(out)
}


// ---------------------------------------------------------------------------
// Maps with parseable keys
// ---------------------------------------------------------------------------

/// A decimal digit.
pub open spec fn is_digit(c: char) -> bool {
    '0' <= c && c <= '9'
}

/// A non-empty, all-digit character sequence.
pub open spec fn is_dec(s: Seq<char>) -> bool {
    s.len() > 0 && forall|i: int| 0 <= i < s.len() ==> is_digit(#[trigger] s[i])
}

/// The number a digit sequence denotes.
pub open spec fn dec_val(s: Seq<char>) -> int
    decreases s.len(),
{
    if s.len() == 0 {
        0
    } else {
        dec_val(s.drop_last()) * 10 + (s.last() as int - '0' as int)
    }
}

proof fn lemma_dec_val_nonneg(s: Seq<char>)
    requires
        forall|i: int| 0 <= i < s.len() ==> is_digit(#[trigger] s[i]),
    ensures
        dec_val(s) >= 0,
    decreases s.len(),
{
    if s.len() > 0 {
        lemma_dec_val_nonneg(s.drop_last());
    }
}

/// A digit sequence denotes at least what any of its prefixes denotes.
proof fn lemma_dec_val_mono(s: Seq<char>, i: int)
    requires
        forall|j: int| 0 <= j < s.len() ==> is_digit(#[trigger] s[j]),
        0 <= i <= s.len(),
    ensures
        dec_val(s) >= dec_val(s.subrange(0, i)),
    decreases s.len() - i,
{
    if i == s.len() {
        assert(s.subrange(0, i) =~= s);
    } else {
        lemma_dec_val_nonneg(s.drop_last());
        assert(dec_val(s) >= dec_val(s.drop_last()));
        assert(s.drop_last().subrange(0, i) =~= s.subrange(0, i));
        lemma_dec_val_mono(s.drop_last(), i);
    }
}

/// Parse a map key as an unsigned decimal integer: the secondary
/// string-to-typed-key conversion of maps keyed by something other than
/// strings. A key that is not a plain decimal number, or denotes a number
/// too large, is a parse failure.
#[verifier::loop_isolation(false)]
pub fn parse_u64_key(s: &str) -> (r: Result<u64, HydrateError>)
    ensures
        is_dec(s@) && dec_val(s@) <= u64::MAX ==> (r matches Ok(v) && v as int == dec_val(s@)),
        !is_dec(s@) ==> (r matches Err(e) && e is Parse),
        is_dec(s@) && dec_val(s@) > u64::MAX ==> (r matches Err(e) && e is Parse),
{
    let cs = str_chars(s);
    if cs.len() == 0 {
        return Err(HydrateError::Parse("an empty key is not an unsigned integer".to_owned()));
    }
    let mut acc: u64 = 0;
    let mut i: usize = 0;
    proof {
        assert(cs@.subrange(0, 0) =~= Seq::<char>::empty());
    }
    while i < cs.len()
        invariant
            i <= cs.len(),
            forall|j: int| 0 <= j < i ==> is_digit(#[trigger] cs@[j]),
            acc as int == dec_val(cs@.subrange(0, i as int)),
        decreases cs.len() - i,
    {
        let c = cs[i];
        if c < '0' || c > '9' {
            return Err(HydrateError::Parse("the key is not an unsigned integer".to_owned()));
        }
        let d = (c as u32 - '0' as u32) as u64;
        let grown = match acc.checked_mul(10) {
            Some(g) => g,
            None => {
                proof {
                    overflow_means_too_large(cs@, i as int, acc as int, d as int);
                }
                return Err(
                    HydrateError::Parse("the key denotes a number that is too large".to_owned()),
                );
            },
        };
        let next = match grown.checked_add(d) {
            Some(n) => n,
            None => {
                proof {
                    overflow_means_too_large(cs@, i as int, acc as int, d as int);
                }
                return Err(
                    HydrateError::Parse("the key denotes a number that is too large".to_owned()),
                );
            },
        };
        proof {
            assert(cs@.subrange(0, i as int + 1).drop_last() =~= cs@.subrange(0, i as int));
            assert(cs@.subrange(0, i as int + 1).last() == cs@[i as int]);
        }
        acc = next;
        i += 1;
    }
    proof {
        assert(cs@.subrange(0, cs@.len() as int) =~= cs@);
    }
    Ok(acc)
}

/// If one more digit would overflow, the whole key — if it is a decimal
/// number at all — denotes a number beyond the representable range.
proof fn overflow_means_too_large(s: Seq<char>, i: int, acc: int, d: int)
    requires
        0 <= i < s.len(),
        acc == dec_val(s.subrange(0, i)),
        0 <= d,
        d == s[i] as int - '0' as int,
        acc * 10 + d > u64::MAX,
        forall|j: int| 0 <= j < i ==> is_digit(#[trigger] s[j]),
        is_digit(s[i]),
    ensures
        is_dec(s) ==> dec_val(s) > u64::MAX,
{
    if is_dec(s) {
        assert(s.subrange(0, i + 1).drop_last() =~= s.subrange(0, i));
        assert(s.subrange(0, i + 1).last() == s[i]);
        assert(dec_val(s.subrange(0, i + 1)) == acc * 10 + d);
        lemma_dec_val_mono(s, i + 1);
    }
}

/// Hydrate every entry of the map object `obj` into a vector of values
/// under unsigned-integer keys, parsing each key. A key that is not a
/// decimal number is a parse failure, not a shape error.
#[verifier::loop_isolation(false)]
pub fn hydrate_parsed_entries<V: Hydrate>(doc: &Doc, obj: usize) -> (r: Result<
    Vec<(u64, V)>,
    HydrateError,
>)
    requires
        doc.wf(),
        doc.is_obj(obj as int),
    ensures
        r matches Ok(es) ==> doc.objs_m()[obj as int] is MapObj && es@.len()
            == crate::doc::map_keys_of(*doc, obj as int).len(),
        r matches Ok(es) ==> forall|i: int|
            0 <= i < es@.len() ==> {
                &&& is_dec(#[trigger] crate::doc::map_keys_of(*doc, obj as int)[i])
                &&& es@[i].0 as int == dec_val(crate::doc::map_keys_of(*doc, obj as int)[i])
            },
{
    let mut named = match hydrate_map_entries::<V>(doc, obj) {
        Ok(es) => es,
        Err(e) => {
            return Err(e);
        },
    };
    let mut out: Vec<(u64, V)> = Vec::new();
    let ghost n = named@.len();
    let ghost keys0 = named@.map_values(|e: (String, V)| e.0@);
    proof {
        assert(keys0 == crate::doc::map_keys_of(*doc, obj as int));
    }
    while named.len() > 0
        invariant
            out@.len() + named@.len() == n,
            keys0.len() == n,
            forall|j: int|
                0 <= j < named@.len() ==> (#[trigger] named@[j].0)@ == keys0[out@.len() + j],
            forall|i: int|
                0 <= i < out@.len() ==> is_dec(#[trigger] keys0[i]) && out@[i].0 as int == dec_val(
                    keys0[i],
                ),
        decreases named@.len(),
    {
        let e = named.remove(0);
        match parse_u64_key(e.0.as_str()) {
            Ok(k) => {
                proof {
                    if !(is_dec(e.0@) && dec_val(e.0@) <= u64::MAX) {
                        assert(false);
                    }
                }
                out.push((k, e.1));
            },
            Err(err) => {
                return Err(err);
            },
        }
    }
    Ok(out)
}

} // verus!
