//! The text state machine: a text value captures the document's snapshot
//! token when hydrated, buffers local splices, and replays them only if the
//! document has not moved on — otherwise reconciliation fails with a
//! staleness report and performs no mutation.

use vstd::prelude::*;

use crate::doc::{clone_chars, chars_eq, Doc};
use crate::hydrate::{Hydrate, HydrateError};
use crate::prop::Prop;
use crate::reconcile::{
    lemma_frame_refl, lemma_frame_retarget, lemma_frame_trans, lemma_good_preserved,
    lemma_target_node_framed, target_frame, target_node, KeyVal, LoadKey, Reconcile,
    ReconcileError, Reconciler, StaleHeads, TargetM,
};

verus! {

/// One buffered text edit: at `pos`, delete `delete` characters and insert
/// `insert`.
#[derive(Debug)]
pub struct Splice {
    pub pos: usize,
    pub delete: usize,
    pub insert: Vec<char>,
}

/// The mathematical form of a [`Splice`].
pub struct SpliceM {
    pub pos: int,
    pub delete: int,
    pub insert: Seq<char>,
}

impl View for Splice {
    type V = SpliceM;

    open spec fn view(&self) -> SpliceM {
        SpliceM { pos: self.pos as int, delete: self.delete as int, insert: self.insert@ }
    }
}

#[derive(Debug)]
enum State {
    Fresh(Vec<char>),
    Rehydrated { value: Vec<char>, edits: Vec<Splice>, from_heads: u64 },
}

/// A value which reconciles to a text object of the document.
///
/// A fresh text reconciles by splicing its whole string in at position 0. A
/// rehydrated one keeps a shadow of the document's text, records every local
/// splice, and replays the record verbatim at reconciliation — unless the
/// document's snapshot token has moved past the one captured at hydration,
/// which fails with `StaleHeads` instead.
#[derive(Debug)]
pub struct Text {
    state: State,
}

/// A change produced by diffing two versions of a text: characters kept,
/// dropped from the old version, or added by the new one.
pub enum TextChange {
    Keep(Vec<char>),
    Drop(Vec<char>),
    Add(Vec<char>),
}

/// The old text a change list stands for: the kept and dropped runs.
pub open spec fn changes_old(cs: Seq<TextChange>) -> Seq<char>
    decreases cs.len(),
{
    if cs.len() == 0 {
        Seq::empty()
    } else {
        match cs[0] {
            TextChange::Keep(v) => v@ + changes_old(cs.drop_first()),
            TextChange::Drop(v) => v@ + changes_old(cs.drop_first()),
            TextChange::Add(_) => changes_old(cs.drop_first()),
        }
    }
}

/// The new text a change list stands for: the kept and added runs.
pub open spec fn changes_new(cs: Seq<TextChange>) -> Seq<char>
    decreases cs.len(),
{
    if cs.len() == 0 {
        Seq::empty()
    } else {
        match cs[0] {
            TextChange::Keep(v) => v@ + changes_new(cs.drop_first()),
            TextChange::Drop(_) => changes_new(cs.drop_first()),
            TextChange::Add(v) => v@ + changes_new(cs.drop_first()),
        }
    }
}

/// Relies on `similar::TextDiff::from_graphemes` and `iter_all_changes`: the
/// changes appear in order and, taken together, the equal and deleted runs
/// reproduce the old text while the equal and inserted runs reproduce the
/// new one.
#[verifier::external_body]
fn text_changes(old: &str, new: &str) -> (r: Vec<TextChange>)
    ensures
        changes_old(r@) == old@,
        changes_new(r@) == new@,
{
    let diff = similar::TextDiff::from_graphemes(old, new);
    let mut out = Vec::new();
    for ch in diff.iter_all_changes() {
        let cs: Vec<char> = ch.value().chars().collect();
        out.push(match ch.tag() {
            similar::ChangeTag::Equal => TextChange::Keep(cs),
            similar::ChangeTag::Delete => TextChange::Drop(cs),
            similar::ChangeTag::Insert => TextChange::Add(cs),
        });
    }
    out
}

/// Relies on `String::push`: appends the character to the end of the string.
#[verifier::external_body]
fn push_char(s: &mut String, c: char)
    ensures
        final(s)@ == old(s)@.push(c),
{
    s.push(c);
}

/// Relies on `str::chars`: the characters of the string, in order.
#[verifier::external_body]
pub fn str_chars(s: &str) -> (r: Vec<char>)
    ensures
        r@ == s@,
{
    s.chars().collect()
}

/// Build a string from a character vector.
pub fn chars_string(cs: &Vec<char>) -> (r: String)
    ensures
        r@ == cs@,
{
    let mut out = String::new();
    let mut i: usize = 0;
    while i < cs.len()
        invariant
            i <= cs.len(),
            out@ =~= cs@.subrange(0, i as int),
        decreases cs.len() - i,
    {
        push_char(&mut out, cs[i]);
        i += 1;
    }
    proof {
        assert(out@ =~= cs@);
    }
    out
}

/// The result of one splice on a character sequence.
pub open spec fn spliced(s: Seq<char>, pos: int, del: int, ins: Seq<char>) -> Seq<char> {
    s.subrange(0, pos) + ins + s.skip(pos + del)
}

/// The text a cursor's target holds before a text reconciliation: the
/// contents of a text object already at the slot, else nothing — a fresh
/// position or a slot of another kind starts from the empty text.
pub open spec fn target_pre_text(t: TargetM, d: Doc) -> Seq<char> {
    match t {
        TargetM::Slot { obj, prop } => match d.slot(obj, prop) {
            Some(crate::doc::NodeM::Obj(g)) => if d.kind_m(g) == crate::doc::ObjKind::TextObj {
                d.text_at(g)
            } else {
                Seq::empty()
            },
            _ => Seq::empty(),
        },
        _ => Seq::empty(),
    }
}

/// Whether one buffered edit fits the text it would be replayed on.
pub open spec fn splice_fits(t: Seq<char>, e: SpliceM) -> bool {
    0 <= e.pos && 0 <= e.delete && e.pos + e.delete <= t.len()
}

/// Replay buffered edits on a text, in order: the text they produce, or
/// nothing as soon as one of them runs past the end.
pub open spec fn replay_splices(t: Seq<char>, edits: Seq<SpliceM>) -> Option<Seq<char>>
    decreases edits.len(),
{
    if edits.len() == 0 {
        Some(t)
    } else if splice_fits(t, edits[0]) {
        replay_splices(
            spliced(t, edits[0].pos, edits[0].delete, edits[0].insert),
            edits.drop_first(),
        )
    } else {
        None
    }
}

/// Replaying one more edit applies it to the replayed text so far.
pub proof fn lemma_replay_push(t: Seq<char>, edits: Seq<SpliceM>, e: SpliceM)
    ensures
        replay_splices(t, edits.push(e)) == match replay_splices(t, edits) {
            Some(u) => if splice_fits(u, e) {
                Some(spliced(u, e.pos, e.delete, e.insert))
            } else {
                None::<Seq<char>>
            },
            None => None::<Seq<char>>,
        },
    decreases edits.len(),
{
    if edits.len() == 0 {
        assert(edits.push(e)[0] == e);
        assert(edits.push(e).drop_first() =~= Seq::<SpliceM>::empty());
        assert(replay_splices(t, edits) == Some(t));
        if splice_fits(t, e) {
            assert(replay_splices(t, edits.push(e)) == replay_splices(
                spliced(t, e.pos, e.delete, e.insert),
                edits.push(e).drop_first(),
            ));
            assert(replay_splices(t, edits.push(e)) == Some(
                spliced(t, e.pos, e.delete, e.insert),
            ));
        } else {
            assert(replay_splices(t, edits.push(e)) is None);
        }
    } else {
        assert(edits.push(e)[0] == edits[0]);
        assert(edits.push(e).drop_first() =~= edits.drop_first().push(e));
        if splice_fits(t, edits[0]) {
            let t2 = spliced(t, edits[0].pos, edits[0].delete, edits[0].insert);
            lemma_replay_push(t2, edits.drop_first(), e);
            assert(replay_splices(t, edits.push(e)) == replay_splices(
                t2,
                edits.drop_first().push(e),
            ));
            assert(replay_splices(t, edits) == replay_splices(t2, edits.drop_first()));
        } else {
            assert(replay_splices(t, edits.push(e)) is None);
            assert(replay_splices(t, edits) is None);
        }
    }
}

/// Once a replay gets stuck on an edit, the whole replay yields nothing.
pub proof fn lemma_replay_stuck(t: Seq<char>, edits: Seq<SpliceM>, i: int)
    requires
        0 <= i < edits.len(),
        replay_splices(t, edits.subrange(0, i)) matches Some(u) && !splice_fits(u, edits[i]),
    ensures
        replay_splices(t, edits) is None,
    decreases i,
{
    if i == 0 {
        assert(edits.subrange(0, 0) =~= Seq::<SpliceM>::empty());
    } else {
        assert(edits.subrange(0, i)[0] == edits[0]);
        assert(replay_splices(t, edits.subrange(0, i)) is Some);
        assert(splice_fits(t, edits[0])) by {
            if !splice_fits(t, edits.subrange(0, i)[0]) {
                assert(replay_splices(t, edits.subrange(0, i)) is None);
            }
        }
        let t2 = spliced(t, edits[0].pos, edits[0].delete, edits[0].insert);
        assert(edits.subrange(0, i).drop_first() =~= edits.drop_first().subrange(0, i - 1));
        assert(edits.drop_first()[i - 1] == edits[i]);
        lemma_replay_stuck(t2, edits.drop_first(), i - 1);
    }
}

impl Text {
    /// The text the value currently holds: the fresh string, or the shadow
    /// of the document text with all buffered edits applied.
    pub closed spec fn value_m(&self) -> Seq<char> {
        match self.state {
            State::Fresh(v) => v@,
            State::Rehydrated { value, .. } => value@,
        }
    }

    /// Whether the value was hydrated from a document rather than built
    /// fresh.
    pub closed spec fn is_rehydrated(&self) -> bool {
        self.state is Rehydrated
    }

    /// The buffered edits of a rehydrated value.
    pub closed spec fn edits_m(&self) -> Seq<SpliceM> {
        match self.state {
            State::Fresh(_) => Seq::empty(),
            State::Rehydrated { edits, .. } => edits@.map_values(|e: Splice| e@),
        }
    }

    /// The snapshot token captured when the value was hydrated.
    pub closed spec fn heads_m(&self) -> u64 {
        match self.state {
            State::Fresh(_) => 0,
            State::Rehydrated { from_heads, .. } => from_heads,
        }
    }

    /// A fresh text value holding `value`.
    pub fn with_value(value: &str) -> (r: Text)
        ensures
            r.value_m() == value@,
            !r.is_rehydrated(),
    {
        Text { state: State::Fresh(str_chars(value)) }
    }

    /// A text value rehydrated from a document: the document's text and the
    /// snapshot token it was read at.
    pub fn rehydrated(value: Vec<char>, from_heads: u64) -> (r: Text)
        ensures
            r.value_m() == value@,
            r.is_rehydrated(),
            r.edits_m() == Seq::<SpliceM>::empty(),
            r.heads_m() == from_heads,
    {
        let t = Text { state: State::Rehydrated { value, edits: Vec::new(), from_heads } };
        proof {
            assert(t.edits_m() =~= Seq::<SpliceM>::empty());
        }
        t
    }

    /// The current text.
    pub fn as_str(&self) -> (r: String)
        ensures
            r@ == self.value_m(),
    {
        match &self.state {
            State::Fresh(v) => chars_string(v),
            State::Rehydrated { value, .. } => chars_string(value),
        }
    }

    /// The character count of the current text.
    pub fn char_len(&self) -> (r: usize)
        ensures
            r == self.value_m().len(),
    {
        match &self.state {
            State::Fresh(v) => v.len(),
            State::Rehydrated { value, .. } => value.len(),
        }
    }

    /// Splice the text in memory: at character position `pos`, delete `del`
    /// characters — a negative `del` deletes the characters just before
    /// `pos` — and insert `insert`. A rehydrated value also appends the
    /// normalized edit to its buffer, to be replayed at reconciliation.
    pub fn splice(&mut self, pos: usize, del: isize, insert: &str)
        requires
            splice_start(pos as int, del as int) + splice_count(del as int) <= old(
                self,
            ).value_m().len(),
        ensures
            final(self).value_m() == spliced(
                old(self).value_m(),
                splice_start(pos as int, del as int),
                splice_count(del as int),
                insert@,
            ),
            final(self).is_rehydrated() == old(self).is_rehydrated(),
            final(self).heads_m() == old(self).heads_m(),
            final(self).edits_m() == if old(self).is_rehydrated() {
                old(self).edits_m().push(
                    SpliceM {
                        pos: splice_start(pos as int, del as int),
                        delete: splice_count(del as int),
                        insert: insert@,
                    },
                )
            } else {
                Seq::<SpliceM>::empty()
            },
    {
        let count: usize = if del >= 0 {
            del as usize
        } else {
            ((-(del + 1)) as usize) + 1
        };
        proof {
            assert(count as int == splice_count(del as int));
        }
        let start: usize = if del < 0 {
            if count <= pos {
                pos - count
            } else {
                0
            }
        } else {
            pos
        };
        let ins = str_chars(insert);
        match &mut self.state {
            State::Fresh(v) => {
                let nv = splice_chars(v, start, count, &ins);
                *v = nv;
            },
            State::Rehydrated { value, edits, .. } => {
                let nv = splice_chars(value, start, count, &ins);
                *value = nv;
                let ghost edits0 = edits@;
                edits.push(Splice { pos: start, delete: count, insert: ins });
                proof {
                    assert(edits@.map_values(|e: Splice| e@) =~= edits0.map_values(
                        |e: Splice| e@,
                    ).push(
                        SpliceM {
                            pos: start as int,
                            delete: count as int,
                            insert: insert@,
                        },
                    ));
                }
            },
        }
    }

    /// Replace the whole text with `new_value`. A fresh value just takes the
    /// string; a rehydrated one diffs the shadow against `new_value` and
    /// buffers the equivalent splices, for callers who only have
    /// before/after snapshots rather than edit events.
    pub fn update(&mut self, new_value: &str)
        ensures
            final(self).value_m() == new_value@,
            final(self).is_rehydrated() == old(self).is_rehydrated(),
            final(self).heads_m() == old(self).heads_m(),
            old(self).is_rehydrated() ==> old(self).edits_m().is_prefix_of(
                final(self).edits_m(),
            ) && replay_splices(
                old(self).value_m(),
                final(self).edits_m().skip(old(self).edits_m().len() as int),
            ) == Some(new_value@),
            !old(self).is_rehydrated() ==> final(self).edits_m() == Seq::<SpliceM>::empty(),
    {
        match &self.state {
            State::Fresh(_) => {
                self.state = State::Fresh(str_chars(new_value));
            },
            State::Rehydrated { value, .. } => {
                let old_str = chars_string(value);
                let changes = text_changes(old_str.as_str(), new_value);
                let mut idx: usize = 0;
                let mut ci: usize = 0;
                proof {
                    assert(changes@.skip(0) =~= changes@);
                    assert(self.value_m() =~= changes_new(changes@.subrange(0, 0)) + changes_old(
                        changes@.skip(0),
                    ));
                    assert(self.edits_m().skip(self.edits_m().len() as int) =~= Seq::<
                        SpliceM,
                    >::empty());
                    assert(self.edits_m().subrange(0, self.edits_m().len() as int)
                        =~= self.edits_m());
                }
                while ci < changes.len()
                    invariant
                        ci <= changes.len(),
                        idx == changes_new(changes@.subrange(0, ci as int)).len(),
                        self.is_rehydrated() == old(self).is_rehydrated(),
                        old(self).is_rehydrated(),
                        self.heads_m() == old(self).heads_m(),
                        self.value_m() =~= changes_new(changes@.subrange(0, ci as int))
                            + changes_old(changes@.skip(ci as int)),
                        old(self).edits_m().is_prefix_of(self.edits_m()),
                        replay_splices(
                            old(self).value_m(),
                            self.edits_m().skip(old(self).edits_m().len() as int),
                        ) == Some(self.value_m()),
                    decreases changes.len() - ci,
                {
                    proof {
                        assert(changes@.skip(ci as int)[0] == changes@[ci as int]);
                        assert(changes@.skip(ci as int).drop_first() =~= changes@.skip(
                            ci as int + 1,
                        ));
                        assert(changes@.subrange(0, ci as int).push(changes@[ci as int])
                            =~= changes@.subrange(0, ci as int + 1));
                        lemma_changes_new_push(changes@.subrange(0, ci as int), changes@[ci as int]);
                    }
                    let ghost prefix = changes@.subrange(0, ci as int);
                    let ghost rest = changes@.skip(ci as int + 1);
                    match &changes[ci] {
                        TextChange::Keep(v) => {
                            proof {
                                assert(changes_old(changes@.skip(ci as int)) == v@ + changes_old(
                                    rest,
                                ));
                                assert(changes_new(changes@.subrange(0, ci as int + 1))
                                    =~= changes_new(prefix) + v@);
                            }
                            let l = self.char_len();
                            proof {
                                assert(self.value_m() =~= changes_new(prefix) + (v@ + changes_old(
                                    rest,
                                )));
                                assert(idx + v@.len() <= l);
                                assert(self.value_m() =~= (changes_new(prefix) + v@)
                                    + changes_old(rest));
                            }
                            idx = idx + v.len();
                        },
                        TextChange::Drop(v) => {
                            proof {
                                assert(changes_old(changes@.skip(ci as int)) == v@ + changes_old(
                                    rest,
                                ));
                                assert(changes_new(changes@.subrange(0, ci as int + 1))
                                    =~= changes_new(prefix));
                                assert(self.value_m() =~= changes_new(prefix) + (v@ + changes_old(
                                    rest,
                                )));
                            }
                            let l = self.char_len();
                            proof {
                                assert(idx + v@.len() <= l);
                            }
                            let dl = v.len();
                            let ghost pre_edits = self.edits_m();
                            let ghost pre_value = self.value_m();
                            self.splice_internal(idx, dl);
                            proof {
                                assert(self.value_m() =~= changes_new(prefix) + changes_old(rest));
                                let base = old(self).edits_m().len() as int;
                                let e = SpliceM {
                                    pos: idx as int,
                                    delete: dl as int,
                                    insert: Seq::<char>::empty(),
                                };
                                assert(self.edits_m().skip(base) =~= pre_edits.skip(base).push(e));
                                lemma_replay_push(old(self).value_m(), pre_edits.skip(base), e);
                            }
                        },
                        TextChange::Add(v) => {
                            proof {
                                assert(changes_old(changes@.skip(ci as int)) == changes_old(rest));
                                assert(changes_new(changes@.subrange(0, ci as int + 1))
                                    =~= changes_new(prefix) + v@);
                                assert(self.value_m() =~= changes_new(prefix) + changes_old(
                                    changes@.skip(ci as int),
                                ));
                                assert(idx <= self.value_m().len());
                            }
                            let ghost pre_edits = self.edits_m();
                            self.splice_insert_internal(idx, v);
                            proof {
                                assert(self.value_m() =~= (changes_new(prefix) + v@)
                                    + changes_old(rest));
                                let base = old(self).edits_m().len() as int;
                                let e = SpliceM { pos: idx as int, delete: 0, insert: v@ };
                                assert(self.edits_m().skip(base) =~= pre_edits.skip(base).push(e));
                                lemma_replay_push(old(self).value_m(), pre_edits.skip(base), e);
                            }
                            let l = self.char_len();
                            proof {
                                assert(idx + v@.len() <= l);
                            }
                            idx = idx + v.len();
                        },
                    }
                    ci += 1;
                }
                proof {
                    assert(changes@.skip(changes@.len() as int)
                        =~= Seq::<TextChange>::empty());
                    assert(changes@.subrange(0, ci as int) =~= changes@);
                    assert(self.value_m() =~= new_value@);
                }
            },
        }
    }

    /// Delete `del` characters at `pos`, recording the edit.
    fn splice_internal(&mut self, pos: usize, del: usize)
        requires
            pos + del <= old(self).value_m().len(),
        ensures
            final(self).value_m() == spliced(
                old(self).value_m(),
                pos as int,
                del as int,
                Seq::<char>::empty(),
            ),
            final(self).is_rehydrated() == old(self).is_rehydrated(),
            final(self).heads_m() == old(self).heads_m(),
            final(self).edits_m() == if old(self).is_rehydrated() {
                old(self).edits_m().push(
                    SpliceM { pos: pos as int, delete: del as int, insert: Seq::<char>::empty() },
                )
            } else {
                Seq::<SpliceM>::empty()
            },
    {
        let empty: Vec<char> = Vec::new();
        match &mut self.state {
            State::Fresh(v) => {
                let nv = splice_chars(v, pos, del, &empty);
                *v = nv;
            },
            State::Rehydrated { value, edits, .. } => {
                let nv = splice_chars(value, pos, del, &empty);
                *value = nv;
                edits.push(Splice { pos, delete: del, insert: empty });
            },
        }
    }

    /// Insert `ins` at `pos`, recording the edit.
    fn splice_insert_internal(&mut self, pos: usize, ins: &Vec<char>)
        requires
            pos <= old(self).value_m().len(),
        ensures
            final(self).value_m() == spliced(old(self).value_m(), pos as int, 0, ins@),
            final(self).is_rehydrated() == old(self).is_rehydrated(),
            final(self).heads_m() == old(self).heads_m(),
            final(self).edits_m() == if old(self).is_rehydrated() {
                old(self).edits_m().push(SpliceM { pos: pos as int, delete: 0, insert: ins@ })
            } else {
                Seq::<SpliceM>::empty()
            },
    {
        match &mut self.state {
            State::Fresh(v) => {
                let nv = splice_chars(v, pos, 0, ins);
                *v = nv;
            },
            State::Rehydrated { value, edits, .. } => {
                let nv = splice_chars(value, pos, 0, ins);
                *value = nv;
                edits.push(Splice { pos, delete: 0, insert: clone_chars(ins) });
            },
        }
    }

    /// Reconcile the text with the document. A fresh value splices its whole
    /// string in at position 0; a rehydrated one first compares the snapshot
    /// token it was hydrated at with the cursor's — failing with
    /// `StaleHeads` and writing nothing if they differ — and then replays
    /// its buffered edits verbatim.
    pub fn reconcile_text(&self, doc: &mut Doc, rec: &Reconciler) -> (res: Result<
        (),
        ReconcileError,
    >)
        requires
            old(doc).wf(),
            rec.target_ok(*old(doc)),
        ensures
            rec.frame(*old(doc), *final(doc)),
            res is Ok ==> rec.good(*old(doc), *final(doc)),
            res is Ok ==> crate::reconcile::kind_fitting(rec.target@, *old(doc), *final(doc)),
            self.is_rehydrated() && !(rec.target@ is Root) && self.heads_m() != rec.heads ==> (res
                matches Err(ReconcileError::StaleHeads(s)) && s.expected == self.heads_m()
                && s.found == rec.heads && *final(doc) == *old(doc)),
            !self.is_rehydrated() && !(rec.target@ is Root) ==> res is Ok,
            !self.is_rehydrated() && !(rec.target@ is Root) ==> (match target_node(
                rec.target@,
                *final(doc),
            ) {
                Some(crate::doc::NodeM::Obj(g)) => final(doc).kind_m(g)
                    == crate::doc::ObjKind::TextObj && final(doc).text_at(g) == self.value_m()
                    + target_pre_text(rec.target@, *old(doc)),
                _ => false,
            }),
            self.is_rehydrated() && !(rec.target@ is Root) && self.heads_m() == rec.heads
                ==> match replay_splices(
                target_pre_text(rec.target@, *old(doc)),
                self.edits_m(),
            ) {
                Some(t2) => res is Ok && (match target_node(rec.target@, *final(doc)) {
                    Some(crate::doc::NodeM::Obj(g)) => final(doc).kind_m(g)
                        == crate::doc::ObjKind::TextObj && final(doc).text_at(g) == t2,
                    _ => false,
                }),
                None => res == Err::<(), ReconcileError>(
                    ReconcileError::Doc(crate::doc::DocError::OutOfBounds),
                ),
            },
    {
        let ghost pre = *doc;
        let ghost pt = target_pre_text(rec.target@, pre);
        match &self.state {
            State::Rehydrated { from_heads, .. } => {
                if !(rec.target_is_root()) && *from_heads != rec.heads() {
                    proof {
                        lemma_frame_refl(rec.target@, *doc);
                    }
                    return Err(ReconcileError::StaleHeads(StaleHeads {
                        expected: *from_heads,
                        found: rec.heads(),
                    }));
                }
            },
            State::Fresh(_) => {},
        }
        let t = match rec.text(doc) {
            Ok(t) => t,
            Err(e) => {
                proof {
                    lemma_frame_refl(rec.target@, *doc);
                }
                return Err(e);
            },
        };
        let ghost mid = *doc;
        let ghost g = t.obj as int;
        let ghost tc = TargetM::Slot { obj: g, prop: crate::prop::PropM::Index(0) };
        proof {
            lemma_frame_refl(tc, *doc);
            if rec.target@ is Root {
                assert(pre.objs_m()[0] is MapObj);
                assert(false);
            }
            assert(crate::reconcile::target_obj(rec.target@) < g);
            // the cursor starts from the text the target already held: a
            // reused text object keeps its contents, anything else is fresh
            // and empty
            assert(mid.text_at(g) == pt && target_node(rec.target@, mid) == Some(
                crate::doc::NodeM::Obj(g),
            )) by {
                match rec.target@ {
                    TargetM::Slot { obj, prop } => {
                        match pre.slot(obj, prop) {
                            Some(crate::doc::NodeM::Obj(g0)) => {
                                if pre.kind_m(g0) == crate::doc::ObjKind::TextObj {
                                    assert(g == g0 && mid == pre);
                                } else {
                                    assert(mid.objs_m()[g] == crate::doc::empty_obj_m(
                                        crate::doc::ObjKind::TextObj,
                                    ));
                                }
                            },
                            _ => {
                                assert(mid.objs_m()[g] == crate::doc::empty_obj_m(
                                    crate::doc::ObjKind::TextObj,
                                ));
                            },
                        }
                    },
                    TargetM::Fresh { obj, index } => {
                        assert(mid.objs_m()[g] == crate::doc::empty_obj_m(
                            crate::doc::ObjKind::TextObj,
                        ));
                        assert(mid.list_m(obj)[index] == crate::doc::NodeM::Obj(g));
                    },
                    TargetM::Root => {},
                }
            }
        }
        match &self.state {
            State::Fresh(v) => {
                match t.splice(doc, 0, 0, v) {
                    Ok(_) => {
                        proof {
                            assert(doc.text_at(g) =~= v@ + pt);
                        }
                    },
                    Err(_) => {
                        proof {
                            assert(false);
                        }
                    },
                }
            },
            State::Rehydrated { edits, .. } => {
                let ghost em = edits@.map_values(|e: Splice| e@);
                let mut i: usize = 0;
                proof {
                    assert(em =~= self.edits_m());
                    assert(em.subrange(0, 0) =~= Seq::<SpliceM>::empty());
                }
                while i < edits.len()
                    invariant
                        i <= edits.len(),
                        doc.wf(),
                        t.ok(*doc),
                        target_frame(tc, mid, *doc),
                        g == t.obj as int,
                        tc == (TargetM::Slot { obj: g, prop: crate::prop::PropM::Index(0) }),
                        crate::reconcile::target_obj(rec.target@) < g,
                        pre == *old(doc),
                        target_frame(rec.target@, pre, mid),
                        !(rec.target@ is Root) ==> self.heads_m() == rec.heads,
                        em == edits@.map_values(|e: Splice| e@),
                        em == self.edits_m(),
                        pt == target_pre_text(rec.target@, pre),
                        replay_splices(pt, em.subrange(0, i as int)) == Some(doc.text_at(g)),
                        target_node(rec.target@, *doc) == Some(crate::doc::NodeM::Obj(g)),
                    decreases edits.len() - i,
                {
                    let ghost before = *doc;
                    let e = &edits[i];
                    proof {
                        assert(em[i as int] == edits@[i as int]@);
                    }
                    match t.splice(doc, e.pos, e.delete, &e.insert) {
                        Ok(_) => {
                            proof {
                                assert forall|x: int|
                                    0 <= x < before.num_objs() && x < g implies doc.objs_m()[x]
                                    == before.objs_m()[x] by {
                                    assert(x != t.obj as int);
                                }
                                assert(target_frame(tc, before, *doc));
                                lemma_frame_trans(tc, mid, before, *doc);
                                assert(em.subrange(0, i as int + 1) =~= em.subrange(
                                    0,
                                    i as int,
                                ).push(em[i as int]));
                                lemma_replay_push(pt, em.subrange(0, i as int), em[i as int]);
                                assert(splice_fits(before.text_at(g), em[i as int]));
                                assert(target_node(rec.target@, *doc) == target_node(
                                    rec.target@,
                                    before,
                                )) by {
                                    lemma_target_node_framed(rec.target@, before, *doc, g);
                                }
                            }
                        },
                        Err(err) => {
                            proof {
                                assert(target_frame(tc, before, *doc));
                                lemma_frame_trans(tc, mid, before, *doc);
                                lemma_frame_retarget(tc, rec.target@, mid, *doc);
                                lemma_frame_trans(rec.target@, pre, mid, *doc);
                                assert(!splice_fits(before.text_at(g), em[i as int]));
                                lemma_replay_stuck(pt, em, i as int);
                            }
                            return Err(err);
                        },
                    }
                    i += 1;
                }
                proof {
                    assert(em.subrange(0, edits@.len() as int) =~= em);
                }
            },
        }
        proof {
            assert(target_frame(tc, mid, *doc));
            lemma_frame_retarget(tc, rec.target@, mid, *doc);
            lemma_frame_trans(rec.target@, pre, mid, *doc);
            if !(rec.target@ is Root) {
                lemma_good_preserved(rec.target@, pre, mid, *doc, g);
                lemma_target_node_framed(rec.target@, mid, *doc, g);
            }
        }
        Ok(())
    }
}


/// Where an in-memory splice starts: at `pos`, or `-del` characters before
/// it for a negative deletion, clamped at the front of the text.
pub open spec fn splice_start(pos: int, del: int) -> int {
    if del < 0 {
        if -del <= pos {
            pos + del
        } else {
            0
        }
    } else {
        pos
    }
}

/// How many characters an in-memory splice deletes.
pub open spec fn splice_count(del: int) -> int {
    if del < 0 {
        -del
    } else {
        del
    }
}

/// Splice a character vector: keep the prefix before `pos`, drop `del`
/// characters, insert `ins`, keep the rest.
pub fn splice_chars(cs: &Vec<char>, pos: usize, del: usize, ins: &Vec<char>) -> (r: Vec<char>)
    requires
        pos + del <= cs@.len(),
    ensures
        r@ == spliced(cs@, pos as int, del as int, ins@),
{
    let mut out: Vec<char> = Vec::new();
    let mut i: usize = 0;
    while i < pos
        invariant
            i <= pos,
            pos + del <= cs@.len(),
            out@ =~= cs@.subrange(0, i as int),
        decreases pos - i,
    {
        out.push(cs[i]);
        i += 1;
    }
    let mut j: usize = 0;
    while j < ins.len()
        invariant
            j <= ins.len(),
            pos + del <= cs@.len(),
            out@ =~= cs@.subrange(0, pos as int) + ins@.subrange(0, j as int),
        decreases ins.len() - j,
    {
        out.push(ins[j]);
        j += 1;
    }
    proof {
        assert(pos + del <= cs.len());
    }
    let mut k: usize = pos + del;
    while k < cs.len()
        invariant
            pos + del <= k <= cs@.len(),
            out@ =~= cs@.subrange(0, pos as int) + ins@ + cs@.subrange(pos + del, k as int),
        decreases cs.len() - k,
    {
        out.push(cs[k]);
        k += 1;
    }
    proof {
        assert(out@ =~= spliced(cs@, pos as int, del as int, ins@));
    }
    out
}

/// Extending a change list extends the new text it stands for.
proof fn lemma_changes_new_push(cs: Seq<TextChange>, c: TextChange)
    ensures
        changes_new(cs.push(c)) == changes_new(cs) + match c {
            TextChange::Keep(v) => v@,
            TextChange::Add(v) => v@,
            TextChange::Drop(_) => Seq::<char>::empty(),
        },
    decreases cs.len(),
{
    if cs.len() == 0 {
        assert(cs.push(c).drop_first() =~= Seq::<TextChange>::empty());
        assert(changes_new(Seq::<TextChange>::empty()) == Seq::<char>::empty());
        match c {
            TextChange::Keep(v) => {
                assert(changes_new(cs.push(c)) =~= v@);
                assert(changes_new(cs) + v@ =~= v@);
            },
            TextChange::Add(v) => {
                assert(changes_new(cs.push(c)) =~= v@);
                assert(changes_new(cs) + v@ =~= v@);
            },
            TextChange::Drop(_) => {
                assert(changes_new(cs.push(c)) =~= Seq::<char>::empty());
                assert(changes_new(cs) + Seq::<char>::empty() =~= Seq::<char>::empty());
            },
        }
    } else {
        lemma_changes_new_push(cs.drop_first(), c);
        assert(cs.push(c).drop_first() =~= cs.drop_first().push(c));
        match cs[0] {
            TextChange::Keep(v) => {
                assert(changes_new(cs.push(c)) =~= changes_new(cs) + change_new_part(c));
            },
            TextChange::Drop(_) => {},
            TextChange::Add(v) => {
                assert(changes_new(cs.push(c)) =~= changes_new(cs) + change_new_part(c));
            },
        }
    }
}

/// The contribution of one change to the new text.
pub open spec fn change_new_part(c: TextChange) -> Seq<char> {
    match c {
        TextChange::Keep(v) => v@,
        TextChange::Add(v) => v@,
        TextChange::Drop(_) => Seq::empty(),
    }
}

impl Reconcile for Text {
    fn key(&self) -> (r: LoadKey<KeyVal>) {
        LoadKey::NoKey
    }

    fn hydrate_key(doc: &Doc, obj: usize, prop: &Prop) -> (r: Result<
        LoadKey<KeyVal>,
        ReconcileError,
    >) {
        let _ = doc;
        let _ = obj;
        let _ = prop;
        Ok(LoadKey::NoKey)
    }

    /// Reconcile through the text state machine.
    fn reconcile(&self, doc: &mut Doc, rec: &Reconciler) -> (res: Result<(), ReconcileError>) {
        self.reconcile_text(doc, rec)
    }
}

impl Hydrate for Text {
    /// A text value read from a text object: its shadow is the document
    /// text, its edit buffer is empty, and it captured the snapshot token.
    open spec fn from_text(d: Doc, obj: int, v: Self) -> bool {
        &&& v.is_rehydrated()
        &&& v.value_m() == d.text_at(obj)
        &&& v.edits_m() == Seq::<SpliceM>::empty()
        &&& v.heads_m() == d.heads_m()
    }

    /// Hydrate from a text object, capturing the document's snapshot token
    /// for the staleness check.
    fn hydrate_text(doc: &Doc, obj: usize) -> (r: Result<Self, HydrateError>)
        ensures
            doc.kind_m(obj as int) == crate::doc::ObjKind::TextObj ==> (r matches Ok(t) && {
                &&& t.is_rehydrated()
                &&& t.value_m() == doc.text_at(obj as int)
                &&& t.edits_m() == Seq::<SpliceM>::empty()
                &&& t.heads_m() == doc.heads_m()
            }),
    {
        match doc.text_chars(obj) {
            Ok(cs) => Ok(Text::rehydrated(cs, doc.get_heads())),
            Err(e) => Err(HydrateError::Doc(e)),
        }
    }
}

impl PartialEq for Text {
    /// Two text values are equal when their current texts are.
    fn eq(&self, other: &Text) -> (r: bool) {
        let a = match &self.state {
            State::Fresh(v) => v,
            State::Rehydrated { value, .. } => value,
        };
        let b = match &other.state {
            State::Fresh(v) => v,
            State::Rehydrated { value, .. } => value,
        };
        chars_eq(a, b)
    }
}

impl vstd::std_specs::cmp::PartialEqSpecImpl for Text {
    open spec fn obeys_eq_spec() -> bool {
        true
    }

    open spec fn eq_spec(&self, other: &Text) -> bool {
        self.value_m() == other.value_m()
    }
}

impl Eq for Text {}

} // verus!
