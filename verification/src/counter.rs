//! The counter state machine: a fresh counter reconciles by setting its
//! absolute value; a rehydrated one applies only its accumulated increment
//! as a relative delta, so concurrent increments from different writers sum
//! rather than overwrite.

use vstd::prelude::*;

use crate::doc::{Doc, NodeM, ScalarM, WriteOpM};
use crate::hydrate::{Hydrate, HydrateError};
use crate::prop::Prop;
use crate::reconcile::{
    lemma_frame_refl, KeyVal, LoadKey, Reconcile, ReconcileError, Reconciler, TargetM,
};

verus! {

enum CState {
    Fresh(i64),
    Rehydrated { original: i64, increment: i64 },
}

/// A value which reconciles to a counter of the document.
///
/// A counter hydrated from a document remembers the value it was read at and
/// only ever accumulates increments on top; reconciling writes the relative
/// delta, never the absolute value, so that merges sum concurrent counts.
pub struct Counter {
    state: CState,
}

impl Counter {
    /// Whether the counter was hydrated from a document.
    pub closed spec fn is_rehydrated(&self) -> bool {
        self.state is Rehydrated
    }

    /// The value the counter was read at, or the fresh starting value.
    pub closed spec fn original_m(&self) -> int {
        match self.state {
            CState::Fresh(v) => v as int,
            CState::Rehydrated { original, .. } => original as int,
        }
    }

    /// The increment accumulated since hydration; a fresh counter folds
    /// increments into its value instead.
    pub closed spec fn increment_m(&self) -> int {
        match self.state {
            CState::Fresh(_) => 0,
            CState::Rehydrated { increment, .. } => increment as int,
        }
    }

    /// The value the counter reports: what it was read at plus everything
    /// added since.
    pub open spec fn value_m(&self) -> int {
        self.original_m() + self.increment_m()
    }

    /// A fresh counter holding `value`.
    pub fn with_value(value: i64) -> (r: Counter)
        ensures
            !r.is_rehydrated(),
            r.value_m() == value as int,
    {
        Counter { state: CState::Fresh(value) }
    }

    /// Add `by` to the counter: a fresh counter changes its value, a
    /// rehydrated one accumulates the delta.
    pub fn increment(&mut self, by: i64)
        requires
            i64::MIN <= old(self).original_m() + old(self).increment_m() + by <= i64::MAX,
            i64::MIN <= old(self).increment_m() + by <= i64::MAX,
        ensures
            final(self).is_rehydrated() == old(self).is_rehydrated(),
            old(self).is_rehydrated() ==> final(self).original_m() == old(self).original_m(),
            final(self).value_m() == old(self).value_m() + by,
    {
        match &mut self.state {
            CState::Fresh(v) => {
                *v = *v + by;
            },
            CState::Rehydrated { increment, .. } => {
                *increment = *increment + by;
            },
        }
    }

    /// The current value of the counter.
    pub fn value(&self) -> (r: i64)
        requires
            i64::MIN <= self.value_m() <= i64::MAX,
        ensures
            r as int == self.value_m(),
    {
        match &self.state {
            CState::Fresh(v) => *v,
            CState::Rehydrated { original, increment } => *original + *increment,
        }
    }

    /// Reconcile the counter with the document: a fresh counter sets its
    /// absolute value, a rehydrated one applies only its accumulated
    /// increment as a relative delta.
    pub fn reconcile_counter(&self, doc: &mut Doc, rec: &Reconciler) -> (res: Result<
        (),
        ReconcileError,
    >)
        requires
            old(doc).wf(),
            rec.target_ok(*old(doc)),
        ensures
            rec.frame(*old(doc), *final(doc)),
            res is Ok ==> rec.good(*old(doc), *final(doc)),
            res is Ok ==> crate::reconcile::kind_fitting(rec.target@, *old(doc), *final(doc)),
            res is Ok ==> match rec.target@ {
                TargetM::Slot { obj, prop } => final(doc).slot(obj, prop) matches Some(
                    NodeM::Scalar(_),
                ),
                _ => true,
            },
            !self.is_rehydrated() && !(rec.target@ is Root) ==> rec.scalar_write_res(
                *old(doc),
                *final(doc),
                ScalarM::Counter((self.value_m()) as i64),
                res,
            ),
            self.is_rehydrated() && (match rec.target@ {
                TargetM::Slot { obj, prop } => old(doc).slot(obj, prop) matches Some(
                    NodeM::Scalar(ScalarM::Counter(c)),
                ) && i64::MIN <= c + self.increment_m() <= i64::MAX,
                _ => false,
            }) ==> res is Ok && (match rec.target@ {
                TargetM::Slot { obj, prop } => {
                    &&& (final(doc).slot(obj, prop) matches Some(
                        NodeM::Scalar(ScalarM::Counter(c2)),
                    ) && c2 == (match old(doc).slot(obj, prop) {
                        Some(NodeM::Scalar(ScalarM::Counter(c))) => c + self.increment_m(),
                        _ => 0,
                    }))
                    // only the accumulated delta is written, as a relative
                    // increment — never the absolute value
                    &&& final(doc).log_m() == old(doc).log_m().push(
                        WriteOpM::Increment { obj, prop, by: self.increment_m() as i64 },
                    )
                },
                _ => false,
            }),
    {
        let c = match rec.counter(doc) {
            Ok(c) => c,
            Err(e) => {
                proof {
                    lemma_frame_refl(rec.target@, *doc);
                }
                return Err(e);
            },
        };
        match &self.state {
            CState::Fresh(v) => c.set(doc, *v),
            CState::Rehydrated { increment, .. } => c.increment(doc, *increment),
        }
    }
}

/// A counter starts at zero.
impl Default for Counter {
    fn default() -> (r: Counter)
        ensures
            !r.is_rehydrated(),
            r.value_m() == 0,
    {
        Counter::with_value(0)
    }
}

impl Reconcile for Counter {
    fn key(&self) -> (r: LoadKey<KeyVal>) {
        LoadKey::NoKey
    }

    fn hydrate_key(doc: &Doc, obj: usize, prop: &Prop) -> (r: Result<
        LoadKey<KeyVal>,
        ReconcileError,
    >) {
        let _ = doc;
        let _ = obj;
        let _ = prop;
        Ok(LoadKey::NoKey)
    }

    /// Reconcile through the counter state machine.
    fn reconcile(&self, doc: &mut Doc, rec: &Reconciler) -> (res: Result<(), ReconcileError>) {
        self.reconcile_counter(doc, rec)
    }
}

impl Hydrate for Counter {
    /// A counter read from a counter scalar: rehydrated at the value read,
    /// with no increment yet.
    open spec fn from_counter(c: i64, v: Self) -> bool {
        v.is_rehydrated() && v.original_m() == c as int && v.increment_m() == 0
    }

    /// Hydrate from a counter scalar, remembering the value read.
    fn hydrate_counter(c: i64) -> (r: Result<Self, HydrateError>)
        ensures
            r matches Ok(counter) && counter.is_rehydrated() && counter.original_m() == c as int
                && counter.increment_m() == 0,
    {
        Ok(Counter { state: CState::Rehydrated { original: c, increment: 0 } })
    }
}

/// Increments commute: adding `a` and then `b` to a counter reports the same
/// value as adding `b` and then `a`, whichever order concurrent writers'
/// deltas arrive in.
pub proof fn lemma_counter_increments_commute(original: int, a: int, b: int)
    ensures
        (original + a) + b == (original + b) + a,
{
}

} // verus!
