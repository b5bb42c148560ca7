//! A newtype for `Vec<u8>` which encodes to a bytes scalar. A bare byte
//! vector would otherwise collide with the element-wise sequence encoding of
//! vectors.

use vstd::prelude::*;

use crate::doc::{clone_bytes, Doc};
use crate::hydrate::{Hydrate, HydrateError};
use crate::prop::Prop;
use crate::reconcile::{KeyVal, LoadKey, Reconcile, ReconcileError, Reconciler};

verus! {

/// A byte string which reconciles to a single bytes scalar of the document.
#[derive(Debug, PartialEq, Eq)]
pub struct ByteVec(pub Vec<u8>);

impl ByteVec {
    /// The bytes held.
    pub open spec fn bytes_m(&self) -> Seq<u8> {
        self.0@
    }

    /// Wrap a byte vector.
    pub fn new(bytes: Vec<u8>) -> (r: ByteVec)
        ensures
            r.bytes_m() == bytes@,
    {
        ByteVec(bytes)
    }

    /// The bytes held, as a vector.
    pub fn as_bytes(&self) -> (r: &Vec<u8>)
        ensures
            r@ == self.bytes_m(),
    {
        &self.0
    }
}

impl Reconcile for ByteVec {
    fn key(&self) -> (r: LoadKey<KeyVal>) {
        LoadKey::NoKey
    }

    fn hydrate_key(doc: &Doc, obj: usize, prop: &Prop) -> (r: Result<
        LoadKey<KeyVal>,
        ReconcileError,
    >) {
        let _ = doc;
        let _ = obj;
        let _ = prop;
        Ok(LoadKey::NoKey)
    }

    fn reconcile(&self, doc: &mut Doc, rec: &Reconciler) -> (res: Result<(), ReconcileError>)
        ensures
            rec.scalar_write_res(
                *old(doc),
                *final(doc),
                crate::doc::ScalarM::Bytes(self.bytes_m()),
                res,
            ),
    {
        rec.bytes(doc, &self.0)
    }
}

impl Hydrate for ByteVec {
    open spec fn from_bytes(bs: Seq<u8>, v: Self) -> bool {
        v.bytes_m() == bs
    }

    fn hydrate_bytes(bytes: &Vec<u8>) -> (r: Result<Self, HydrateError>)
        ensures
            r matches Ok(b) && b.bytes_m() == bytes@,
    {
        Ok(ByteVec(clone_bytes(bytes)))
    }
}

} // verus!
