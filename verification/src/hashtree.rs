//! Hash trees that answer `get` by index.

use crate::entry::Entry;
use crate::log::Slate;
use crate::storage::{Error, Storage};
use vstd::prelude::*;

pub mod binary;
pub mod creation;

verus! {

/// What every hash tree offers: its number of leaves and the payload at an
/// index.
pub trait HashTree {
    /// The error that a lookup may end in.
    type Error;

    /// The payloads of the leaves, in order, as far as the tree is known to
    /// hold them.
    spec fn leaves(&self) -> Seq<Seq<u8>>;

    /// Whether a lookup of `index` is owed an answer: what the tree reads
    /// from does not fail and holds what the lookup needs.
    spec fn available(&self, index: u64) -> bool;

    /// Number of leaves.
    fn size(&self) -> (n: u64)
        ensures
            n == self.leaves().len(),
    ;

    /// The payload of leaf `index`, counted from one; `None` outside
    /// `1..=size()`. The lookup succeeds wherever it is owed an answer.
    fn get(&self, index: u64) -> (r: Result<Option<Vec<u8>>, Self::Error>)
        ensures
            self.available(index) ==> r is Ok,
            r matches Ok(found) ==> match found {
                Some(data) => 1 <= index <= self.leaves().len() && data@ == self.leaves()[index
                    - 1],
                None => index == 0 || index > self.leaves().len(),
            },
    ;
}

/// The append-only log seen as a hash tree.
pub struct SlateHashTree<S: Storage<Entry>>(Slate<S>);

impl<S: Storage<Entry>> SlateHashTree<S> {
    #[verifier::type_invariant]
    spec fn valid(&self) -> bool {
        self.0.wf()
    }

    /// The log behind the tree.
    pub closed spec fn log(&self) -> Slate<S> {
        self.0
    }

    /// The tree over a log.
    pub fn new(log: Slate<S>) -> (tree: Self)
        requires
            log.wf(),
        ensures
            tree.log() == log,
    {
        SlateHashTree(log)
    }

    /// Gives the log back.
    pub fn into_log(self) -> (log: Slate<S>)
        ensures
            log == self.log(),
            log.wf(),
    {
        proof {
            use_type_invariant(&self);
        }
        self.0
    }
}

impl<S: Storage<Entry>> HashTree for SlateHashTree<S> {
    type Error = Error;

    closed spec fn leaves(&self) -> Seq<Seq<u8>> {
        self.0.payloads()
    }

    open spec fn available(&self, index: u64) -> bool {
        index == 0 || index > self.log().size() || self.log().reliable()
    }

    fn size(&self) -> (n: u64) {
        proof {
            use_type_invariant(self);
            self.0.lemma_sizes();
        }
        self.0.n()
    }

    fn get(&self, index: u64) -> (r: Result<Option<Vec<u8>>, Error>) {
        proof {
            use_type_invariant(self);
            self.0.lemma_sizes();
        }
        self.0.get(index)
    }
}

} // verus!
