//! The store as many callers share it: a handle that is cheap to copy,
//! and a lock that lets one caller at a time work on the store.

use crate::engines::kvs::{next_gen, StoreWriter};
use crate::engines::segment::{views, FileOp, Segment};
use crate::error::{KvsError, Result};
use crate::log::{all_complete, ordered};
use std::sync::Arc;
use vstd::prelude::*;
use vstd::rwlock::{RwLock, RwLockPredicate};

verus! {

/// What a store engine offers to the callers that share it.
pub trait KvsEngine: Clone + Send + 'static {
    /// Gives `key` the value `value`.
    fn set(&self, key: String, value: String) -> Result<()>;

    /// The current value of `key`, or `None` where it has none.
    fn get(&self, key: String) -> Result<Option<String>>;

    /// Takes the value of `key` away; `KeyNotFoundError` where it has none.
    fn remove(&self, key: String) -> Result<()>;
}

/// What the lock of a handle guards: a store in order.
pub struct InOrder;

impl RwLockPredicate<StoreWriter> for InOrder {
    /// The store meets its invariant.
    open spec fn inv(self, store: StoreWriter) -> bool {
        store.wf()
    }
}

/// A handle to a store that many threads share.
///
/// Every operation takes the store's lock for as long as it lasts, so the
/// operations of all handles to one store take effect one after another,
/// each as `StoreWriter` states it.
pub struct KvStore {
    writer: Arc<RwLock<StoreWriter, InOrder>>,
}

/// `Arc::clone`.
///
/// Trusted: the new pointer leads to the same value.
#[verifier::external_body]
fn share(writer: &Arc<RwLock<StoreWriter, InOrder>>) -> (shared: Arc<RwLock<StoreWriter, InOrder>>)
    ensures
        shared == writer,
{
    Arc::clone(writer)
}

impl Clone for KvStore {
    /// Another handle to the same store.
    fn clone(&self) -> (handle: Self)
        ensures
            handle == self,
    {
        KvStore { writer: share(&self.writer) }
    }
}

impl KvStore {
    /// Builds the store of a log, and gives a handle to it.
    ///
    /// Fails with `SerdeError` where a segment does not consist of whole
    /// records.
    pub fn open(segments: Vec<Segment>) -> (r: Result<KvStore>)
        requires
            ordered(views(segments@)),
            next_gen(views(segments@)) <= u64::MAX,
        ensures
            match r {
                Ok(_) => all_complete(views(segments@)),
                Err(e) => e is SerdeError && !all_complete(views(segments@)),
            },
    {
        match StoreWriter::open(segments) {
            Ok(store) => Ok(KvStore { writer: Arc::new(RwLock::new(store, Ghost(InOrder))) }),
            Err(e) => Err(e),
        }
    }

    /// Takes the file operations that were decided since the journal was
    /// last taken.
    ///
    /// They are the journal of the shared store as the lock gave it, which
    /// was in order.
    pub fn take_journal(&self) -> (ops: Vec<FileOp>)
        ensures
            exists|before: StoreWriter| #[trigger]
                before.wf() && ops@.len() == before.journal().len() && forall|i: int|
                    0 <= i < ops@.len() ==> (#[trigger] ops@[i])@ == before.journal()[i],
    {
        let (mut store, lock) = self.writer.acquire_write();
        let ghost before = store;
        let ops = store.take_journal();
        proof {
            assert(before.wf() && ops@.len() == before.journal().len() && forall|i: int|
                0 <= i < ops@.len() ==> (#[trigger] ops@[i])@ == before.journal()[i]);
        }
        lock.release_write(store);
        ops
    }
}

impl KvsEngine for KvStore {
    /// `StoreWriter::set` on the shared store as the lock gives it, which
    /// is in order before and after; it does not fail.
    fn set(&self, key: String, value: String) -> (r: Result<()>)
        ensures
            r is Ok,
            exists|before: StoreWriter, after: StoreWriter| #[trigger]
                before.wf() && #[trigger] after.wf() && after@ == before@.insert(key@, value@),
    {
        let (mut store, lock) = self.writer.acquire_write();
        let ghost before = store;
        let r = store.set(key, value);
        proof {
            assert(before.wf() && store.wf() && store@ == before@.insert(key@, value@));
        }
        lock.release_write(store);
        r
    }

    /// `StoreWriter::get` on the shared store as the lock gives it, which
    /// is in order; it does not fail.
    fn get(&self, key: String) -> (r: Result<Option<String>>)
        ensures
            r is Ok,
            exists|store: StoreWriter| #[trigger]
                store.wf() && (r matches Ok(found) && match found {
                    Some(value) => store@.contains_key(key@) && store@[key@] == value@,
                    None => !store@.contains_key(key@),
                }),
    {
        let lock = self.writer.acquire_read();
        let ghost store = lock@;
        let r = lock.borrow().get(key);
        proof {
            assert(store.wf() && (r matches Ok(found) && match found {
                Some(value) => store@.contains_key(key@) && store@[key@] == value@,
                None => !store@.contains_key(key@),
            }));
        }
        lock.release_read();
        r
    }

    /// `StoreWriter::remove` on the shared store as the lock gives it,
    /// which is in order before and after; it fails only where the key
    /// has no value, and then changes nothing.
    fn remove(&self, key: String) -> (r: Result<()>)
        ensures
            r matches Err(e) ==> e is KeyNotFoundError,
            exists|before: StoreWriter, after: StoreWriter| #[trigger]
                before.wf() && #[trigger] after.wf() && match r {
                    Ok(_) => before@.contains_key(key@) && after@ == before@.remove(key@),
                    Err(_) => !before@.contains_key(key@) && after == before,
                },
    {
        let (mut store, lock) = self.writer.acquire_write();
        let ghost before = store;
        let r = store.remove(key);
        proof {
            assert(before.wf() && store.wf() && match r {
                Ok(_) => before@.contains_key(key@) && store@ == before@.remove(key@),
                Err(_) => !before@.contains_key(key@) && store == before,
            });
        }
        lock.release_write(store);
        r
    }
}

} // verus!
