//! Cooperative cancellation. One token per analysis job; long-running work
//! checks it at loop boundaries so that it stops promptly.
use vstd::prelude::*;
use std::sync::atomic::AtomicBool;
use std::sync::Arc;
use crate::error::CoreError;

verus! {

/// A shared cancellation flag; clones share the flag.
#[derive(Clone, Default)]
pub struct CancellationToken {
    flag: Arc<AtomicBool>,
}

impl CancellationToken {
    /// A token that has not been cancelled.
    pub fn new() -> (t: Self) {
        CancellationToken { flag: Arc::new(AtomicBool::new(false)) }
    }

    /// Request cancellation; every clone of this token sees it.
    pub fn cancel(&self) {
        self.flag.store(true, std::sync::atomic::Ordering::SeqCst);
    }

    /// Whether cancellation was requested. Another thread may cancel at any
    /// moment, so nothing is promised of the answer.
    pub fn is_cancelled(&self) -> (b: bool) {
        self.flag.load(std::sync::atomic::Ordering::SeqCst)
    }

    /// `Err(CoreError::Cancelled)` if cancellation was requested, else `Ok`.
    /// Cancelled is the only error it gives.
    pub fn check(&self) -> (r: Result<(), CoreError>)
        ensures
            r is Ok || r matches Err(CoreError::Cancelled),
    {
        if self.is_cancelled() {
            Err(CoreError::Cancelled)
        } else {
            Ok(())
        }
    }
}

} // verus!
