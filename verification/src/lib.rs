//! Verified kernel logic of a small teaching operating system: the
//! semaphore used for thread synchronisation and the decision logic of the
//! file and process system calls.
use vstd::prelude::*;

pub mod sync;
pub mod syscall;

verus! {

} // verus!
