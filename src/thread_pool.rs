use vstd::prelude::*;
use crate::error::{Error, ErrorKind};

verus! {

/// The fewest workers a pool may have.
pub const MIN_THREAD_POOL_SIZE: usize = 1;

/// The most workers a pool may have.
pub const MAX_THREAD_POOL_SIZE: usize = 10;

/// Accepts a worker count within the pool's bounds; anything else is a
/// configuration error.
pub fn check_pool_size(size: usize) -> (r: Result<usize, Error>)
    ensures
        match r {
            Ok(n) => n == size && MIN_THREAD_POOL_SIZE <= size <= MAX_THREAD_POOL_SIZE,
            Err(e) => !(MIN_THREAD_POOL_SIZE <= size <= MAX_THREAD_POOL_SIZE) && e.kind_of() == ErrorKind::InvalidInput,
        },
{
    if size < MIN_THREAD_POOL_SIZE || size > MAX_THREAD_POOL_SIZE {
        return Err(Error::new(ErrorKind::InvalidInput, "Invalid thread pool size".to_owned()));
    }
    Ok(size)
}

} // verus!
