//! Arithmetic of the memory bridge: the sizes that the guest hands over as
//! 32-bit integers, and what a reallocation keeps of the old region.
use vstd::prelude::*;

verus! {

/// Why a reallocation request from the script was refused.
#[derive(Clone, Copy, Debug, PartialEq, Eq, Structural)]
pub enum ReallocError {
    /// The callback reads four arguments; fewer were given.
    Arity { got: usize },
    /// A size was negative.
    NegativeSize,
}

/// A reallocation request: `(pointer, old_size, align, new_size)`.
#[derive(Clone, Copy, Debug, PartialEq, Eq, Structural)]
pub struct ReallocRequest {
    /// Offset of the old region in the linear memory.
    pub pointer: u32,
    pub old_size: usize,
    /// Accepted and not enforced.
    pub align: i32,
    pub new_size: usize,
}

/// The number of bytes a region of the given signed size spans, or `None`
/// for a negative size, which no allocation can satisfy.
pub fn allocation_len(size: i32) -> (r: Option<usize>)
    ensures
        r is Some <==> size >= 0,
        r matches Some(n) ==> n as int == size as int,
{
    if size < 0 {
        None
    } else {
        Some(size as usize)
    }
}

/// Reads the first four arguments of the reallocation callback; any further
/// arguments are ignored.
pub fn realloc_request(args: &[i32]) -> (r: Result<ReallocRequest, ReallocError>)
    ensures
        args@.len() < 4 ==> r == Err::<ReallocRequest, ReallocError>(
            ReallocError::Arity { got: args@.len() as usize },
        ),
        args@.len() >= 4 && (args@[1] < 0 || args@[3] < 0) ==> r == Err::<
            ReallocRequest,
            ReallocError,
        >(ReallocError::NegativeSize),
        args@.len() >= 4 && args@[1] >= 0 && args@[3] >= 0 ==> r == Ok::<
            ReallocRequest,
            ReallocError,
        >(
            ReallocRequest {
                pointer: args@[0] as u32,
                old_size: args@[1] as usize,
                align: args@[2],
                new_size: args@[3] as usize,
            },
        ),
{
    if args.len() < 4 {
        return Err(ReallocError::Arity { got: args.len() });
    }
    match (allocation_len(args[1]), allocation_len(args[3])) {
        (Some(old_size), Some(new_size)) => Ok(
            ReallocRequest { pointer: args[0] as u32, old_size, align: args[2], new_size },
        ),
        _ => Err(ReallocError::NegativeSize),
    }
}

/// The number of bytes a reallocation carries over.
pub open spec fn kept_len(old_len: int, new_size: int) -> int {
    if old_len < new_size {
        old_len
    } else {
        new_size
    }
}

/// The contents of the new region of a reallocation: the first
/// `min(old.len(), new_size)` bytes of the old region.
pub fn realloc_contents(old: &[u8], new_size: usize) -> (r: Vec<u8>)
    ensures
        r@ == old@.subrange(0, kept_len(old@.len() as int, new_size as int)),
{
    let n: usize = if old.len() < new_size {
        old.len()
    } else {
        new_size
    };
    let mut r: Vec<u8> = Vec::new();
    let mut k: usize = 0;
    while k < n
        invariant
            n <= old@.len(),
            n as int == kept_len(old@.len() as int, new_size as int),
            k <= n,
            r@ == old@.subrange(0, k as int),
        decreases n - k,
    {
        r.push(old[k]);
        k = k + 1;
        assert(r@ =~= old@.subrange(0, k as int));
    }
    r
}

} // verus!
