//! GPU scan modes, errors, and the checks every GPU request passes before it
//! reaches the device.
use crate::ACTIVE_BITS;
use vstd::prelude::*;

verus! {

#[derive(Clone, Copy, Debug, Eq, PartialEq)]
pub enum GpuScanMode {
    Sparse,
    DenseWarp,
    Cell24Lookup,
}

impl GpuScanMode {
    /// The mode number that the device kernel takes.
    pub fn code(self) -> (code: i32)
        ensures
            code == match self {
                GpuScanMode::Sparse => 0i32,
                GpuScanMode::DenseWarp => 1i32,
                GpuScanMode::Cell24Lookup => 2i32,
            },
    {
        match self {
            GpuScanMode::Sparse => 0,
            GpuScanMode::DenseWarp => 1,
            GpuScanMode::Cell24Lookup => 2,
        }
    }
}

#[derive(Clone, Copy, Debug, Eq, PartialEq)]
pub enum GpuError {
    Unavailable,
    Cuda(i32),
}

/// Some selector has a bit at position 60 or above.
pub open spec fn has_inactive_bits(selectors: Seq<u64>) -> bool {
    exists|i: int| 0 <= i < selectors.len() && #[trigger] selectors[i] & !ACTIVE_BITS != 0
}

fn any_inactive_bits(selectors: &[u64]) -> (found: bool)
    ensures
        found == has_inactive_bits(selectors@),
{
    let mut i = 0usize;
    while i < selectors.len()
        invariant
            i <= selectors@.len(),
            forall|j: int| 0 <= j < i ==> #[trigger] selectors@[j] & !ACTIVE_BITS == 0,
        decreases selectors@.len() - i,
    {
        if selectors[i] & !ACTIVE_BITS != 0 {
            return true;
        }
        i = i + 1;
    }
    false
}

/// A scan request is refused (`Cuda(1)`) when it has no selectors, no rounds, or a
/// selector with bits outside the sixty active ones.
pub fn validate(selectors: &[u64], rounds: i32) -> (result: Result<(), GpuError>)
    ensures
        result is Ok <==> (selectors@.len() > 0 && rounds > 0 && !has_inactive_bits(selectors@)),
        result is Err ==> result == Err::<(), GpuError>(GpuError::Cuda(1)),
{
    if selectors.len() == 0 || rounds <= 0 {
        return Err(GpuError::Cuda(1));
    }
    if any_inactive_bits(selectors) {
        return Err(GpuError::Cuda(1));
    }
    Ok(())
}

/// A pool of zero capacity is refused before the device is asked.
pub fn validate_pool_capacity(capacity: usize) -> (result: Result<(), GpuError>)
    ensures
        result == (if capacity == 0 {
            Err(GpuError::Cuda(1))
        } else {
            Ok(())
        }),
{
    if capacity == 0 {
        Err(GpuError::Cuda(1))
    } else {
        Ok(())
    }
}

/// A pooled scan request passes `validate` and fits in the pool.
pub fn validate_pool_run(capacity: usize, selectors: &[u64], rounds: i32) -> (result: Result<
    (),
    GpuError,
>)
    ensures
        result is Ok <==> (selectors@.len() > 0 && rounds > 0 && !has_inactive_bits(selectors@)
            && selectors@.len() <= capacity),
        result is Err ==> result == Err::<(), GpuError>(GpuError::Cuda(1)),
{
    validate(selectors, rounds)?;
    if selectors.len() > capacity {
        return Err(GpuError::Cuda(1));
    }
    Ok(())
}

/// A pooled count request has selectors, fits in the pool, and has no inactive bits.
pub fn validate_pool_count(capacity: usize, selectors: &[u64]) -> (result: Result<(), GpuError>)
    ensures
        result is Ok <==> (selectors@.len() > 0 && selectors@.len() <= capacity
            && !has_inactive_bits(selectors@)),
        result is Err ==> result == Err::<(), GpuError>(GpuError::Cuda(1)),
{
    if selectors.len() == 0 || selectors.len() > capacity {
        return Err(GpuError::Cuda(1));
    }
    if any_inactive_bits(selectors) {
        return Err(GpuError::Cuda(1));
    }
    Ok(())
}

} // verus!
