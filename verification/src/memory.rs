//! Storage-size estimates for selector segments and the CPU/GPU split of selector memory.
use crate::{sat_add, sat_mul, saturating_mul_u64};
use vstd::prelude::*;

verus! {

pub const PERIODS_PER_E8_BLOCK: u64 = 240;

pub const E8_BITMAP_BYTES_PER_BLOCK: u64 = 32;

pub const CELL24_BYTE_ALIGNED_BYTES_PER_BLOCK: u64 = 40;

pub const IDEAL_BIT_PACKED_BYTES_PER_BLOCK: u64 = 30;

pub const SPARSE_INDEX_BYTES: u64 = 1;

pub const SPARSE_OFFSET_BYTES: u64 = 4;

#[derive(Clone, Copy, Debug, Eq, PartialEq)]
pub enum StorageKind {
    ImplicitFull,
    E8Bitmap,
    Cell24ByteAligned,
    IdealBitPacked,
    SparseCsr,
}

#[derive(Clone, Copy, Debug, Eq, PartialEq)]
pub struct StorageEstimate {
    pub kind: StorageKind,
    pub blocks: u64,
    pub represented_periods: u64,
    pub active_periods: u64,
    pub bytes: u64,
}

/// The bytes that `kind` needs for `blocks` blocks holding `active_periods` active periods
/// (saturating at `u64::MAX`).
pub open spec fn storage_bytes(kind: StorageKind, blocks: u64, active_periods: u64) -> u64 {
    match kind {
        StorageKind::ImplicitFull => 0,
        StorageKind::E8Bitmap => sat_mul(blocks, E8_BITMAP_BYTES_PER_BLOCK),
        StorageKind::Cell24ByteAligned => sat_mul(blocks, CELL24_BYTE_ALIGNED_BYTES_PER_BLOCK),
        StorageKind::IdealBitPacked => sat_mul(blocks, IDEAL_BIT_PACKED_BYTES_PER_BLOCK),
        StorageKind::SparseCsr => sat_add(
            sat_mul(sat_add(blocks, 1), SPARSE_OFFSET_BYTES),
            sat_mul(active_periods, SPARSE_INDEX_BYTES),
        ),
    }
}

pub fn estimate_storage(kind: StorageKind, blocks: u64, active_periods: u64) -> (estimate:
    StorageEstimate)
    ensures
        estimate.kind == kind,
        estimate.blocks == blocks,
        estimate.represented_periods == sat_mul(blocks, PERIODS_PER_E8_BLOCK),
        estimate.active_periods == active_periods,
        estimate.bytes == storage_bytes(kind, blocks, active_periods),
{
    let represented_periods = saturating_mul_u64(blocks, PERIODS_PER_E8_BLOCK);
    let bytes = match kind {
        StorageKind::ImplicitFull => 0,
        StorageKind::E8Bitmap => saturating_mul_u64(blocks, E8_BITMAP_BYTES_PER_BLOCK),
        StorageKind::Cell24ByteAligned => saturating_mul_u64(
            blocks,
            CELL24_BYTE_ALIGNED_BYTES_PER_BLOCK,
        ),
        StorageKind::IdealBitPacked => saturating_mul_u64(blocks, IDEAL_BIT_PACKED_BYTES_PER_BLOCK),
        StorageKind::SparseCsr => saturating_mul_u64(
            blocks.saturating_add(1),
            SPARSE_OFFSET_BYTES,
        ).saturating_add(saturating_mul_u64(active_periods, SPARSE_INDEX_BYTES)),
    };
    StorageEstimate { kind, blocks, represented_periods, active_periods, bytes }
}

/// The storage that the segment is kept in: nothing when every period is active
/// (or there are none), sparse CSR where it is strictly smaller than the bitmap,
/// the bitmap otherwise.
pub open spec fn chosen_storage(blocks: u64, active_periods: u64) -> StorageKind {
    let represented = sat_mul(blocks, PERIODS_PER_E8_BLOCK);
    if represented == 0 || active_periods == represented {
        StorageKind::ImplicitFull
    } else if storage_bytes(StorageKind::SparseCsr, blocks, active_periods) < storage_bytes(
        StorageKind::E8Bitmap,
        blocks,
        active_periods,
    ) {
        StorageKind::SparseCsr
    } else {
        StorageKind::E8Bitmap
    }
}

pub fn choose_storage(blocks: u64, active_periods: u64) -> (kind: StorageKind)
    ensures
        kind == chosen_storage(blocks, active_periods),
{
    let represented = saturating_mul_u64(blocks, PERIODS_PER_E8_BLOCK);
    if represented == 0 || active_periods == represented {
        return StorageKind::ImplicitFull;
    }
    let bitmap = estimate_storage(StorageKind::E8Bitmap, blocks, active_periods);
    let sparse = estimate_storage(StorageKind::SparseCsr, blocks, active_periods);
    if sparse.bytes < bitmap.bytes {
        StorageKind::SparseCsr
    } else {
        StorageKind::E8Bitmap
    }
}

#[derive(Clone, Copy, Debug, Eq, PartialEq)]
pub struct PartitionedMemory {
    pub host_selector_bytes: u64,
    pub device_selector_bytes: u64,
    pub pinned_staging_bytes: u64,
    pub total_selector_bytes: u64,
}

/// Splits the blocks between host and device (the device takes at most all of
/// them) and adds a double pinned staging buffer.
pub fn partitioned_cpu_gpu_memory(total_blocks: u64, gpu_blocks: u64, staging_blocks: u64) -> (memory:
    PartitionedMemory)
    ensures
        ({
            let device_blocks = if gpu_blocks > total_blocks {
                total_blocks
            } else {
                gpu_blocks
            };
            &&& memory.host_selector_bytes == sat_mul(
                (total_blocks - device_blocks) as u64,
                E8_BITMAP_BYTES_PER_BLOCK,
            )
            &&& memory.device_selector_bytes == sat_mul(device_blocks, E8_BITMAP_BYTES_PER_BLOCK)
            &&& memory.pinned_staging_bytes == sat_mul(
                sat_mul(staging_blocks, E8_BITMAP_BYTES_PER_BLOCK),
                2,
            )
            &&& memory.total_selector_bytes == sat_add(
                sat_add(memory.host_selector_bytes, memory.device_selector_bytes),
                memory.pinned_staging_bytes,
            )
        }),
{
    let bounded_gpu_blocks = if gpu_blocks > total_blocks {
        total_blocks
    } else {
        gpu_blocks
    };
    let cpu_blocks = total_blocks - bounded_gpu_blocks;
    let host_selector_bytes = saturating_mul_u64(cpu_blocks, E8_BITMAP_BYTES_PER_BLOCK);
    let device_selector_bytes = saturating_mul_u64(bounded_gpu_blocks, E8_BITMAP_BYTES_PER_BLOCK);
    let pinned_staging_bytes = saturating_mul_u64(
        saturating_mul_u64(staging_blocks, E8_BITMAP_BYTES_PER_BLOCK),
        2,
    );
    PartitionedMemory {
        host_selector_bytes,
        device_selector_bytes,
        pinned_staging_bytes,
        total_selector_bytes: host_selector_bytes.saturating_add(device_selector_bytes).saturating_add(
            pinned_staging_bytes,
        ),
    }
}

/// Host and device share the blocks without duplicating any: where the bitmap
/// bytes of all blocks fit in `u64`, host plus device bytes are exactly those bytes.
pub proof fn lemma_partition_covers_all_blocks(total_blocks: u64, gpu_blocks: u64)
    requires
        total_blocks * E8_BITMAP_BYTES_PER_BLOCK <= u64::MAX,
    ensures
        ({
            let device_blocks = if gpu_blocks > total_blocks {
                total_blocks
            } else {
                gpu_blocks
            };
            sat_mul((total_blocks - device_blocks) as u64, E8_BITMAP_BYTES_PER_BLOCK) + sat_mul(
                device_blocks,
                E8_BITMAP_BYTES_PER_BLOCK,
            ) == total_blocks * E8_BITMAP_BYTES_PER_BLOCK
        }),
{
}

/// Where nothing saturates, sparse CSR is chosen exactly when its size
/// `4 * (blocks + 1) + active` is below the bitmap's `32 * blocks`.
pub proof fn lemma_sparse_break_even(blocks: u64, active_periods: u64)
    requires
        blocks * PERIODS_PER_E8_BLOCK <= u64::MAX,
        0 < blocks,
        active_periods != blocks * PERIODS_PER_E8_BLOCK,
    ensures
        (chosen_storage(blocks, active_periods) == StorageKind::SparseCsr) == (4 * (blocks + 1)
            + active_periods < 32 * blocks),
        chosen_storage(blocks, active_periods) != StorageKind::ImplicitFull,
{
}

} // verus!
