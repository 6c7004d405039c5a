use e8_mask_codec::memory::{
    choose_storage, estimate_storage, partitioned_cpu_gpu_memory, StorageKind,
    E8_BITMAP_BYTES_PER_BLOCK,
};

#[test]
fn e8_bitmap_uses_just_over_one_bit_per_period() {
    let estimate = estimate_storage(StorageKind::E8Bitmap, 1, 120);
    assert_eq!(estimate.bytes, 32);
    let bits_per_period = 8.0 * estimate.bytes as f64 / estimate.represented_periods as f64;
    assert!((bits_per_period - 256.0 / 240.0).abs() < 1.0e-12);
}

#[test]
fn sparse_csr_wins_below_the_break_even_density() {
    let blocks = 1_000;
    assert_eq!(choose_storage(blocks, 20_000), StorageKind::SparseCsr);
    assert_eq!(choose_storage(blocks, 40_000), StorageKind::E8Bitmap);
}

#[test]
fn full_blocks_need_no_selectors() {
    assert_eq!(choose_storage(10, 2_400), StorageKind::ImplicitFull);
}

#[test]
fn partitioning_avoids_full_host_device_duplication() {
    let memory = partitioned_cpu_gpu_memory(1_000, 750, 16);
    assert_eq!(
        memory.host_selector_bytes + memory.device_selector_bytes,
        1_000 * E8_BITMAP_BYTES_PER_BLOCK
    );
    assert_eq!(memory.pinned_staging_bytes, 2 * 16 * E8_BITMAP_BYTES_PER_BLOCK);
}

#[test]
fn storage_sizes_of_each_form() {
    assert_eq!(estimate_storage(StorageKind::ImplicitFull, 10, 5).bytes, 0);
    assert_eq!(estimate_storage(StorageKind::Cell24ByteAligned, 10, 5).bytes, 400);
    assert_eq!(estimate_storage(StorageKind::IdealBitPacked, 10, 5).bytes, 300);
    assert_eq!(estimate_storage(StorageKind::SparseCsr, 10, 5).bytes, 11 * 4 + 5);
    assert_eq!(estimate_storage(StorageKind::E8Bitmap, 10, 5).represented_periods, 2_400);
    assert_eq!(estimate_storage(StorageKind::E8Bitmap, u64::MAX, 0).bytes, u64::MAX);
}

#[test]
fn device_share_is_capped_at_all_blocks() {
    let memory = partitioned_cpu_gpu_memory(100, 500, 0);
    assert_eq!(memory.host_selector_bytes, 0);
    assert_eq!(memory.device_selector_bytes, 100 * E8_BITMAP_BYTES_PER_BLOCK);
}
