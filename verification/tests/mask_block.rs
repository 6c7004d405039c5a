use e8_mask_codec::{
    choose_scan_mode, period_at, scan_cell24_lookup, scan_dense, scan_segment, scan_sparse,
    E8MaskBlock, MaskEvent, ScanMode, ACTIVE_BITS, CELLS24_PER_E8_CLASS, DECIMAL_CLASSES,
    MASKS_PER_CELL24,
};
use std::mem::{align_of, size_of};

#[test]
fn e8_block_is_one_aligned_avx2_register() {
    assert_eq!(size_of::<E8MaskBlock>(), 32);
    assert_eq!(align_of::<E8MaskBlock>(), 32);
}

#[test]
fn selectors_are_limited_to_sixty_bits() {
    let block = E8MaskBlock::new([u64::MAX; 4]);
    assert_eq!(block.selectors(), [ACTIVE_BITS; 4]);
    assert_eq!(block.active_bits(), 240);
    assert_eq!(E8MaskBlock::empty().active_bits(), 0);
}

#[test]
fn cell24_chunks_reconstruct_the_selector() {
    let selector = 0x0abc_def1_2345_6789 & ACTIVE_BITS;
    let block = E8MaskBlock::new([selector, 0, 0, 0]);
    let mut restored = 0_u64;
    for cell_index in 0..CELLS24_PER_E8_CLASS {
        restored |= (block.cell24_selector(0, cell_index) as u64) << (cell_index * MASKS_PER_CELL24);
    }
    assert_eq!(restored, selector);
}

fn sparse_events(decimal_class: u8, selector: u64) -> Vec<MaskEvent> {
    let mut events = Vec::new();
    scan_sparse(100, decimal_class, selector, &mut events);
    events
}

#[test]
fn all_scan_modes_emit_identical_events() {
    let patterns = [0, 1, 1 << 59, 0x000f_0f0f_f00f_00ff, ACTIVE_BITS];
    for decimal_class in DECIMAL_CLASSES {
        for selector in patterns {
            let sparse = sparse_events(decimal_class, selector);
            let mut dense = Vec::new();
            scan_dense(100, decimal_class, selector, &mut dense);
            let mut lookup = Vec::new();
            scan_cell24_lookup(100, decimal_class, selector, &mut lookup);
            assert_eq!(sparse, dense);
            assert_eq!(sparse, lookup);
        }
    }
}

#[test]
fn affine_period_step_is_ten() {
    for decimal_class in DECIMAL_CLASSES {
        for mask_index in 0..59 {
            let current = period_at(100, decimal_class, mask_index);
            let next = period_at(100, decimal_class, mask_index + 1);
            assert_eq!(next - current, 10);
        }
    }
}

#[test]
fn scan_mode_is_selected_for_a_whole_segment() {
    assert_eq!(choose_scan_mode(50, 100), ScanMode::Sparse);
    assert_eq!(choose_scan_mode(51, 100), ScanMode::Dense);
}

#[test]
fn segment_scanner_advances_by_sixty_masks() {
    let mut events = Vec::new();
    scan_segment(ScanMode::Sparse, 100, 1, &[1, 1], &mut events);
    assert_eq!(events[0].period, period_at(100, 1, 0));
    assert_eq!(events[1].period, period_at(160, 1, 0));
}

#[test]
fn events_carry_the_channel_multiples_of_their_period() {
    let event = MaskEvent::new(3, 131);
    assert_eq!(event.mask_index, 3);
    assert_eq!(event.period, 131);
    assert_eq!(event.channel_values, [131, 393, 1179, 917]);
}

#[test]
fn sparse_scan_lists_set_bits_lowest_first() {
    let events = sparse_events(7, 0b1010);
    let periods: Vec<u64> = events.iter().map(|e| e.period).collect();
    assert_eq!(periods, vec![10 * (100 + 1) + 7, 10 * (100 + 3) + 7]);
    assert_eq!(sparse_events(1, 1 << 60).len(), 0);
}

#[test]
fn clearing_a_bit_leaves_the_others() {
    let mut block = E8MaskBlock::full();
    block.clear_bit(2, 5);
    assert!(!block.bit_is_set(2, 5));
    assert!(block.bit_is_set(2, 4));
    assert!(block.bit_is_set(1, 5));
    assert_eq!(block.active_bits(), 239);
    assert_eq!(E8MaskBlock::empty().active_bits(), 0);
    assert_eq!(block.selector(2), ACTIVE_BITS & !(1 << 5));
}

#[test]
fn blocks_compare_by_their_selectors() {
    assert_eq!(E8MaskBlock::new([1, 2, 3, 4]), E8MaskBlock::new([1, 2, 3, 4]));
    assert_ne!(E8MaskBlock::new([1, 2, 3, 4]), E8MaskBlock::new([1, 2, 3, 5]));
    assert_eq!(E8MaskBlock::new([1 << 62, 0, 0, 0]), E8MaskBlock::empty());
}

#[test]
fn dense_scan_is_chosen_above_half_occupancy() {
    assert_eq!(choose_scan_mode(0, 0), ScanMode::Sparse);
    assert_eq!(choose_scan_mode(240, 240), ScanMode::Dense);
}
