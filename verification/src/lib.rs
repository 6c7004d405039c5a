//! E8 mask codec: 60-bit selector words that mark candidate periods
//! `10 * q + d` for the four decimal classes `d` in {1, 3, 7, 9}, and the
//! scanners that turn a selector back into candidate events.
use vstd::prelude::*;

pub mod bench;
pub mod bitspec;
pub mod gpu;
pub mod http;
pub mod memory;
pub mod repair;
pub mod runtime;
pub mod service;

use crate::bitspec::{
    bit, count_ones_u64, lemma_active_high_bits_clear, lemma_and_active_le, lemma_bit_and_shift,
    lemma_bits_of_active_mask, lemma_cell_bit, lemma_clear_bit, lemma_lowest_set_bit,
    lemma_popcount_active, lemma_popcount_sixty, popcount,
};
use vstd::wrapping::u64_specs::wrapping_mul;

verus! {

pub const MASKS_PER_E8_CLASS: usize = 60;

pub const MASKS_PER_CELL24: usize = 6;

pub const CELLS24_PER_E8_CLASS: usize = 10;

pub const DECIMAL_CLASSES: [u8; 4] = [1, 3, 7, 9];

pub const CHANNEL_MULTIPLIERS: [u64; 4] = [1, 3, 9, 7];

/// The low sixty bits of a selector word.
pub const ACTIVE_BITS: u64 = 0x0fff_ffff_ffff_ffff;

/// The decimal class (last digit) of class index `c`.
pub open spec fn class_digit(c: int) -> u8 {
    if c == 0 {
        1u8
    } else if c == 1 {
        3u8
    } else if c == 2 {
        7u8
    } else {
        9u8
    }
}

/// A 256-bit AVX2 lane: an empty array of them gives a block the lane's 32-byte
/// alignment.
#[verifier::external_type_specification]
#[verifier::external_body]
pub struct ExAvx2Lane(core::arch::x86_64::__m256i);

/// Four selector words, one per decimal class, each holding sixty mask bits; one block
/// fills one 32-byte aligned AVX2 register.
#[derive(Clone, Copy, Debug)]
pub struct E8MaskBlock {
    selectors: [u64; 4],
    lane: [core::arch::x86_64::__m256i; 0],
}

impl PartialEq for E8MaskBlock {
    fn eq(&self, other: &Self) -> (same: bool) {
        let same = self.selectors[0] == other.selectors[0] && self.selectors[1]
            == other.selectors[1] && self.selectors[2] == other.selectors[2] && self.selectors[3]
            == other.selectors[3];
        proof {
            if same {
                assert(self.words() =~= other.words());
            }
        }
        same
    }
}

impl vstd::std_specs::cmp::PartialEqSpecImpl for E8MaskBlock {
    open spec fn obeys_eq_spec() -> bool {
        true
    }

    open spec fn eq_spec(&self, other: &Self) -> bool {
        self.words() == other.words()
    }
}

impl Eq for E8MaskBlock {

}

impl E8MaskBlock {
    /// No selector has a bit at position 60 or above.
    #[verifier::type_invariant]
    spec fn within_active_bits(self) -> bool {
        forall|i: int| 0 <= i < 4 ==> #[trigger] self.selectors[i] <= ACTIVE_BITS
    }

    /// The selector word of class index `i`.
    pub closed spec fn sel(self, i: int) -> u64 {
        self.selectors[i]
    }

    /// The four selector words.
    pub closed spec fn words(self) -> [u64; 4] {
        self.selectors
    }

    /// The four selector words are the selectors of the four classes.
    pub proof fn lemma_words_are_selectors(self)
        ensures
            forall|i: int| 0 <= i < 4 ==> #[trigger] self.words()[i] == self.sel(i),
    {
    }

    pub fn new(selectors: [u64; 4]) -> (block: Self)
        ensures
            forall|i: int| 0 <= i < 4 ==> #[trigger] block.sel(i) == selectors[i] & ACTIVE_BITS,
    {
        let a = selectors[0] & ACTIVE_BITS;
        let b = selectors[1] & ACTIVE_BITS;
        let c = selectors[2] & ACTIVE_BITS;
        let d = selectors[3] & ACTIVE_BITS;
        proof {
            lemma_and_active_le(selectors[0]);
            lemma_and_active_le(selectors[1]);
            lemma_and_active_le(selectors[2]);
            lemma_and_active_le(selectors[3]);
        }
        Self { selectors: [a, b, c, d], lane: [] }
    }

    pub fn empty() -> (block: Self)
        ensures
            forall|i: int| 0 <= i < 4 ==> #[trigger] block.sel(i) == 0,
    {
        let block = Self::new([0; 4]);
        proof {
            assert(0u64 & ACTIVE_BITS == 0) by (bit_vector);
        }
        block
    }

    pub fn full() -> (block: Self)
        ensures
            forall|i: int| 0 <= i < 4 ==> #[trigger] block.sel(i) == ACTIVE_BITS,
    {
        let block = Self::new([ACTIVE_BITS; 4]);
        proof {
            assert(ACTIVE_BITS & ACTIVE_BITS == ACTIVE_BITS) by (bit_vector);
        }
        block
    }

    pub fn selectors(self) -> (words: [u64; 4])
        ensures
            forall|i: int| 0 <= i < 4 ==> #[trigger] words[i] == self.sel(i),
            forall|i: int| 0 <= i < 4 ==> #[trigger] words[i] <= ACTIVE_BITS,
    {
        proof {
            use_type_invariant(self);
        }
        self.selectors
    }

    pub fn selector(self, decimal_class_index: usize) -> (word: u64)
        requires
            decimal_class_index < 4,
        ensures
            word == self.sel(decimal_class_index as int),
            word <= ACTIVE_BITS,
    {
        proof {
            use_type_invariant(self);
        }
        self.selectors[decimal_class_index]
    }

    /// The six mask bits of 24-cell `cell_index` of one selector.
    pub fn cell24_selector(self, decimal_class_index: usize, cell_index: usize) -> (cell: u8)
        requires
            decimal_class_index < 4,
            cell_index < CELLS24_PER_E8_CLASS,
        ensures
            cell as u64 == (self.sel(decimal_class_index as int) >> (cell_index * 6) as u64)
                & 0x3f,
    {
        let shift = cell_index * MASKS_PER_CELL24;
        let whole = self.selectors[decimal_class_index];
        let word = (whole >> shift as u64) & 0x3f;
        proof {
            assert(word <= 0x3f) by (bit_vector)
                requires
                    word == (whole >> shift as u64) & 0x3f,
            ;
        }
        word as u8
    }

    /// Clears mask bit `mask_index` of one selector and leaves every other bit.
    pub fn clear_bit(&mut self, decimal_class_index: usize, mask_index: usize)
        requires
            decimal_class_index < 4,
            mask_index < 64,
        ensures
            forall|i: int|
                0 <= i < 4 && i != decimal_class_index ==> #[trigger] final(self).sel(i) == old(
                    self,
                ).sel(i),
            final(self).sel(decimal_class_index as int) == old(self).sel(
                decimal_class_index as int,
            ) & !(1u64 << mask_index as u64),
            forall|j: nat|
                j < 64 ==> #[trigger] bit(final(self).sel(decimal_class_index as int), j) == (
                j != mask_index && bit(old(self).sel(decimal_class_index as int), j)),
    {
        proof {
            use_type_invariant(&*self);
        }
        let old_word = self.selectors[decimal_class_index];
        let new_word = old_word & !(1u64 << mask_index as u64);
        proof {
            lemma_clear_bit(old_word, mask_index as u64);
            assert(new_word <= old_word) by (bit_vector)
                requires
                    new_word == old_word & !(1u64 << mask_index as u64),
            ;
        }
        self.selectors[decimal_class_index] = new_word;
    }

    pub fn bit_is_set(self, decimal_class_index: usize, mask_index: usize) -> (set: bool)
        requires
            decimal_class_index < 4,
            mask_index < 64,
        ensures
            set == bit(self.sel(decimal_class_index as int), mask_index as nat),
    {
        let word = self.selectors[decimal_class_index];
        proof {
            lemma_bit_and_shift(word, mask_index as u64);
        }
        (word & (1u64 << mask_index as u64)) != 0
    }

    /// The number of set mask bits over the four selectors.
    pub fn active_bits(self) -> (count: u32)
        ensures
            count == popcount(self.sel(0)) + popcount(self.sel(1)) + popcount(self.sel(2))
                + popcount(self.sel(3)),
            count <= 240,
    {
        proof {
            use_type_invariant(self);
            lemma_popcount_sixty(self.selectors[0]);
            lemma_popcount_sixty(self.selectors[1]);
            lemma_popcount_sixty(self.selectors[2]);
            lemma_popcount_sixty(self.selectors[3]);
            lemma_popcount_active(self.selectors[0]);
            lemma_popcount_active(self.selectors[1]);
            lemma_popcount_active(self.selectors[2]);
            lemma_popcount_active(self.selectors[3]);
        }
        count_ones_u64(self.selectors[0]) + count_ones_u64(self.selectors[1]) + count_ones_u64(
            self.selectors[2],
        ) + count_ones_u64(self.selectors[3])
    }
}


/// A candidate period `10 * (base_q + mask_index) + decimal_class` with its
/// four channel values (the period times 1, 3, 9 and 7, wrapping).
#[derive(Clone, Copy, Debug, Eq, PartialEq)]
pub struct MaskEvent {
    pub mask_index: u8,
    pub period: u64,
    pub channel_values: [u64; 4],
}

/// The event that the scanners emit for `mask_index` and `period`.
pub open spec fn spec_event(mask_index: int, period: int) -> MaskEvent {
    MaskEvent {
        mask_index: mask_index as u8,
        period: period as u64,
        channel_values: [
            period as u64,
            wrapping_mul(period as u64, 3),
            wrapping_mul(period as u64, 9),
            wrapping_mul(period as u64, 7),
        ],
    }
}

impl MaskEvent {
    #[inline(always)]
    pub fn new(mask_index: u8, period: u64) -> (event: Self)
        ensures
            event == spec_event(mask_index as int, period as int),
    {
        Self {
            mask_index,
            period,
            channel_values: [
                period,
                period.wrapping_mul(3),
                period.wrapping_mul(9),
                period.wrapping_mul(7),
            ],
        }
    }
}

#[derive(Clone, Copy, Debug, Eq, PartialEq)]
pub enum ScanMode {
    Sparse,
    Dense,
    Cell24Lookup,
}

/// `x * y`, or `u64::MAX` where the product does not fit.
pub open spec fn sat_mul(x: u64, y: u64) -> u64 {
    if x * y > u64::MAX {
        u64::MAX
    } else {
        (x * y) as u64
    }
}

/// `x + y`, or `u64::MAX` where the sum does not fit.
pub open spec fn sat_add(x: u64, y: u64) -> u64 {
    if x + y > u64::MAX {
        u64::MAX
    } else {
        (x + y) as u64
    }
}

/// `u64::saturating_mul`, computed with a checked product.
pub fn saturating_mul_u64(x: u64, y: u64) -> (r: u64)
    ensures
        r == sat_mul(x, y),
{
    match x.checked_mul(y) {
        Some(v) => v,
        None => u64::MAX,
    }
}

/// Sparse scanning for segments filled at most half; dense above.
pub fn choose_scan_mode(active_bits: u64, total_slots: u64) -> (mode: ScanMode)
    ensures
        mode == (if sat_mul(active_bits, 2) <= total_slots {
            ScanMode::Sparse
        } else {
            ScanMode::Dense
        }),
{
    if saturating_mul_u64(active_bits, 2) <= total_slots {
        ScanMode::Sparse
    } else {
        ScanMode::Dense
    }
}

/// The period of mask bit `mask_index` in a block based at `base_q`.
pub open spec fn period_value(base_q: int, decimal_class: int, mask_index: int) -> int {
    10 * (base_q + mask_index) + decimal_class
}

#[inline(always)]
pub fn period_at(base_q: u64, decimal_class: u8, mask_index: u8) -> (period: u64)
    requires
        period_value(base_q as int, decimal_class as int, mask_index as int) <= u64::MAX,
    ensures
        period as int == period_value(base_q as int, decimal_class as int, mask_index as int),
{
    10 * (base_q + mask_index as u64) + decimal_class as u64
}

/// The events of the set bits of `active` below position `n`, in increasing mask order.
pub open spec fn selector_events(base_q: u64, decimal_class: u8, active: u64, n: nat) -> Seq<
    MaskEvent,
>
    decreases n,
{
    if n == 0 {
        Seq::empty()
    } else {
        let i = (n - 1) as nat;
        let prev = selector_events(base_q, decimal_class, active, i);
        if bit(active, i) {
            prev.push(
                spec_event(i as int, period_value(base_q as int, decimal_class as int, i as int)),
            )
        } else {
            prev
        }
    }
}

/// The events of one selector word: its active bits, lowest mask index first.
pub open spec fn block_events(base_q: u64, decimal_class: u8, selector: u64) -> Seq<MaskEvent> {
    selector_events(base_q, decimal_class, selector & ACTIVE_BITS, 60)
}

/// Every set active bit has a period that fits in `u64`.
pub open spec fn set_bits_fit(base_q: u64, decimal_class: u8, selector: u64) -> bool {
    forall|i: nat|
        i < 60 && #[trigger] bit(selector & ACTIVE_BITS, i) ==> period_value(
            base_q as int,
            decimal_class as int,
            i as int,
        ) <= u64::MAX
}

/// The dense walk steps its period sixty times by ten from `10 * base_q + decimal_class`.
pub open spec fn dense_walk_fits(base_q: u64, decimal_class: u8) -> bool {
    period_value(base_q as int, decimal_class as int, 60) <= u64::MAX
}

pub proof fn lemma_selector_events_stable(
    base_q: u64,
    decimal_class: u8,
    active: u64,
    n: nat,
    m: nat,
)
    requires
        n <= m,
        forall|j: nat| n <= j < m ==> !#[trigger] bit(active, j),
    ensures
        selector_events(base_q, decimal_class, active, m) == selector_events(
            base_q,
            decimal_class,
            active,
            n,
        ),
    decreases m - n,
{
    if m > n {
        lemma_selector_events_stable(base_q, decimal_class, active, n, (m - 1) as nat);
    }
}

pub proof fn lemma_selector_events_len(base_q: u64, decimal_class: u8, active: u64, n: nat)
    ensures
        selector_events(base_q, decimal_class, active, n).len() == crate::bitspec::popcount_below(
            active,
            n,
        ),
    decreases n,
{
    if n > 0 {
        lemma_selector_events_len(base_q, decimal_class, active, (n - 1) as nat);
    }
}

/// Emits one event per set active bit, lowest first, by repeatedly taking the
/// lowest set bit.
#[inline(always)]
pub fn scan_sparse(base_q: u64, decimal_class: u8, selector: u64, events: &mut Vec<MaskEvent>)
    requires
        set_bits_fit(base_q, decimal_class, selector),
    ensures
        final(events)@ == old(events)@ + block_events(base_q, decimal_class, selector),
{
    let ghost orig = selector & ACTIVE_BITS;
    let mut active = selector & ACTIVE_BITS;
    let ghost mut k: nat = 0;
    proof {
        lemma_and_active_le(selector);
        lemma_active_high_bits_clear(orig);
    }
    while active != 0
        invariant
            k <= 60,
            orig == selector & ACTIVE_BITS,
            orig <= ACTIVE_BITS,
            set_bits_fit(base_q, decimal_class, selector),
            forall|j: nat| 60 <= j ==> !#[trigger] bit(orig, j),
            forall|j: nat| #[trigger] bit(active, j) == (j >= k && bit(orig, j)),
            events@ == old(events)@ + selector_events(base_q, decimal_class, orig, k),
        decreases active,
    {
        let tz = active.trailing_zeros();
        proof {
            lemma_lowest_set_bit(active);
            assert(bit(active, tz as nat));
            assert(tz as nat >= k);
            assert(tz < 60);
            assert forall|j: nat| k <= j < tz as nat implies !#[trigger] bit(orig, j) by {
                assert(!bit(active, j));
            }
            lemma_selector_events_stable(base_q, decimal_class, orig, k, tz as nat);
        }
        let mask_index = tz as u8;
        let ghost prev_active = active;
        active = active & (active - 1);
        let period = period_at(base_q, decimal_class, mask_index);
        events.push(MaskEvent::new(mask_index, period));
        proof {
            k = (tz + 1) as nat;
            assert forall|j: nat| #[trigger] bit(active, j) == (j >= k && bit(orig, j)) by {
                assert(bit(prev_active, j) == (j >= (k - 1) as nat && bit(orig, j)));
            }
            assert(active < prev_active);
            assert(events@ == old(events)@ + selector_events(base_q, decimal_class, orig, k));
        }
    }
    proof {
        assert forall|j: nat| k <= j < 60 implies !#[trigger] bit(orig, j) by {
            let jj = j as u64;
            assert((0u64 >> jj) & 1u64 == 0u64) by (bit_vector);
            assert(!bit(active, j));
        }
        lemma_selector_events_stable(base_q, decimal_class, orig, k, 60);
    }
}

/// Emits one event per set active bit by walking all sixty mask positions.
#[inline(always)]
pub fn scan_dense(base_q: u64, decimal_class: u8, selector: u64, events: &mut Vec<MaskEvent>)
    requires
        dense_walk_fits(base_q, decimal_class),
    ensures
        final(events)@ == old(events)@ + block_events(base_q, decimal_class, selector),
{
    let active = selector & ACTIVE_BITS;
    let mut period = 10 * base_q + decimal_class as u64;
    let mut mask_index = 0u8;
    while mask_index < MASKS_PER_E8_CLASS as u8
        invariant
            mask_index <= 60,
            active == selector & ACTIVE_BITS,
            dense_walk_fits(base_q, decimal_class),
            period as int == period_value(base_q as int, decimal_class as int, mask_index as int),
            events@ == old(events)@ + selector_events(
                base_q,
                decimal_class,
                active,
                mask_index as nat,
            ),
        decreases 60 - mask_index,
    {
        proof {
            lemma_bit_and_shift(active, mask_index as u64);
        }
        if active & (1u64 << mask_index as u64) != 0 {
            events.push(MaskEvent::new(mask_index, period));
        }
        period = period + 10;
        mask_index = mask_index + 1;
    }
}

/// The byte layout of one 24-cell lookup row: the number of set bits of the
/// six-bit `pattern`, then their positions in increasing order, then zeros.
pub open spec fn cell24_row_ok(row: [u8; 7], pattern: u64) -> bool {
    let bits = low_set_bits(pattern, 6);
    &&& row[0] as nat == bits.len()
    &&& forall|j: int| 0 <= j < bits.len() ==> #[trigger] row[j + 1] == bits[j]
    &&& forall|j: int| bits.len() < j < 7 ==> #[trigger] row[j] == 0
}

/// The positions below `n` of the set bits of `pattern`, in increasing order.
pub open spec fn low_set_bits(pattern: u64, n: nat) -> Seq<u8>
    decreases n,
{
    if n == 0 {
        Seq::empty()
    } else {
        let prev = low_set_bits(pattern, (n - 1) as nat);
        if bit(pattern, (n - 1) as nat) {
            prev.push((n - 1) as u8)
        } else {
            prev
        }
    }
}

pub proof fn lemma_low_set_bits_len(pattern: u64, n: nat)
    ensures
        low_set_bits(pattern, n).len() <= n,
        forall|j: int|
            0 <= j < low_set_bits(pattern, n).len() ==> #[trigger] low_set_bits(pattern, n)[j]
                < n,
    decreases n,
{
    if n > 0 {
        lemma_low_set_bits_len(pattern, (n - 1) as nat);
    }
}

/// Builds the table of all sixty-four six-bit patterns.
pub fn build_cell24_lookup() -> (table: [[u8; 7]; 64])
    ensures
        forall|p: int| 0 <= p < 64 ==> #[trigger] cell24_row_ok(table[p], p as u64),
{
    let mut table = [[0u8; 7]; 64];
    let mut pattern = 0usize;
    while pattern < 64
        invariant
            pattern <= 64,
            forall|p: int| 0 <= p < pattern ==> #[trigger] cell24_row_ok(table[p], p as u64),
        decreases 64 - pattern,
    {
        let mut row = [0u8; 7];
        let mut b = 0usize;
        let mut length = 0usize;
        while b < MASKS_PER_CELL24
            invariant
                b <= 6,
                length <= b,
                pattern < 64,
                length as nat == low_set_bits(pattern as u64, b as nat).len(),
                forall|j: int|
                    0 <= j < length ==> #[trigger] row[j + 1] == low_set_bits(
                        pattern as u64,
                        b as nat,
                    )[j],
                forall|j: int| length < j < 7 ==> #[trigger] row[j] == 0,
            decreases 6 - b,
        {
            proof {
                lemma_low_set_bits_len(pattern as u64, b as nat);
                lemma_bit_and_shift(pattern as u64, b as u64);
            }
            if (pattern as u64) & (1u64 << b as u64) != 0 {
                length = length + 1;
                row[length] = b as u8;
            }
            b = b + 1;
        }
        row[0] = length as u8;
        proof {
            lemma_low_set_bits_len(pattern as u64, 6);
        }
        table[pattern] = row;
        pattern = pattern + 1;
    }
    table
}

/// The events of the set bits of a six-bit cell pattern of cell `cell`.
pub open spec fn cell_events(base_q: u64, decimal_class: u8, cell: nat, bits: Seq<u8>) -> Seq<
    MaskEvent,
> {
    bits.map_values(
        |b: u8|
            spec_event(
                (6 * cell + b) as int,
                period_value(base_q as int, decimal_class as int, (6 * cell + b) as int),
            ),
    )
}

pub proof fn lemma_cell_events_split(
    base_q: u64,
    decimal_class: u8,
    active: u64,
    pattern: u64,
    cell: nat,
    m: nat,
)
    requires
        m <= 6,
        cell < 10,
        forall|b: nat| b < 6 ==> #[trigger] bit(pattern, b) == bit(active, 6 * cell + b),
    ensures
        selector_events(base_q, decimal_class, active, 6 * cell + m) == selector_events(
            base_q,
            decimal_class,
            active,
            6 * cell,
        ) + cell_events(base_q, decimal_class, cell, low_set_bits(pattern, m)),
    decreases m,
{
    let lhs = selector_events(base_q, decimal_class, active, 6 * cell + m);
    let pre = selector_events(base_q, decimal_class, active, 6 * cell);
    if m == 0 {
        assert(cell_events(base_q, decimal_class, cell, low_set_bits(pattern, 0)) =~= Seq::empty());
        assert(pre + Seq::<MaskEvent>::empty() =~= pre);
    } else {
        let mm = (m - 1) as nat;
        lemma_cell_events_split(base_q, decimal_class, active, pattern, cell, mm);
        assert(bit(pattern, mm) == bit(active, 6 * cell + mm));
        let bits_prev = low_set_bits(pattern, mm);
        if bit(pattern, mm) {
            assert(low_set_bits(pattern, m) == bits_prev.push(mm as u8));
            assert(cell_events(base_q, decimal_class, cell, bits_prev.push(mm as u8)) =~= cell_events(
                base_q,
                decimal_class,
                cell,
                bits_prev,
            ).push(
                spec_event(
                    (6 * cell + mm) as int,
                    period_value(base_q as int, decimal_class as int, (6 * cell + mm) as int),
                ),
            ));
            assert(lhs =~= pre + cell_events(base_q, decimal_class, cell, low_set_bits(pattern, m)));
        } else {
            assert(low_set_bits(pattern, m) == bits_prev);
        }
    }
}

/// Emits the events of one selector through a 24-cell lookup table.
pub fn scan_cell24_with_table(
    table: &[[u8; 7]; 64],
    base_q: u64,
    decimal_class: u8,
    selector: u64,
    events: &mut Vec<MaskEvent>,
)
    requires
        forall|p: int| 0 <= p < 64 ==> #[trigger] cell24_row_ok(table[p], p as u64),
        set_bits_fit(base_q, decimal_class, selector),
    ensures
        final(events)@ == old(events)@ + block_events(base_q, decimal_class, selector),
{
    let active = selector & ACTIVE_BITS;
    let mut cell_index = 0usize;
    while cell_index < CELLS24_PER_E8_CLASS
        invariant
            cell_index <= 10,
            active == selector & ACTIVE_BITS,
            forall|p: int| 0 <= p < 64 ==> #[trigger] cell24_row_ok(table[p], p as u64),
            set_bits_fit(base_q, decimal_class, selector),
            events@ == old(events)@ + selector_events(
                base_q,
                decimal_class,
                active,
                6 * cell_index as nat,
            ),
        decreases 10 - cell_index,
    {
        let pattern = ((active >> (cell_index * MASKS_PER_CELL24) as u64) & 0x3f) as usize;
        proof {
            let sh = (cell_index * 6) as u64;
            assert(((active >> sh) & 0x3f) <= 0x3f) by (bit_vector);
            lemma_cell_bit(active, cell_index as u64);
        }
        let row = table[pattern];
        let length = row[0] as usize;
        let ghost bits = low_set_bits(pattern as u64, 6);
        let ghost before = events@;
        proof {
            assert(cell24_row_ok(table[pattern as int], pattern as u64));
            lemma_low_set_bits_len(pattern as u64, 6);
        }
        let mut offset_index = 0usize;
        while offset_index < length
            invariant
                offset_index <= length,
                length <= 6,
                length == bits.len(),
                bits == low_set_bits(pattern as u64, 6),
                cell24_row_ok(row, pattern as u64),
                cell_index < 10,
                active == selector & ACTIVE_BITS,
                set_bits_fit(base_q, decimal_class, selector),
                forall|b: nat|
                    b < 6 ==> #[trigger] bit(pattern as u64, b) == bit(active, 6 * cell_index as nat + b),
                forall|j: int| 0 <= j < bits.len() ==> #[trigger] bits[j] < 6,
                events@ == before + cell_events(
                    base_q,
                    decimal_class,
                    cell_index as nat,
                    bits.take(offset_index as int),
                ),
            decreases length - offset_index,
        {
            let local_index = row[offset_index + 1] as usize;
            let mask_index = (cell_index * MASKS_PER_CELL24 + local_index) as u8;
            proof {
                assert(local_index == bits[offset_index as int]);
                assert(local_index < 6);
                lemma_low_set_bits_member(pattern as u64, 6, offset_index as int);
                assert(bit(pattern as u64, local_index as nat));
                assert(bit(active, 6 * cell_index as nat + local_index as nat));
                assert(set_bits_fit(base_q, decimal_class, selector));
                assert(bit(selector & ACTIVE_BITS, (6 * cell_index + local_index) as nat));
            }
            let period = period_at(base_q, decimal_class, mask_index);
            events.push(MaskEvent::new(mask_index, period));
            proof {
                assert(bits.take(offset_index + 1) =~= bits.take(offset_index as int).push(
                    bits[offset_index as int],
                ));
                assert(cell_events(
                    base_q,
                    decimal_class,
                    cell_index as nat,
                    bits.take(offset_index + 1),
                ) =~= cell_events(
                    base_q,
                    decimal_class,
                    cell_index as nat,
                    bits.take(offset_index as int),
                ).push(
                    spec_event(
                        mask_index as int,
                        period_value(base_q as int, decimal_class as int, mask_index as int),
                    ),
                ));
            }
            offset_index = offset_index + 1;
        }
        proof {
            assert(bits.take(length as int) =~= bits);
            lemma_cell_events_split(
                base_q,
                decimal_class,
                active,
                pattern as u64,
                cell_index as nat,
                6,
            );
        }
        cell_index = cell_index + 1;
    }
}

/// Emits the events of one selector through the 24-cell lookup table.
pub fn scan_cell24_lookup(
    base_q: u64,
    decimal_class: u8,
    selector: u64,
    events: &mut Vec<MaskEvent>,
)
    requires
        set_bits_fit(base_q, decimal_class, selector),
    ensures
        final(events)@ == old(events)@ + block_events(base_q, decimal_class, selector),
{
    let table = build_cell24_lookup();
    scan_cell24_with_table(&table, base_q, decimal_class, selector, events);
}

pub proof fn lemma_low_set_bits_member(pattern: u64, n: nat, j: int)
    requires
        0 <= j < low_set_bits(pattern, n).len(),
    ensures
        bit(pattern, low_set_bits(pattern, n)[j] as nat),
    decreases n,
{
    if n > 0 {
        let prev = low_set_bits(pattern, (n - 1) as nat);
        lemma_low_set_bits_len(pattern, (n - 1) as nat);
        if j < prev.len() {
            lemma_low_set_bits_member(pattern, (n - 1) as nat, j);
        }
    }
}


/// The events of a run of selector words, block `b` based at `base_q + 60 * b`.
pub open spec fn segment_events(base_q: u64, decimal_class: u8, selectors: Seq<u64>, n: nat) -> Seq<
    MaskEvent,
>
    decreases n,
{
    if n == 0 {
        Seq::empty()
    } else {
        let b = (n - 1) as nat;
        segment_events(base_q, decimal_class, selectors, b) + block_events(
            (base_q + 60 * b) as u64,
            decimal_class,
            selectors[b as int],
        )
    }
}

/// Every block base and every period that `mode` computes fits in `u64`.
pub open spec fn segment_fits(mode: ScanMode, base_q: u64, decimal_class: u8, selectors: Seq<u64>) -> bool {
    forall|b: int|
        0 <= b < selectors.len() ==> base_q + 60 * b <= u64::MAX && match mode {
            ScanMode::Dense => dense_walk_fits((base_q + 60 * b) as u64, decimal_class),
            _ => set_bits_fit((base_q + 60 * b) as u64, decimal_class, #[trigger] selectors[b]),
        }
}

/// Scans consecutive blocks with one mode chosen for the whole segment.
/// Whatever the mode, the events are those of `segment_events`.
#[inline(always)]
pub fn scan_segment(
    mode: ScanMode,
    base_q: u64,
    decimal_class: u8,
    selectors: &[u64],
    events: &mut Vec<MaskEvent>,
)
    requires
        segment_fits(mode, base_q, decimal_class, selectors@),
    ensures
        final(events)@ == old(events)@ + segment_events(
            base_q,
            decimal_class,
            selectors@,
            selectors@.len(),
        ),
{
    let table = build_cell24_lookup();
    let mut block_index = 0usize;
    while block_index < selectors.len()
        invariant
            block_index <= selectors@.len(),
            segment_fits(mode, base_q, decimal_class, selectors@),
            forall|p: int| 0 <= p < 64 ==> #[trigger] cell24_row_ok(table[p], p as u64),
            events@ == old(events)@ + segment_events(
                base_q,
                decimal_class,
                selectors@,
                block_index as nat,
            ),
        decreases selectors@.len() - block_index,
    {
        let selector = selectors[block_index];
        proof {
            assert(base_q + 60 * block_index <= u64::MAX);
        }
        let block_q = base_q + MASKS_PER_E8_CLASS as u64 * block_index as u64;
        match mode {
            ScanMode::Sparse => scan_sparse(block_q, decimal_class, selector, events),
            ScanMode::Dense => scan_dense(block_q, decimal_class, selector, events),
            ScanMode::Cell24Lookup => scan_cell24_with_table(
                &table,
                block_q,
                decimal_class,
                selector,
                events,
            ),
        }
        proof {
            assert(events@ =~= old(events)@ + segment_events(
                base_q,
                decimal_class,
                selectors@,
                (block_index + 1) as nat,
            ));
        }
        block_index = block_index + 1;
    }
}

/// The six bits of cell `c` of a selector word.
pub open spec fn cell_chunk(selector: u64, c: u64) -> u64 {
    (selector >> (c * 6)) & 0x3f
}

/// The ten 24-cell chunks of a sixty-bit selector, shifted back into place,
/// reconstruct the selector.
pub proof fn lemma_cell24_chunks_reconstruct(selector: u64)
    requires
        selector <= ACTIVE_BITS,
    ensures
        cell_chunk(selector, 0) | (cell_chunk(selector, 1) << 6u64) | (cell_chunk(selector, 2)
            << 12u64) | (cell_chunk(selector, 3) << 18u64) | (cell_chunk(selector, 4) << 24u64) | (
        cell_chunk(selector, 5) << 30u64) | (cell_chunk(selector, 6) << 36u64) | (cell_chunk(
            selector,
            7,
        ) << 42u64) | (cell_chunk(selector, 8) << 48u64) | (cell_chunk(selector, 9) << 54u64)
            == selector,
{
    assert(((selector >> 0u64) & 0x3f) | (((selector >> 6u64) & 0x3f) << 6u64) | (((selector
        >> 12u64) & 0x3f) << 12u64) | (((selector >> 18u64) & 0x3f) << 18u64) | (((selector
        >> 24u64) & 0x3f) << 24u64) | (((selector >> 30u64) & 0x3f) << 30u64) | (((selector
        >> 36u64) & 0x3f) << 36u64) | (((selector >> 42u64) & 0x3f) << 42u64) | (((selector
        >> 48u64) & 0x3f) << 48u64) | (((selector >> 54u64) & 0x3f) << 54u64) == selector)
        by (bit_vector)
        requires
            selector <= 0x0fff_ffff_ffff_ffffu64,
    ;
}

/// Consecutive mask indices of one class are ten apart.
pub proof fn lemma_period_step(base_q: int, decimal_class: int, mask_index: int)
    ensures
        period_value(base_q, decimal_class, mask_index + 1) - period_value(
            base_q,
            decimal_class,
            mask_index,
        ) == 10,
{
}

/// One event per set active bit: the number of events of a selector is its
/// number of active bits.
pub proof fn lemma_block_events_count(base_q: u64, decimal_class: u8, selector: u64)
    ensures
        block_events(base_q, decimal_class, selector).len() == crate::bitspec::popcount(
            selector & ACTIVE_BITS,
        ),
{
    lemma_selector_events_len(base_q, decimal_class, selector & ACTIVE_BITS, 60);
    lemma_and_active_le(selector);
    lemma_active_high_bits_clear(selector & ACTIVE_BITS);
    crate::bitspec::lemma_popcount_below_stable(selector & ACTIVE_BITS, 60, 64);
}

} // verus!
