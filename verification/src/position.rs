//! Ring geometry: counters that wrap around, and the slots that positions map to.
use vstd::prelude::*;
use vstd::arithmetic::div_mod::{
    lemma_fundamental_div_mod, lemma_fundamental_div_mod_converse, lemma_mod_equivalence,
    lemma_mod_mod, lemma_mod_multiples_vanish, lemma_small_mod,
};
use vstd::arithmetic::power2::{
    lemma2_to64, lemma2_to64_rest, lemma_pow2_adds, lemma_pow2_pos,
    lemma_pow2_strictly_increases, lemma_pow2_unfold,
};
use vstd::bits::{
    lemma_u64_low_bits_mask_is_mod, lemma_u64_pow2_no_overflow, lemma_u64_shl_is_mul,
    lemma_u64_shr_is_div, lemma_usize_pow2_no_overflow, lemma_usize_shl_is_mul,
};

verus! {

/// Log2 of the size of a cache line in bytes.
pub const LF_CACHE_SHIFT: usize = 7;

/// Log2 of the number of 64-bit words on a cache line.
pub const LFRING_MIN: usize = LF_CACHE_SHIFT - 3;

/// `2^order`.
pub open spec fn two_to(order: int) -> int {
    vstd::arithmetic::power2::pow2(order as nat) as int
}

/// Whether an array of `2^order` words of 64 bits can exist on this machine: its bytes fit in the
/// largest object that can be allocated.
pub open spec fn addressable(order: int) -> bool {
    0 <= order && order + 5 <= usize::BITS
}

/// Whether `x` comes strictly before `y` on the circle of 64-bit counters: going from `y` up to `x`
/// takes half the circle or more.
pub open spec fn precedes(x: u64, y: u64) -> bool {
    if x >= y {
        x - y >= 0x8000_0000_0000_0000
    } else {
        x - y + 0x1_0000_0000_0000_0000 >= 0x8000_0000_0000_0000
    }
}

/// The counter that stands for a position.
#[verifier::opaque]
pub open spec fn counter(position: int) -> u64 {
    (position % 0x1_0000_0000_0000_0000) as u64
}

/// The counter after it has moved on, wrapping around.
pub open spec fn moved(x: u64, by: u64) -> u64 {
    if x + by <= u64::MAX {
        (x + by) as u64
    } else {
        (x + by - 0x1_0000_0000_0000_0000) as u64
    }
}

/// The slot that position `position` takes in a ring of `2^order` slots. Small rings, which fit on
/// one cache line, use the position as it is. In larger rings the four topmost bits of the
/// position become the offset on a cache line, so that neighbours land on different lines.
#[verifier::opaque]
pub open spec fn slot_of(position: int, order: int) -> int {
    let x = position % two_to(order);
    if order < LFRING_MIN {
        x
    } else {
        let lines = two_to(order - LFRING_MIN);
        x / lines + 16 * (x % lines)
    }
}

/// Powers of two within a word.
pub proof fn lemma_two_to(order: int)
    requires
        0 <= order < 64,
    ensures
        0 < two_to(order) < u64::MAX,
        two_to(order + 1) == 2 * two_to(order),
        two_to(order) == 1u64 << (order as u64),
{
    lemma_pow2_pos(order as nat);
    lemma_pow2_unfold((order + 1) as nat);
    lemma_u64_pow2_no_overflow(order as nat);
    lemma_u64_shl_is_mul(1, order as u64);
}

/// The power of a sum is the product of the powers.
pub proof fn lemma_two_to_adds(a: int, b: int)
    requires
        0 <= a,
        0 <= b,
    ensures
        two_to(a + b) == two_to(a) * two_to(b),
{
    lemma_pow2_adds(a as nat, b as nat);
}

/// An addressable ring has at most `2^59` slots, and they can be counted in a `usize`.
pub proof fn lemma_addressable(order: int)
    requires
        addressable(order),
    ensures
        0 < two_to(order) <= 0x800_0000_0000_0000,
        16 * two_to(order) <= usize::MAX,
        order <= 59,
{
    lemma_pow2_pos(order as nat);
    lemma_usize_pow2_no_overflow((order + 4) as nat);
    lemma_pow2_adds(order as nat, 4);
    lemma2_to64();
    lemma2_to64_rest();
    if order < 59 {
        lemma_pow2_strictly_increases(order as nat, 59);
    }
}

/// The bits of `x` under the mask `2^order - 1` are its remainder modulo `2^order`.
pub proof fn lemma_mask(x: u64, order: int)
    requires
        0 <= order < 64,
    ensures
        x & ((two_to(order) - 1) as u64) == x as int % two_to(order),
{
    lemma_two_to(order);
    lemma_u64_low_bits_mask_is_mod(x, order as nat);
}

/// Slots lie within the ring, and positions that are a multiple of the size apart share one.
pub proof fn lemma_slot_in_ring(position: int, order: int)
    requires
        0 <= order < 64,
    ensures
        0 <= slot_of(position, order) < two_to(order),
        slot_of(position + two_to(order), order) == slot_of(position, order),
        slot_of(counter(position) as int, order) == slot_of(position, order),
{
    reveal(slot_of);
    reveal(counter);
    let n = two_to(order);
    lemma_two_to(order);
    let x = position % n;
    lemma_mod_multiples_vanish(1, position, n);
    assert((position + n) % n == x);
    assert(position % 0x1_0000_0000_0000_0000 % n == x) by {
        lemma2_to64();
        let m = two_to(64 - order);
        lemma_two_to_adds(order, 64 - order);
        lemma_pow2_pos((64 - order) as nat);
        lemma_mod_mod(position, n, m);
    }
    if order >= LFRING_MIN {
        let lines = two_to(order - LFRING_MIN);
        lemma_two_to_adds(LFRING_MIN as int, order - LFRING_MIN);
        lemma2_to64();
        lemma_two_to(order - LFRING_MIN);
        assert(0 <= x / lines < 16 && 0 <= x % lines < lines) by (nonlinear_arith)
            requires
                0 <= x < 16 * lines,
                0 < lines,
        ;
    }
}

/// Positions that differ by a multiple of the ring's size share a slot.
pub proof fn lemma_slot_same(p: int, q: int, order: int)
    requires
        p % two_to(order) == q % two_to(order),
    ensures
        slot_of(p, order) == slot_of(q, order),
{
    reveal(slot_of);
}

/// Two positions share a slot only when they differ by a multiple of the ring's size.
pub proof fn lemma_slot_injective(p: int, q: int, order: int)
    requires
        0 <= order < 64,
        slot_of(p, order) == slot_of(q, order),
    ensures
        p % two_to(order) == q % two_to(order),
{
    reveal(slot_of);
    let n = two_to(order);
    lemma_two_to(order);
    if order >= LFRING_MIN {
        let lines = two_to(order - LFRING_MIN);
        lemma_two_to_adds(LFRING_MIN as int, order - LFRING_MIN);
        lemma2_to64();
        lemma_two_to(order - LFRING_MIN);
        let x = p % n;
        let y = q % n;
        assert(0 <= x / lines < 16 && 0 <= y / lines < 16) by (nonlinear_arith)
            requires
                0 <= x < 16 * lines,
                0 <= y < 16 * lines,
                0 < lines,
        ;
        lemma_fundamental_div_mod(x, lines);
        lemma_fundamental_div_mod(y, lines);
    }
}

/// Every slot is the slot of some position.
pub proof fn lemma_slot_surjective(slot: int, order: int) -> (position: int)
    requires
        0 <= order < 64,
        0 <= slot < two_to(order),
    ensures
        0 <= position < two_to(order),
        slot_of(position, order) == slot,
{
    reveal(slot_of);
    let n = two_to(order);
    lemma_two_to(order);
    if order < LFRING_MIN {
        lemma_small_mod(slot as nat, n as nat);
        slot
    } else {
        let lines = two_to(order - LFRING_MIN);
        lemma_two_to_adds(LFRING_MIN as int, order - LFRING_MIN);
        lemma2_to64();
        lemma_two_to(order - LFRING_MIN);
        let high = slot % 16;
        let low = slot / 16;
        let x = high * lines + low;
        assert(0 <= x < n) by (nonlinear_arith)
            requires
                x == high * lines + low,
                0 <= high < 16,
                0 <= low < lines,
                n == 16 * lines,
        ;
        lemma_small_mod(x as nat, n as nat);
        lemma_fundamental_div_mod_converse(x, lines, high, low);
        x
    }
}

/// Within one lap, from any position on, there is a position that shares its slot with the given
/// one.
pub proof fn lemma_slot_window_position(position: int, from: int, order: int) -> (p: int)
    requires
        0 <= order < 64,
    ensures
        from <= p < from + two_to(order),
        slot_of(p, order) == slot_of(position, order),
        p % two_to(order) == position % two_to(order),
        position < from ==> position <= p - two_to(order),
        from <= position < from + two_to(order) ==> p == position,
{
    let n = two_to(order);
    lemma_two_to(order);
    let d = position - from;
    let laps = d / n;
    let p = from + d % n;
    lemma_fundamental_div_mod(d, n);
    assert(p == n * (-laps) + position) by (nonlinear_arith)
        requires
            p == from + d % n,
            d == position - from,
            d == n * laps + d % n,
    ;
    lemma_mod_multiples_vanish(-laps, position, n);
    lemma_slot_same(position, p, order);
    if d < 0 {
        assert(position <= p - n) by (nonlinear_arith)
            requires
                d < 0,
                d == n * laps + d % n,
                0 <= d % n < n,
                p == n * (-laps) + position,
                0 < n,
        ;
    } else if d < n {
        lemma_small_mod(d as nat, n as nat);
    }
    p
}

/// Within a window of one ring's length, different positions have different slots.
pub proof fn lemma_slot_window(p: int, q: int, order: int)
    requires
        0 <= order < 64,
        -two_to(order) < p - q < two_to(order),
        p != q,
    ensures
        slot_of(p, order) != slot_of(q, order),
{
    let n = two_to(order);
    lemma_two_to(order);
    if slot_of(p, order) == slot_of(q, order) {
        lemma_slot_injective(p, q, order);
        lemma_mod_equivalence(p, q, n);
        if p > q {
            lemma_small_mod((p - q) as nat, n as nat);
        } else {
            lemma_mod_equivalence(q, p, n);
            lemma_small_mod((q - p) as nat, n as nat);
        }
    }
}

/// The comparison of counters is the comparison of the positions that they stand for, however often
/// the counters have wrapped around, as long as these are less than half the circle apart.
pub proof fn lemma_counters(a: int, b: int)
    requires
        -0x8000_0000_0000_0000 <= a - b < 0x8000_0000_0000_0000,
    ensures
        precedes(counter(a), counter(b)) == (a < b),
        (counter(a) == counter(b)) == (a == b),
{
    reveal(counter);
}

/// A counter that has moved on stands for a position that has moved on as far.
pub proof fn lemma_counter_moves(a: int, by: u64)
    ensures
        moved(counter(a), by) == counter(a + by),
{
    reveal(counter);
    vstd::arithmetic::div_mod::lemma_add_mod_noop_right(by as int, a, 0x1_0000_0000_0000_0000);
}

/// A counter that has never wrapped around is its position.
pub proof fn lemma_counter_small(position: int)
    requires
        0 <= position <= u64::MAX,
    ensures
        counter(position) == position,
{
    reveal(counter);
}

/// Law: a counter comes before another one exactly when the other is reached from it by going up
/// between one and `2^63` steps, however the counters wrap around on the way.
pub proof fn law_counters_compare(x: u64, y: u64, steps: u64)
    requires
        y == (x + steps) % 0x1_0000_0000_0000_0000,
    ensures
        precedes(x, y) <==> 1 <= steps <= 0x8000_0000_0000_0000,
        x == y <==> steps == 0,
{
}

/// Law: a counter that moves goes up modulo `2^64`.
pub proof fn law_counters_wrap_around(x: u64, by: u64)
    ensures
        moved(x, by) == (x + by) % 0x1_0000_0000_0000_0000,
{
}

/// Law: the powers of two start at one and double.
pub proof fn law_powers_double(order: int)
    requires
        0 <= order,
    ensures
        two_to(0) == 1,
        two_to(order + 1) == 2 * two_to(order),
{
    lemma2_to64();
    lemma_pow2_unfold((order + 1) as nat);
}

/// Law: the slots of a ring follow each other in a fixed pattern. The first position has the first
/// slot. In a ring of at least sixteen slots, each next position lies sixteen slots on, and when
/// this leads past the end, it starts over one slot further than the last time. In a smaller ring,
/// each next position has the next slot.
pub proof fn law_slots_in_sequence(position: int, order: int)
    requires
        0 <= order < 64,
    ensures
        slot_of(0, order) == 0,
        ({
            let n = vstd::arithmetic::power2::pow2(order as nat) as int;
            let here = slot_of(position, order);
            let next = slot_of(position + 1, order);
            let far = if order < 4 {
                1int
            } else {
                16
            };
            &&& 0 <= here < n
            &&& here + far < n ==> next == here + far
            &&& here + far >= n && here != n - 1 ==> next == here + far - n + 1
            &&& here == n - 1 ==> next == 0
        }),
{
    reveal(slot_of);
    let n = two_to(order);
    lemma_two_to(order);
    lemma_slot_in_ring(position, order);
    lemma_small_mod(0, n as nat);
    let x = position % n;
    let y = (position + 1) % n;
    assert(y == if x == n - 1 {
        0
    } else {
        x + 1
    }) by {
        lemma_fundamental_div_mod(position, n);
        let q = position / n;
        if x == n - 1 {
            assert(position + 1 == (q + 1) * n + 0) by (nonlinear_arith)
                requires
                    position == n * q + x,
                    x == n - 1,
            ;
            lemma_fundamental_div_mod_converse(position + 1, n, q + 1, 0);
        } else {
            assert(position + 1 == q * n + (x + 1)) by (nonlinear_arith)
                requires
                    position == n * q + x,
            ;
            lemma_fundamental_div_mod_converse(position + 1, n, q, x + 1);
        }
    }
    if order >= 4 {
        let lines = two_to(order - 4);
        lemma_two_to(order - 4);
        lemma_two_to_adds(4, order - 4);
        lemma2_to64();
        assert(n == 16 * lines);
        lemma_small_mod(0, lines as nat);
        lemma_fundamental_div_mod(x, lines);
        let (a, b) = (x / lines, x % lines);
        assert(0 <= a < 16) by (nonlinear_arith)
            requires
                x == lines * a + b,
                0 <= b < lines,
                0 <= x < 16 * lines,
        ;
        assert(0int / lines == 0) by (nonlinear_arith)
            requires
                0 < lines,
        ;
        if x == n - 1 {
            assert(x == 15 * lines + (lines - 1));
            lemma_fundamental_div_mod_converse(x, lines, 15, lines - 1);
        } else if b == lines - 1 {
            assert(x + 1 == (a + 1) * lines + 0) by (nonlinear_arith)
                requires
                    x == lines * a + b,
                    b == lines - 1,
            ;
            lemma_fundamental_div_mod_converse(x + 1, lines, a + 1, 0);
            assert(a < 15) by (nonlinear_arith)
                requires
                    x == lines * a + b,
                    b == lines - 1,
                    a < 16,
                    x != 16 * lines - 1,
            ;
        } else {
            assert(x + 1 == a * lines + (b + 1)) by (nonlinear_arith)
                requires
                    x == lines * a + b,
            ;
            lemma_fundamental_div_mod_converse(x + 1, lines, a, b + 1);
        }
    }
}

/// Law: in a ring of more than one cache line, neighbouring positions have slots on different
/// lines.
pub proof fn law_neighbours_on_different_lines(position: int, order: int)
    requires
        LFRING_MIN < order < 64,
    ensures
        slot_of(position, order) / 16 != slot_of(position + 1, order) / 16,
{
    lemma_line(position, order);
    lemma_line(position + 1, order);
    let lines = two_to(order - LFRING_MIN);
    lemma_two_to(order - LFRING_MIN - 1);
    if position % lines == (position + 1) % lines {
        lemma_mod_equivalence(position + 1, position, lines);
        lemma_small_mod(1, lines as nat);
    }
}

/// The line that a position's slot is on.
proof fn lemma_line(position: int, order: int)
    requires
        LFRING_MIN <= order < 64,
    ensures
        slot_of(position, order) / 16 == position % two_to(order - LFRING_MIN),
{
    reveal(slot_of);
    let lines = two_to(order - LFRING_MIN);
    lemma_two_to(order);
    lemma_two_to(order - LFRING_MIN);
    lemma_two_to_adds(LFRING_MIN as int, order - LFRING_MIN);
    lemma2_to64();
    let x = position % two_to(order);
    assert(0 <= x / lines < 16) by (nonlinear_arith)
        requires
            0 <= x < 16 * lines,
            0 < lines,
    ;
    lemma_mod_mod(position, lines, 16);
    assert(two_to(order) == lines * 16);
}

/// Signed comparison of two counters: whether `x` is behind `y`.
pub fn lfring_cmp_lt(x: u64, y: u64) -> (r: bool)
    ensures
        r == precedes(x, y),
        r == ((x - y) % 0x1_0000_0000_0000_0000 >= 0x8000_0000_0000_0000),
{
    x.wrapping_sub(y) >= 0x8000_0000_0000_0000
}

/// Signed comparison of two counters: whether `x` is behind `y` or equal to it.
pub fn lfring_cmp_le(x: u64, y: u64) -> (r: bool)
    ensures
        r == (x == y || precedes(x, y)),
        r == (x == y || (x - y) % 0x1_0000_0000_0000_0000 >= 0x8000_0000_0000_0000),
{
    let distance: u64 = x.wrapping_sub(y);
    distance == 0 || distance >= 0x8000_0000_0000_0000
}

/// `2^order`.
pub fn pow2(order: usize) -> (r: usize)
    requires
        order < usize::BITS,
    ensures
        r == two_to(order as int),
        r == vstd::arithmetic::power2::pow2(order as nat),
{
    proof {
        lemma_usize_pow2_no_overflow(order as nat);
        lemma_usize_shl_is_mul(1, order);
    }
    1 << order
}

/// The budget of failed visits after which a ring of `n` slots, `half` of them in use, is known to
/// be empty.
pub fn threshold_value(half: usize, n: usize) -> (r: i64)
    requires
        1 <= half + n <= usize::MAX,
    ensures
        r == (half + n - 1) as i64,
{
    (half + n - 1) as i64
}

/// Maps a ring position to a slot of an array of `n` words, `2^order` of them.
pub fn raw_map(idx: u64, order: usize, n: usize) -> (r: usize)
    requires
        order < usize::BITS,
        n == two_to(order as int),
    ensures
        r == slot_of(idx as int, order as int),
        order < LFRING_MIN ==> r == idx as int % n as int,
        order >= LFRING_MIN ==> ({
            let x = idx as int % n as int;
            let lines = two_to(order - LFRING_MIN);
            r == x / lines + 16 * (x % lines)
        }),
{
    proof {
        lemma_two_to(order as int);
    }
    let mask: u64 = (n - 1) as u64;
    proof {
        reveal(slot_of);
        lemma_mask(idx, order as int);
        lemma_slot_in_ring(idx as int, order as int);
    }
    if order < LFRING_MIN {
        (idx & mask) as usize
    } else {
        let high: u64 = (idx & mask) >> ((order - LFRING_MIN) as u64);
        let low: u64 = (idx << 4) & mask;
        proof {
            let shift = (order - LFRING_MIN) as u64;
            let lines = two_to(shift as int);
            let x = idx as int % two_to(order as int);
            lemma_two_to(shift as int);
            lemma_two_to_adds(LFRING_MIN as int, shift as int);
            lemma2_to64();
            lemma_u64_shr_is_div(idx & mask, shift);
            assert(high == x / lines);
            assert(high < 16) by (nonlinear_arith)
                requires
                    high == x / lines,
                    0 <= x < 16 * lines,
                    0 < lines,
            ;
            let line_mask = (lines - 1) as u64;
            lemma_mask(idx, shift as int);
            assert(mask == 16 * line_mask + 15);
            assert((idx << 4) & mask == 16 * (idx & line_mask) && ((idx << 4) & mask) & 15 == 0)
                by (bit_vector)
                requires
                    mask == 16 * line_mask + 15,
            ;
            assert(x % lines == idx as int % lines) by {
                lemma_mod_mod(idx as int, lines, 16);
            }
            assert(high | low == high + low) by (bit_vector)
                requires
                    high < 16,
                    low & 15 == 0,
            ;
        }
        (high | low) as usize
    }
}

/// Maps a ring position to a slot of the ring of order `order`, which has `n` slots, twice as many
/// as indices it is meant to hold.
pub fn map(idx: u64, order: usize, n: usize) -> (r: usize)
    requires
        order + 1 < usize::BITS,
        n == two_to(order + 1),
    ensures
        r == slot_of(idx as int, order + 1),
        order < 3 ==> r == idx as int % n as int,
        order >= 3 ==> ({
            let x = idx as int % n as int;
            let lines = two_to(order - 3);
            r == x / lines + 16 * (x % lines)
        }),
{
    raw_map(idx, order + 1, n)
}

} // verus!
