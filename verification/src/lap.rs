//! Words seen as laps of the ring, for positions that are small enough never to wrap around.
use vstd::prelude::*;
use vstd::arithmetic::div_mod::{
    lemma_fundamental_div_mod, lemma_fundamental_div_mod_converse,
};
use vstd::arithmetic::power2::{lemma2_to64_rest, lemma_pow2_pos};
use crate::entry::{
    cycle_precedes, encode, entry_cycle, entry_index, entry_safe, lemma_encode, lemma_entry,
    lemma_position_cycle, lemma_ring_size, lemma_word_parts, position_cycle, ring_size, tag, vacant,
};
use crate::position::{
    lemma_slot_injective, lemma_two_to, lemma_two_to_adds, slot_of, two_to,
};

verus! {

/// The number of positions that are looked at here.
pub open spec fn horizon() -> int {
    0x2000_0000_0000_0000
}

/// The lap in which a word was written; words that were never written are from the lap before the
/// first.
#[verifier::opaque]
pub open spec fn lap(w: u64, n: u64) -> int {
    if w < 0x8000_0000_0000_0000 {
        w as int / (2 * n)
    } else {
        (w - 0x1_0000_0000_0000_0000) / (2 * n)
    }
}

/// The lap of a position.
#[verifier::opaque]
pub open spec fn lap_of(position: int, n: u64) -> int {
    position / (n as int)
}

/// Whether the word is from the laps that are looked at here.
pub open spec fn in_sight(w: u64, n: u64) -> bool {
    -1 <= lap(w, n) <= lap_of(horizon(), n)
}

proof fn lemma_laps(n: u64) -> (laps: int)
    requires
        ring_size(n),
    ensures
        n * laps == 0x8000_0000_0000_0000,
        16 <= laps,
        0 < n <= 0x800_0000_0000_0000,
{
    let order = lemma_ring_size(n);
    lemma2_to64_rest();
    lemma_two_to_adds(order, 63 - order);
    lemma_pow2_pos((63 - order) as nat);
    let laps = two_to(63 - order);
    assert(16 <= laps) by (nonlinear_arith)
        requires
            n * laps == 0x8000_0000_0000_0000,
            0 < n <= 0x800_0000_0000_0000,
    ;
    laps
}

/// A word's lap and its cycle.
proof fn lemma_lap_cycle(w: u64, n: u64, laps: int)
    requires
        ring_size(n),
        n * laps == 0x8000_0000_0000_0000,
    ensures
        lap(w, n) == (if lap(w, n) >= 0 {
            entry_cycle(w, n)
        } else {
            entry_cycle(w, n) - laps
        }),
        lap(w, n) >= 0 <==> w < 0x8000_0000_0000_0000,
        0 <= entry_cycle(w, n) < laps,
{
    let order = lemma_ring_size(n);
    reveal(lap);
    reveal(entry_cycle);
    let d = 2 * n as int;
    let c = w as int / d;
    let r = w as int % d;
    lemma_fundamental_div_mod(w as int, d);
    assert(c * d == d * c) by (nonlinear_arith);
    assert(laps * d == 0x1_0000_0000_0000_0000) by (nonlinear_arith)
        requires
            d == 2 * n,
            n * laps == 0x8000_0000_0000_0000,
    ;
    assert(0 <= c < laps) by (nonlinear_arith)
        requires
            w == c * d + r,
            0 <= r < d,
            laps * d == 0x1_0000_0000_0000_0000,
            0 <= w < 0x1_0000_0000_0000_0000,
            0 < d,
    ;
    if w >= 0x8000_0000_0000_0000 {
        assert(w - 0x1_0000_0000_0000_0000 == (c - laps) * d + r) by (nonlinear_arith)
            requires
                w == c * d + r,
                laps * d == 0x1_0000_0000_0000_0000,
        ;
        lemma_fundamental_div_mod_converse(w - 0x1_0000_0000_0000_0000, d, c - laps, r);
    }
}

/// A position's lap and its cycle.
proof fn lemma_position_lap(p: int, n: u64)
    requires
        ring_size(n),
        0 <= p <= horizon(),
    ensures
        position_cycle(p, n) == lap_of(p, n),
        0 <= lap_of(p, n),
        n * lap_of(p, n) <= p,
{
    let order = lemma_ring_size(n);
    reveal(position_cycle);
    reveal(lap_of);
    vstd::arithmetic::div_mod::lemma_small_mod(p as nat, 0x8000_0000_0000_0000);
    lemma_fundamental_div_mod(p, n as int);
    assert(0 <= p / (n as int)) by (nonlinear_arith)
        requires
            0 <= p,
            0 < n,
    ;
}

/// Words and positions compare by their laps.
pub proof fn lemma_compare_laps(w: u64, p: int, n: u64)
    requires
        ring_size(n),
        0 <= p <= horizon(),
        in_sight(w, n),
    ensures
        entry_cycle(w, n) == position_cycle(p, n) <==> lap(w, n) == lap_of(p, n),
        cycle_precedes(entry_cycle(w, n), position_cycle(p, n), n) <==> lap(w, n) < lap_of(p, n),
{
    let laps = lemma_laps(n);
    lemma_lap_cycle(w, n, laps);
    lemma_position_lap(p, n);
    lemma_position_lap(horizon(), n);
    reveal(cycle_precedes);
    let a = lap(w, n);
    let b = lap_of(p, n);
    let m: int = 0x1_0000_0000_0000_0000;
    assert(4 * b <= laps) by (nonlinear_arith)
        requires
            n * b <= p,
            p <= 0x2000_0000_0000_0000,
            n * laps == 0x8000_0000_0000_0000,
            0 < n,
    ;
    assert(2 * n * a <= 0x4000_0000_0000_0000) by (nonlinear_arith)
        requires
            a <= lap_of(horizon(), n),
            n * lap_of(horizon(), n) <= 0x2000_0000_0000_0000,
            0 < n,
    ;
    assert(2 * n * a >= -0x1000_0000_0000_0000) by (nonlinear_arith)
        requires
            a >= -1,
            0 < n <= 0x800_0000_0000_0000,
    ;
    assert(0 <= 2 * n * b <= 0x4000_0000_0000_0000) by (nonlinear_arith)
        requires
            0 <= b,
            n * b <= p,
            p <= 0x2000_0000_0000_0000,
            0 < n,
    ;
    assert(2 * n * (a - b) == 2 * n * a - 2 * n * b) by (nonlinear_arith);
    assert(a < b ==> 2 * n * (a - b) < 0) by (nonlinear_arith)
        requires
            0 < n,
    ;
    assert(a >= b ==> 2 * n * (a - b) >= 0) by (nonlinear_arith)
        requires
            0 < n,
    ;
    if a < 0 {
        assert(2 * n * (a + laps - b) == 2 * n * (a - b) + m) by (nonlinear_arith)
            requires
                n * laps == 0x8000_0000_0000_0000,
                m == 0x1_0000_0000_0000_0000,
        ;
    }
}

/// The parts of a word that is written for a position.
pub proof fn lemma_position_word(p: int, safe: bool, index: int, n: u64)
    requires
        ring_size(n),
        0 <= p <= horizon(),
        0 <= index < n,
    ensures
        ({
            let w = encode(position_cycle(p, n), safe, index, n);
            &&& 0 <= w <= u64::MAX
            &&& lap(w as u64, n) == lap_of(p, n)
            &&& entry_safe(w as u64, n) == safe
            &&& entry_index(w as u64, n) == index
        }),
{
    let laps = lemma_laps(n);
    lemma_position_lap(p, n);
    lemma_position_cycle(p, n);
    let c = position_cycle(p, n);
    let w = encode(c, safe, index, n);
    assert(0 <= w < 0x8000_0000_0000_0000) by {
        reveal(encode);
        assert(0 <= 2 * n * c <= 0x4000_0000_0000_0000) by (nonlinear_arith)
            requires
                0 <= c,
                n * c <= p,
                p <= 0x2000_0000_0000_0000,
                0 < n,
        ;
    }
    lemma_encode(c, safe, index, n);
    lemma_lap_cycle(w as u64, n, laps);
}

/// Marking a word unsafe keeps its lap and its index.
pub proof fn lemma_marked_word(w: u64, n: u64)
    requires
        ring_size(n),
    ensures
        ({
            let v = encode(entry_cycle(w, n), false, entry_index(w, n), n);
            &&& 0 <= v <= u64::MAX
            &&& lap(v as u64, n) == lap(w, n)
            &&& !entry_safe(v as u64, n)
            &&& entry_index(v as u64, n) == entry_index(w, n)
        }),
{
    lemma_entry(w, n);
    let laps = lemma_laps(n);
    let v = encode(entry_cycle(w, n), false, entry_index(w, n), n);
    lemma_same_cycle(w, v, n);
}

/// Setting all bits of a word's index keeps its lap and its safety.
pub proof fn lemma_vacated_word(w: u64, n: u64)
    requires
        ring_size(n),
    ensures
        ({
            let v = w | ((n - 1) as u64);
            &&& lap(v, n) == lap(w, n)
            &&& entry_safe(v, n) == entry_safe(w, n)
            &&& vacant(v, n)
        }),
{
    lemma_entry(w, n);
    let order = lemma_ring_size(n);
    let v = encode(entry_cycle(w, n), entry_safe(w, n), n - 1, n);
    lemma_encode(entry_cycle(w, n), entry_safe(w, n), n - 1, n);
    lemma_same_cycle(w, v, n);
}

/// Words of the same cycle are of the same lap.
proof fn lemma_same_cycle(w: u64, v: int, n: u64)
    requires
        ring_size(n),
        exists|safe: bool, index: int|
            0 <= index < n && v == #[trigger] encode(entry_cycle(w, n), safe, index, n),
    ensures
        0 <= v <= u64::MAX,
        lap(v as u64, n) == lap(w, n),
        forall|safe: bool, index: int|
            0 <= index < n && v == #[trigger] encode(entry_cycle(w, n), safe, index, n) ==> {
                &&& entry_safe(v as u64, n) == safe
                &&& entry_index(v as u64, n) == index
            },
{
    let laps = lemma_laps(n);
    lemma_lap_cycle(w, n, laps);
    lemma_entry(w, n);
    let c = entry_cycle(w, n);
    assert forall|safe: bool, index: int|
        0 <= index < n && v == #[trigger] encode(c, safe, index, n) implies 0 <= v <= u64::MAX && {
        &&& entry_cycle(v as u64, n) == c
        &&& entry_safe(v as u64, n) == safe
        &&& entry_index(v as u64, n) == index
    } by {
        assert(v <= u64::MAX) by {
            reveal(encode);
            reveal(tag);
        }
        lemma_encode(c, safe, index, n);
    }
    lemma_lap_cycle(v as u64, n, laps);
    // A word is in the upper half exactly when its cycle is.
    assert(lap(v as u64, n) >= 0 <==> lap(w, n) >= 0) by {
        reveal(encode);
        let half = 0x8000_0000_0000_0000int;
        let (safe, index) = choose|safe: bool, index: int|
            0 <= index < n && v == #[trigger] encode(c, safe, index, n);
        let low = v - 2 * n * c;
        let low2 = w - 2 * n * c;
        assert(0 <= low < 2 * n && 0 <= low2 < 2 * n);
        let order = lemma_ring_size(n);
        lemma2_to64_rest();
        lemma_two_to_adds(order + 1, 62 - order);
        let m = two_to(62 - order);
        assert(2 * n * m == half);
        assert((c < m) == (v < half)) by (nonlinear_arith)
            requires
                v == 2 * n * c + low,
                0 <= low < 2 * n,
                2 * n * m == half,
                0 < n,
        ;
        assert((c < m) == (w < half)) by (nonlinear_arith)
            requires
                w == 2 * n * c + low2,
                0 <= low2 < 2 * n,
                2 * n * m == half,
                0 < n,
        ;
    }
}

/// Among positions that share a slot, laps tell which comes first.
pub proof fn lemma_same_slot(p: int, q: int, order: int, n: u64)
    requires
        ring_size(n),
        0 <= order < 64,
        n == two_to(order),
        slot_of(p, order) == slot_of(q, order),
    ensures
        p < q <==> lap_of(p, n) < lap_of(q, n),
        p == q <==> lap_of(p, n) == lap_of(q, n),
{
    reveal(lap_of);
    lemma_two_to(order);
    lemma_slot_injective(p, q, order);
    lemma_fundamental_div_mod(p, n as int);
    lemma_fundamental_div_mod(q, n as int);
    let a = p / (n as int);
    let b = q / (n as int);
    assert((a < b) == (n * a < n * b) && (a == b) == (n * a == n * b)) by (nonlinear_arith)
        requires
            0 < n,
    ;
}

/// Laps do not decrease from one position to a later one.
pub proof fn lemma_lap_monotonic(p: int, q: int, n: u64)
    requires
        ring_size(n),
        p <= q,
    ensures
        lap_of(p, n) <= lap_of(q, n),
{
    reveal(lap_of);
    let order = lemma_ring_size(n);
    vstd::arithmetic::div_mod::lemma_div_is_ordered(p, q, n as int);
}

/// The word that stands for a position of the lap before the first.
pub proof fn lemma_word_before_first(p: int, n: u64)
    requires
        ring_size(n),
        -n <= p < 0,
    ensures
        ({
            let w = encode(position_cycle(p, n), true, n - 1, n);
            &&& w == u64::MAX
            &&& lap(w as u64, n) == -1
            &&& entry_safe(w as u64, n)
            &&& vacant(w as u64, n)
        }),
{
    let laps = lemma_laps(n);
    reveal(position_cycle);
    reveal(encode);
    reveal(lap);
    let h: int = 0x8000_0000_0000_0000;
    assert(p % h == p + h);
    assert(p + h == (laps - 1) * n + (p + n)) by (nonlinear_arith)
        requires
            n * laps == h,
    ;
    lemma_fundamental_div_mod_converse(p + h, n as int, laps - 1, p + n);
    assert(2 * n * (laps - 1) == 2 * h - 2 * n) by (nonlinear_arith)
        requires
            n * laps == h,
    ;
    lemma_word_parts(p, n - 1, n);
    lemma_fundamental_div_mod_converse(-1, 2 * n, -1, 2 * n - 1);
}

} // verus!
