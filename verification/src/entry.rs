//! The 64-bit words of a ring. A word of a ring with `n` slots holds, from the top: the cycle in
//! which it was written, one bit that says whether a later enqueue may trust it, and an index
//! below `n`. The index `n - 1` marks a slot that holds nothing.
use vstd::prelude::*;
use vstd::arithmetic::div_mod::{
    lemma_fundamental_div_mod, lemma_fundamental_div_mod_converse, lemma_mod_breakdown,
    lemma_mod_mod,
};
use vstd::arithmetic::mul::lemma_mul_is_commutative;
use vstd::arithmetic::power2::{lemma2_to64_rest, lemma_pow2_pos};
use crate::position::{
    addressable, counter, lemma_addressable, lemma_mask, lemma_two_to, lemma_two_to_adds,
    precedes, two_to,
};

verus! {

/// Whether `n` is the number of slots of some ring.
pub open spec fn ring_size(n: u64) -> bool {
    exists|order: int| addressable(order) && n == #[trigger] two_to(order)
}

/// The cycle in which the word was written.
#[verifier::opaque]
pub open spec fn entry_cycle(w: u64, n: u64) -> int {
    w as int / (2 * n)
}

/// Whether the word is safe to overwrite without a look at the head counter.
#[verifier::opaque]
pub open spec fn entry_safe(w: u64, n: u64) -> bool {
    (w as int / n as int) % 2 == 1
}

/// The index that the word holds.
#[verifier::opaque]
pub open spec fn entry_index(w: u64, n: u64) -> int {
    w as int % n as int
}

/// Whether the word holds nothing.
pub open spec fn vacant(w: u64, n: u64) -> bool {
    entry_index(w, n) == n - 1
}

/// The word with the given parts.
#[verifier::opaque]
pub open spec fn encode(cycle: int, safe: bool, index: int, n: u64) -> int {
    2 * n * cycle + (if safe {
        n as int
    } else {
        0
    }) + index
}

/// The cycle that a position falls in.
#[verifier::opaque]
pub open spec fn position_cycle(position: int, n: u64) -> int {
    (position % 0x8000_0000_0000_0000) / n as int
}

/// A cycle as the counters carry it: all bits below it set.
#[verifier::opaque]
pub open spec fn tag(cycle: int, n: u64) -> int {
    2 * n * cycle + 2 * n - 1
}

/// Whether cycle `a` comes strictly before cycle `b`, on the circle of cycles.
#[verifier::opaque]
pub open spec fn cycle_precedes(a: int, b: int, n: u64) -> bool {
    (2 * n * (a - b)) % 0x1_0000_0000_0000_0000 >= 0x8000_0000_0000_0000
}

/// The order of a ring of this size.
pub proof fn lemma_ring_size(n: u64) -> (order: int)
    requires
        ring_size(n),
    ensures
        addressable(order),
        n == two_to(order),
        order <= 59,
        2 * n == two_to(order + 1),
        0 < n <= 0x800_0000_0000_0000,
        n & ((n - 1) as u64) == 0,
{
    let order = choose|order: int| addressable(order) && n == #[trigger] two_to(order);
    lemma_addressable(order);
    lemma_two_to(order);
    let k = order as u64;
    assert(n & ((n - 1) as u64) == 0) by (bit_vector)
        requires
            k < 64,
            n == 1u64 << k,
    ;
    order
}

/// Words and their parts determine each other.
pub proof fn lemma_encode(cycle: int, safe: bool, index: int, n: u64)
    requires
        ring_size(n),
        0 <= cycle,
        0 <= index < n,
        encode(cycle, safe, index, n) <= u64::MAX,
    ensures
        entry_cycle(encode(cycle, safe, index, n) as u64, n) == cycle,
        entry_safe(encode(cycle, safe, index, n) as u64, n) == safe,
        entry_index(encode(cycle, safe, index, n) as u64, n) == index,
        0 <= encode(cycle, safe, index, n),
{
    reveal(entry_cycle);
    reveal(entry_safe);
    reveal(entry_index);
    reveal(encode);
    let order = lemma_ring_size(n);
    let w = encode(cycle, safe, index, n);
    let bit: int = if safe { 1 } else { 0 };
    assert(2 * n * cycle >= 0) by (nonlinear_arith)
        requires
            0 <= cycle,
            0 < n,
    ;
    assert(w == cycle * (2 * n) + (bit * n + index)) by (nonlinear_arith)
        requires
            w == 2 * n * cycle + bit * n + index,
    ;
    lemma_fundamental_div_mod_converse(w, 2 * n, cycle, bit * n + index);
    assert(w == (2 * cycle + bit) * n + index) by (nonlinear_arith)
        requires
            w == 2 * n * cycle + bit * n + index,
    ;
    lemma_fundamental_div_mod_converse(w, n as int, 2 * cycle + bit, index);
}

/// How the parts of a word show in its bits.
pub proof fn lemma_entry(w: u64, n: u64)
    requires
        ring_size(n),
    ensures
        w == encode(entry_cycle(w, n), entry_safe(w, n), entry_index(w, n), n),
        0 <= entry_cycle(w, n),
        0 <= entry_index(w, n) < n,
        tag(entry_cycle(w, n), n) <= u64::MAX,
        w | ((2 * n - 1) as u64) == tag(entry_cycle(w, n), n),
        w == w | ((2 * n - 1) as u64) <==> vacant(w, n) && entry_safe(w, n),
        w == (w | ((2 * n - 1) as u64)) ^ n <==> vacant(w, n) && !entry_safe(w, n),
        w & !n == encode(entry_cycle(w, n), false, entry_index(w, n), n),
        w & !n == w <==> !entry_safe(w, n),
        w | ((n - 1) as u64) == encode(entry_cycle(w, n), entry_safe(w, n), n - 1, n),
        w & ((n - 1) as u64) == entry_index(w, n),
{
    reveal(entry_cycle);
    reveal(entry_safe);
    reveal(entry_index);
    reveal(encode);
    reveal(tag);
    let order = lemma_ring_size(n);
    let m = (n - 1) as u64;
    let mm = (2 * n - 1) as u64;
    lemma_mask(w, order);
    lemma_mask(w, order + 1);
    lemma_mod_breakdown(w as int, n as int, 2);
    lemma_mul_is_commutative(n as int, 2);
    lemma_fundamental_div_mod(w as int, 2 * n);
    let low = w & m;
    let bit = w & n;
    let high = (w - (w & mm)) as u64;
    assert(w & mm == bit + low && (bit == 0 || bit == n) && low <= m && w & mm <= w) by (bit_vector)
        requires
            0 < n <= 0x800_0000_0000_0000u64,
            n & m == 0,
            m == n - 1,
            mm == 2 * n - 1,
            low == w & m,
            bit == w & n,
    ;
    let s = (w as int / n as int) % 2;
    assert(s == 0 || s == 1);
    assert(n * s == bit);
    assert(bit == n <==> entry_safe(w, n)) by (nonlinear_arith)
        requires
            n * s == bit,
            s == 0 || s == 1,
            0 < n,
            entry_safe(w, n) <==> s == 1,
    ;
    assert({
        &&& w | mm == high + mm
        &&& w | m == high + bit + m
        &&& w & !n == high + low
        &&& (w | mm) ^ n == high + mm - n
    }) by (bit_vector)
        requires
            0 < n <= 0x800_0000_0000_0000u64,
            n & m == 0,
            m == n - 1,
            mm == 2 * n - 1,
            low == w & m,
            bit == w & n,
            high == w - (w & mm),
    ;
}

/// Clearing the safe bit of a word changes nothing else about it.
pub proof fn lemma_disarmed_word(w: u64, n: u64)
    requires
        ring_size(n),
    ensures
        entry_cycle(w & !n, n) == entry_cycle(w, n),
        !entry_safe(w & !n, n),
        entry_index(w & !n, n) == entry_index(w, n),
{
    lemma_entry(w, n);
    lemma_encode(entry_cycle(w, n), false, entry_index(w, n), n);
}

/// Setting all bits of a word's index takes the index away and changes nothing else.
pub proof fn lemma_emptied_word(w: u64, n: u64)
    requires
        ring_size(n),
    ensures
        entry_cycle(w | ((n - 1) as u64), n) == entry_cycle(w, n),
        entry_safe(w | ((n - 1) as u64), n) == entry_safe(w, n),
        vacant(w | ((n - 1) as u64), n),
{
    lemma_entry(w, n);
    let _ = lemma_ring_size(n);
    lemma_encode(entry_cycle(w, n), entry_safe(w, n), n - 1, n);
}

/// The tag of a position's cycle is the position, doubled, with all lower bits set.
pub proof fn lemma_position_tag(p: u64, n: u64)
    requires
        ring_size(n),
    ensures
        (p << 1) | ((2 * n - 1) as u64) == tag(position_cycle(p as int, n), n),
        0 <= position_cycle(p as int, n),
        tag(position_cycle(p as int, n), n) <= u64::MAX,
{
    reveal(entry_cycle);
    reveal(position_cycle);
    reveal(tag);
    let order = lemma_ring_size(n);
    let d = p << 1;
    let half = p as int % 0x8000_0000_0000_0000;
    assert(d == 2 * (p % 0x8000_0000_0000_0000)) by (bit_vector)
        requires
            d == p << 1,
    ;
    lemma_entry(d, n);
    assert(d as int / (2 * n) == half / n as int) by {
        lemma_fundamental_div_mod(half, n as int);
        let q = half / n as int;
        let r = half % n as int;
        assert(d == q * (2 * n) + 2 * r) by (nonlinear_arith)
            requires
                d == 2 * half,
                half == n * q + r,
        ;
        lemma_fundamental_div_mod_converse(d as int, 2 * n, q, 2 * r);
    }
}

/// Words that are built from a tag.
pub proof fn lemma_tag_words(cycle: int, n: u64, index: u64)
    requires
        ring_size(n),
        0 <= cycle,
        tag(cycle, n) <= u64::MAX,
        index < n,
    ensures
        0 <= tag(cycle, n),
        (tag(cycle, n) as u64) ^ (index ^ ((n - 1) as u64)) == encode(cycle, true, index as int, n),
{
    reveal(encode);
    reveal(tag);
    let order = lemma_ring_size(n);
    assert(2 * n * cycle >= 0) by (nonlinear_arith)
        requires
            0 <= cycle,
            0 < n,
    ;
    let t = tag(cycle, n) as u64;
    let m = (n - 1) as u64;
    let mm = (2 * n - 1) as u64;
    assert(t & mm == mm) by {
        lemma_mask(t, order + 1);
        assert(t == cycle * (2 * n) + (2 * n - 1)) by (nonlinear_arith)
            requires
                t == 2 * n * cycle + 2 * n - 1,
        ;
        lemma_fundamental_div_mod_converse(t as int, 2 * n, cycle, 2 * n - 1);
    }
    assert(t ^ (index ^ m) == t - m + index && index ^ m <= m) by (bit_vector)
        requires
            0 < n <= 0x800_0000_0000_0000u64,
            n & m == 0,
            m == n - 1,
            mm == 2 * n - 1,
            t & mm == mm,
            index < n,
    ;
}

/// Tags are equal exactly when their cycles are, and they follow each other as their cycles do.
pub proof fn lemma_tags(a: int, b: int, n: u64)
    requires
        ring_size(n),
        0 <= tag(a, n) <= u64::MAX,
        0 <= tag(b, n) <= u64::MAX,
    ensures
        tag(a, n) == tag(b, n) <==> a == b,
        precedes(tag(a, n) as u64, tag(b, n) as u64) == cycle_precedes(a, b, n),
{
    reveal(tag);
    reveal(cycle_precedes);
    let order = lemma_ring_size(n);
    assert(2 * n * a - 2 * n * b == 2 * n * (a - b)) by (nonlinear_arith);
    assert(2 * n * (a - b) == 0 ==> a == b) by (nonlinear_arith)
        requires
            0 < n,
    ;
}

/// A word's tag and a position's tag compare as their cycles do.
pub proof fn lemma_entry_against_position(w: u64, p: u64, n: u64)
    requires
        ring_size(n),
    ensures
        w | ((2 * n - 1) as u64) == (p << 1) | ((2 * n - 1) as u64) <==> entry_cycle(w, n)
            == position_cycle(p as int, n),
        precedes(w | ((2 * n - 1) as u64), (p << 1) | ((2 * n - 1) as u64)) == cycle_precedes(
            entry_cycle(w, n),
            position_cycle(p as int, n),
            n,
        ),
{
    lemma_entry(w, n);
    lemma_position_tag(p, n);
    lemma_tags(entry_cycle(w, n), position_cycle(p as int, n), n);
}

/// Positions that share a slot are as far apart on the circle of cycles as they are in the ring.
pub proof fn lemma_cycle_distance(p: int, q: int, n: u64)
    requires
        ring_size(n),
        p % (n as int) == q % (n as int),
    ensures
        (2 * n * (position_cycle(p, n) - position_cycle(q, n))) % 0x1_0000_0000_0000_0000 == (2 * (p
            - q)) % 0x1_0000_0000_0000_0000,
{
    reveal(position_cycle);
    let order = lemma_ring_size(n);
    let h: int = 0x8000_0000_0000_0000;
    assert(two_to(63) == h) by {
        lemma2_to64_rest();
    }
    lemma_two_to_adds(order, 63 - order);
    lemma_pow2_pos((63 - order) as nat);
    let m = two_to(63 - order);
    lemma_mod_mod(p, n as int, m);
    lemma_mod_mod(q, n as int, m);
    lemma_fundamental_div_mod(p % h, n as int);
    lemma_fundamental_div_mod(q % h, n as int);
    lemma_fundamental_div_mod(p, h);
    lemma_fundamental_div_mod(q, h);
    let cp = position_cycle(p, n);
    let cq = position_cycle(q, n);
    assert(2 * n * (cp - cq) == 2 * (p % h - q % h)) by (nonlinear_arith)
        requires
            p % h == n * cp + p % (n as int),
            q % h == n * cq + q % (n as int),
            p % (n as int) == q % (n as int),
    ;
    let laps = q / h - p / h;
    assert(2 * n * (cp - cq) == (2 * h) * laps + 2 * (p - q)) by {
        assert(p % h == p - h * (p / h));
        assert(q % h == q - h * (q / h));
    }
    vstd::arithmetic::div_mod::lemma_mod_multiples_vanish(laps, 2 * (p - q), 2 * h);
}

/// Cycles do not notice that a counter has wrapped around.
pub proof fn lemma_position_cycle(position: int, n: u64)
    requires
        ring_size(n),
    ensures
        position_cycle(counter(position) as int, n) == position_cycle(position, n),
        0 <= position_cycle(position, n),
        0 <= tag(position_cycle(position, n), n) <= u64::MAX,
{
    reveal(position_cycle);
    reveal(counter);
    let p = counter(position);
    lemma_position_tag(p, n);
    lemma_mod_mod(position, 0x8000_0000_0000_0000, 2);
}

/// The parts of the word that stands for a position.
pub proof fn lemma_word_parts(position: int, index: int, n: u64)
    requires
        ring_size(n),
        0 <= index < n,
    ensures
        ({
            let w = encode(position_cycle(position, n), true, index, n);
            &&& 0 <= w <= u64::MAX
            &&& entry_cycle(w as u64, n) == position_cycle(position, n)
            &&& entry_safe(w as u64, n)
            &&& entry_index(w as u64, n) == index
        }),
{
    lemma_position_cycle(position, n);
    let _ = lemma_ring_size(n);
    let cycle = position_cycle(position, n);
    assert(encode(cycle, true, index, n) <= tag(cycle, n)) by {
        reveal(encode);
        reveal(tag);
    }
    lemma_encode(cycle, true, index, n);
}

/// Of two positions that share a slot, and lie less than a quarter of the circle apart, the cycles
/// tell which one comes first.
pub proof fn lemma_lag(before: int, after: int, n: u64)
    requires
        ring_size(n),
        before % (n as int) == after % (n as int),
        before < after <= before + 0x4000_0000_0000_0000,
    ensures
        cycle_precedes(position_cycle(before, n), position_cycle(after, n), n),
        position_cycle(before, n) != position_cycle(after, n),
{
    reveal(cycle_precedes);
    lemma_cycle_distance(before, after, n);
    let gap = position_cycle(before, n) - position_cycle(after, n);
    assert(gap == 0 ==> 2 * n * gap == 0) by (nonlinear_arith);
}

} // verus!
