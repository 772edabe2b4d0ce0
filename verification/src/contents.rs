//! What the words of a ring stand for.
use vstd::prelude::*;
use crate::access::{full_threshold, lemma_slots, ring_order, slots, written_word, Memory};
use crate::entry::{
    encode, entry_cycle, entry_safe, lemma_position_cycle, lemma_word_parts, position_cycle, vacant,
};
use crate::lap::lemma_word_before_first;
use crate::position::{
    counter, law_slots_in_sequence, lemma_addressable, lemma_counter_small, lemma_slot_in_ring,
    lemma_slot_surjective, lemma_slot_window, pow2, raw_map, slot_of, two_to,
};

verus! {

/// What a ring holds, and where its counters stand if they are thought of as never wrapping
/// around.
pub struct Contents {
    /// The indices in the ring, the oldest first.
    pub items: Seq<usize>,
    /// The position of the oldest index.
    pub head: int,
    /// How far the head has run past the tail, which it does when it is told that the ring is not
    /// empty while it is.
    pub overrun: int,
    /// For each slot, the position that an index was put into it for last.
    pub marks: Seq<int>,
}

impl Contents {
    /// The position that the next index goes to.
    pub open spec fn tail(self) -> int {
        self.head + self.items.len() - self.overrun
    }

    /// Whether no slot's word dates back more than this many positions. Words that are much older
    /// would be taken for new ones, as counters wrap around.
    pub open spec fn recent(self, within: int) -> bool {
        forall|slot: int|
            0 <= slot < self.marks.len() ==> self.head - #[trigger] self.marks[slot] <= within
    }
}

/// How many positions the words of a ring may date back for its operations to work.
pub open spec fn memory_span() -> int {
    0x2000_0000_0000_0000
}

/// Words that are recent are so within any wider span.
pub proof fn lemma_recent(contents: Contents, within: int, wider: int)
    requires
        contents.recent(within),
        within <= wider,
    ensures
        contents.recent(wider),
{
    assert forall|slot: int| 0 <= slot < contents.marks.len() implies contents.head
        - #[trigger] contents.marks[slot] <= wider by {
        assert(contents.head - contents.marks[slot] <= within);
    }
}

/// The word in the slot of `position`.
pub open spec fn word_at(array: Seq<u64>, order: usize, position: int) -> u64 {
    array[slot_of(position, order + 1)]
}

/// The position that the word in the slot of `position` was written for.
pub open spec fn mark_at(marks: Seq<int>, order: usize, position: int) -> int {
    marks[slot_of(position, order + 1)]
}

/// Whether `w`, written for the position `mark`, is what the slot of `position` holds, less than
/// one lap from the head: the index of this position, or no index. A word without an index is safe
/// only if no position has used its slot since.
pub open spec fn expected(
    w: u64,
    mark: int,
    order: usize,
    items: Seq<usize>,
    head: int,
    position: int,
) -> bool {
    let n = slots(order);
    &&& entry_cycle(w, n) == position_cycle(mark, n)
    &&& mark % (n as int) == position % (n as int)
    &&& if position < head + items.len() {
        &&& mark == position
        &&& w == encode(position_cycle(position, n), true, items[position - head] as int, n)
    } else {
        &&& mark < position
        &&& vacant(w, n)
        &&& entry_safe(w, n) ==> mark == position - n
    }
}

/// Whether the slots hold these items, from the position `head` on, and nothing else.
#[verifier::opaque]
pub open spec fn holds(
    array: Seq<u64>,
    order: usize,
    items: Seq<usize>,
    head: int,
    marks: Seq<int>,
) -> bool {
    let n = slots(order);
    &&& array.len() == n
    &&& marks.len() == n
    &&& forall|i: int| 0 <= i < items.len() ==> (#[trigger] items[i]) < n
    &&& forall|position: int|
        head <= position < head + n ==> expected(
            #[trigger] word_at(array, order, position),
            mark_at(marks, order, position),
            order,
            items,
            head,
            position,
        )
}

/// Whether the words in memory stand for the contents.
pub open spec fn represents(memory: Memory, order: usize, contents: Contents) -> bool {
    &&& ring_order(order)
    &&& memory.array.len() == slots(order)
    &&& memory.head == counter(contents.head)
    &&& memory.tail == counter(contents.tail())
    &&& memory.threshold <= full_threshold(order)
    &&& contents.items.len() <= slots(order)
    &&& 0 <= contents.overrun <= 0x4000_0000_0000_0000
    &&& contents.overrun > 0 ==> contents.items.len() == 0
    &&& holds(memory.array, order, contents.items, contents.head, contents.marks)
    &&& contents.marks.len() == slots(order)
    &&& forall|slot: int|
        0 <= slot < contents.marks.len() ==> #[trigger] contents.marks[slot] < contents.tail()
}

/// What the slot of a position near the head holds.
pub proof fn lemma_expected(
    array: Seq<u64>,
    order: usize,
    items: Seq<usize>,
    head: int,
    marks: Seq<int>,
    position: int,
)
    requires
        ring_order(order),
        holds(array, order, items, head, marks),
        head <= position < head + slots(order),
    ensures
        expected(
            word_at(array, order, position),
            mark_at(marks, order, position),
            order,
            items,
            head,
            position,
        ),
        0 <= slot_of(position, order + 1) < slots(order),
        position < head + items.len() ==> items[position - head] < slots(order),
{
    reveal(holds);
    lemma_slots(order);
    lemma_slot_in_ring(position, order + 1);
}

/// Writing an index at the tail appends it.
pub proof fn lemma_written(array: Seq<u64>, order: usize, contents: Contents, index: u64, tail: u64)
    requires
        ring_order(order),
        holds(array, order, contents.items, contents.head, contents.marks),
        tail == counter(contents.tail()),
        contents.items.len() < slots(order),
        contents.overrun == 0,
        index < slots(order),
    ensures
        holds(
            array.update(slot_of(tail as int, order + 1), written_word(tail, index, order)),
            order,
            contents.items.push(index as usize),
            contents.head,
            contents.marks.update(slot_of(tail as int, order + 1), contents.tail()),
        ),
{
    let n = slots(order);
    lemma_slots(order);
    reveal(holds);
    let t = contents.tail();
    let slot = slot_of(tail as int, order + 1);
    lemma_slot_in_ring(t, order + 1);
    lemma_position_cycle(t, n);
    lemma_word_parts(t, index as int, n);
    let after = array.update(slot, written_word(tail, index, order));
    let marks = contents.marks.update(slot, t);
    let items = contents.items.push(index as usize);
    assert forall|position: int| contents.head <= position < contents.head + n implies expected(
        #[trigger] word_at(after, order, position),
        mark_at(marks, order, position),
        order,
        items,
        contents.head,
        position,
    ) by {
        lemma_expected(array, order, contents.items, contents.head, contents.marks, position);
        if position != t {
            lemma_slot_window(position, t, order + 1);
        }
    }
}

/// Once the head has passed a position and left its slot without an index, the items go on from the
/// next position. If the position held none, its slot is not left safe.
pub proof fn lemma_head_passed(
    array: Seq<u64>,
    order: usize,
    items: Seq<usize>,
    head: int,
    marks: Seq<int>,
    w: u64,
)
    requires
        ring_order(order),
        holds(array, order, items, head, marks),
        items.len() <= slots(order),
        vacant(w, slots(order)),
        entry_cycle(w, slots(order)) == entry_cycle(word_at(array, order, head), slots(order)),
        items.len() == 0 ==> !entry_safe(w, slots(order)),
    ensures
        holds(
            array.update(slot_of(head, order + 1), w),
            order,
            if items.len() > 0 {
                items.drop_first()
            } else {
                items
            },
            head + 1,
            marks,
        ),
{
    let n = slots(order);
    lemma_slots(order);
    reveal(holds);
    let after = array.update(slot_of(head, order + 1), w);
    let rest = if items.len() > 0 {
        items.drop_first()
    } else {
        items
    };
    lemma_expected(array, order, items, head, marks, head);
    assert forall|position: int| head + 1 <= position < head + 1 + n implies expected(
        #[trigger] word_at(after, order, position),
        mark_at(marks, order, position),
        order,
        rest,
        head + 1,
        position,
    ) by {
        lemma_slot_in_ring(head, order + 1);
        lemma_slot_in_ring(position, order + 1);
        if position != head + n {
            lemma_expected(array, order, items, head, marks, position);
            lemma_slot_window(position, head, order + 1);
        } else {
            vstd::arithmetic::div_mod::lemma_mod_multiples_vanish(1, head, n as int);
        }
    }
}

/// The array after the safe bits have been cleared in the slots of the positions from `head` on, as
/// many as `count` says.
pub open spec fn disarmed(array: Seq<u64>, order: usize, head: int, count: int) -> Seq<u64>
    decreases count,
{
    if count <= 0 {
        array
    } else {
        let before = disarmed(array, order, head, count - 1);
        let position = head + count - 1;
        before.update(
            slot_of(position, order + 1),
            word_at(before, order, position) & !slots(order),
        )
    }
}

/// Slots that have never been used look like slots of the lap before the first.
pub open spec fn unused_marks(order: usize) -> Seq<int> {
    Seq::new(
        slots(order) as nat,
        |slot: int|
            (choose|p: int| 0 <= p < slots(order) && #[trigger] slot_of(p, order + 1) == slot)
                - slots(order),
    )
}

/// The marks of unused slots.
pub proof fn lemma_unused_marks(order: usize, position: int)
    requires
        ring_order(order),
        0 <= position < slots(order),
    ensures
        mark_at(unused_marks(order), order, position) == position - slots(order),
        forall|slot: int|
            0 <= slot < slots(order) ==> -slots(order) <= #[trigger] unused_marks(order)[slot] < 0
                && slot_of(unused_marks(order)[slot] + slots(order), order + 1) == slot,
{
    lemma_slots(order);
    let n = slots(order);
    assert forall|slot: int| 0 <= slot < n implies -n <= #[trigger] unused_marks(order)[slot] < 0
        && slot_of(unused_marks(order)[slot] + n, order + 1) == slot by {
        let q = lemma_slot_surjective(slot, order + 1);
        let p = choose|p: int| 0 <= p < n && #[trigger] slot_of(p, order + 1) == slot;
        assert(0 <= p < n && slot_of(p, order + 1) == slot);
    }
    lemma_slot_in_ring(position, order + 1);
    let mark = mark_at(unused_marks(order), order, position);
    if mark + n != position {
        lemma_slot_window(mark + n, position, order + 1);
    }
}

proof fn lemma_unused(array: Seq<u64>, order: usize)
    requires
        ring_order(order),
        array.len() == slots(order),
        forall|i: int| 0 <= i < array.len() ==> array[i] == u64::MAX,
    ensures
        holds(array, order, Seq::empty(), 0, unused_marks(order)),
{
    let n = slots(order);
    lemma_slots(order);
    reveal(holds);
    assert forall|position: int| 0 <= position < n implies expected(
        #[trigger] word_at(array, order, position),
        mark_at(unused_marks(order), order, position),
        order,
        Seq::empty(),
        0,
        position,
    ) by {
        lemma_slot_in_ring(position, order + 1);
        lemma_unused_marks(order, position);
        lemma_word_before_first(position - n, n);
        lemma_word_parts(position - n, n - 1, n);
        vstd::arithmetic::div_mod::lemma_mod_multiples_vanish(-1, position, n as int);
    }
}

/// In the first lap the cycle is zero.
proof fn lemma_first_lap(position: u64, index: u64, order: usize)
    requires
        ring_order(order),
        position < slots(order),
        index < slots(order),
    ensures
        written_word(position, index, order) == slots(order) + index,
{
    lemma_slots(order);
    reveal(position_cycle);
    reveal(encode);
    let n = slots(order);
    vstd::arithmetic::div_mod::lemma_fundamental_div_mod_converse(
        position as int,
        n as int,
        0,
        position as int,
    );
    assert(2 * n * 0 == 0) by (nonlinear_arith);
}

/// The slots of a ring that holds nothing.
pub fn unused_slots(order: usize) -> (array: Vec<u64>)
    requires
        ring_order(order),
    ensures
        holds(array@, order, Seq::empty(), 0, unused_marks(order)),
        array@.len() == slots(order),
        forall|i: int| 0 <= i < array@.len() ==> array@[i] == u64::MAX,
{
    proof {
        lemma_slots(order);
    }
    let n: usize = pow2(order + 1);
    let mut array: Vec<u64> = Vec::with_capacity(n);
    let mut i: usize = 0;
    while i < n
        invariant
            i <= n,
            array@.len() == i,
            forall|j: int| 0 <= j < i ==> array@[j] == u64::MAX,
        decreases n - i,
    {
        array.push(u64::MAX);
        i = i + 1;
    }
    proof {
        lemma_unused(array@, order);
    }
    array
}

/// The indices of a full ring, in the order in which they come out.
pub open spec fn all_indices(order: usize) -> Seq<usize> {
    Seq::new(two_to(order as int) as nat, |i: int| slot_of(i, order as int) as usize)
}

/// Law: a full ring holds each index below its nominal capacity once.
pub proof fn law_all_indices(order: usize)
    requires
        ring_order(order),
    ensures
        all_indices(order).len() == two_to(order as int),
        all_indices(order).no_duplicates(),
        forall|index: usize| #[trigger] all_indices(order).contains(index) <==> index < two_to(
            order as int,
        ),
{
    let items = all_indices(order);
    let half = two_to(order as int);
    lemma_slots(order);
    assert forall|j: int, k: int| 0 <= j < half && 0 <= k < half && j != k implies items[j]
        != items[k] by {
        lemma_slot_in_ring(j, order as int);
        lemma_slot_in_ring(k, order as int);
        lemma_slot_window(j, k, order as int);
    }
    assert forall|index: usize| #[trigger] items.contains(index) <==> index < half by {
        if items.contains(index) {
            let j = choose|j: int| 0 <= j < items.len() && items[j] == index;
            lemma_slot_in_ring(j, order as int);
        }
        if index < half {
            let j = lemma_slot_surjective(index as int, order as int);
            assert(items[j] == index);
        }
    }
}

/// Law: the indices of a full ring come out in a fixed pattern: zero first, then each one sixteen
/// further than the one before, starting over one further when this leads past the end; in a ring
/// for fewer than sixteen indices, each one is one further.
pub proof fn law_full_ring_in_sequence(order: usize, i: int)
    requires
        ring_order(order),
        0 <= i < vstd::arithmetic::power2::pow2(order as nat) - 1,
    ensures
        all_indices(order)[0] == 0,
        ({
            let half = vstd::arithmetic::power2::pow2(order as nat) as int;
            let here = all_indices(order)[i] as int;
            let next = all_indices(order)[i + 1] as int;
            let far = if order < 4 {
                1int
            } else {
                16
            };
            &&& here + far < half ==> next == here + far
            &&& here + far >= half ==> next == here + far - half + 1
        }),
{
    lemma_slots(order);
    law_slots_in_sequence(i, order as int);
    lemma_slot_in_ring(i, order as int);
    lemma_slot_in_ring(i + 1, order as int);
    lemma_slot_in_ring(0, order as int);
    if slot_of(i, order as int) == two_to(order as int) - 1 {
        lemma_slot_window(i + 1, 0, order as int);
    }
}

/// The marks of a ring whose first `count` positions have been used.
pub open spec fn first_marks(order: usize, count: int) -> Seq<int> {
    Seq::new(
        slots(order) as nat,
        |slot: int|
            {
                let position = unused_marks(order)[slot] + slots(order);
                if position < count {
                    position
                } else {
                    unused_marks(order)[slot]
                }
            },
    )
}

proof fn lemma_first_marks(order: usize, count: int)
    requires
        ring_order(order),
        0 <= count < slots(order),
    ensures
        first_marks(order, 0) == unused_marks(order),
        first_marks(order, count + 1) == first_marks(order, count).update(
            slot_of(count, order + 1),
            count,
        ),
{
    lemma_slots(order);
    lemma_unused_marks(order, count);
    lemma_slot_in_ring(count, order + 1);
    assert(first_marks(order, 0) =~= unused_marks(order));
    assert(first_marks(order, count + 1) =~= first_marks(order, count).update(
        slot_of(count, order + 1),
        count,
    ));
}

/// The slots of a ring that holds each index below `2^order`.
pub fn filled_slots(order: usize) -> (array: Vec<u64>)
    requires
        ring_order(order),
    ensures
        holds(array@, order, all_indices(order), 0, first_marks(order, two_to(order as int))),
        forall|i: int|
            0 <= i < two_to(order as int) ==> array@[#[trigger] slot_of(i, order + 1)] == slots(
                order,
            ) + slot_of(i, order as int),
        forall|i: int|
            two_to(order as int) <= i < slots(order) ==> array@[#[trigger] slot_of(i, order + 1)]
                == u64::MAX,
        array@.len() == slots(order),
{
    proof {
        lemma_slots(order);
    }
    let half: usize = pow2(order);
    let n: usize = pow2(order + 1);
    let mut array: Vec<u64> = unused_slots(order);
    proof {
        lemma_first_marks(order, 0);
    }
    assert forall|j: int| 0 <= j < n implies array@[#[trigger] slot_of(j, order + 1)]
        == u64::MAX by {
        lemma_slot_in_ring(j, order + 1);
    }
    let ghost mut items = Seq::<usize>::empty();
    let ghost mut marks = unused_marks(order);
    let mut i: usize = 0;
    while i < half
        invariant
            ring_order(order),
            i <= half,
            half == two_to(order as int),
            n == slots(order),
            n == 2 * half,
            n <= 0x800_0000_0000_0000,
            items =~= Seq::new(i as nat, |j: int| slot_of(j, order as int) as usize),
            holds(array@, order, items, 0, marks),
            marks == first_marks(order, i as int),
            forall|j: int|
                0 <= j < i ==> array@[#[trigger] slot_of(j, order + 1)] == n + slot_of(
                    j,
                    order as int,
                ),
            forall|j: int|
                i <= j < n ==> array@[#[trigger] slot_of(j, order + 1)] == u64::MAX,
            array@.len() == n,
        decreases half - i,
    {
        proof {
            lemma_slots(order);
            lemma_addressable(order + 1);
            lemma_slot_in_ring(i as int, order as int);
            lemma_slot_in_ring(i as int, order + 1);
        }
        let mapped: usize = crate::position::map(i as u64, order, n);
        let index: usize = raw_map(i as u64, order, half);
        proof {
            lemma_first_lap(i as u64, index as u64, order);
            lemma_counter_small(i as int);
            lemma_written(
                array@,
                order,
                Contents { items, head: 0, overrun: 0, marks },
                index as u64,
                i as u64,
            );
            items = items.push(index);
            lemma_first_marks(order, i as int);
            marks = marks.update(slot_of(i as int, order + 1), i as int);
        }
        proof {
            assert forall|j: int| 0 <= j < n && j != i implies #[trigger] slot_of(j, order + 1)
                != mapped && 0 <= slot_of(j, order + 1) < n by {
                lemma_slot_window(j, i as int, order + 1);
                lemma_slot_in_ring(j, order + 1);
            }
        }
        array.set(mapped, (n + index) as u64);
        i = i + 1;
    }
    assert(items =~= all_indices(order));
    array
}

} // verus!
