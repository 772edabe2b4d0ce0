//! Which of a queue's indices is where.
use vstd::prelude::*;
use crate::access::{lemma_slots, ring_order};
use crate::contents::{all_indices, law_all_indices};
use crate::position::{lemma_two_to, lemma_two_to_adds, two_to};

verus! {

/// Where a slot's index is kept.
pub enum Place {
    /// In the ring of queued values.
    Queued,
    /// In the transmitter's cache, at this depth.
    Tx(int),
    /// In the receiver's cache, at this depth.
    Rx(int),
    /// In a free block, at this offset.
    Block(int, int),
}

/// The indices of a queue's slots, and where each of them is kept.
pub struct Layout {
    pub order: usize,
    /// The indices of the queued values.
    pub aq: Seq<usize>,
    /// The blocks of free indices.
    pub fq1: Seq<usize>,
    /// The blocks whose indices have been handed out.
    pub fq2: Seq<usize>,
    /// The transmitter's cache.
    pub tx: Seq<usize>,
    /// The receiver's cache.
    pub rx: Seq<usize>,
    /// What the blocks consist of.
    pub idx: Seq<usize>,
    /// Where each index is.
    pub places: Seq<Place>,
}

impl Layout {
    pub open spec fn slots(self) -> int {
        two_to(self.order as int)
    }

    pub open spec fn blocks(self) -> int {
        two_to(self.order - 4)
    }

    /// The index at an offset in a block.
    pub open spec fn block_entry(self, block: int, offset: int) -> usize {
        self.idx[16 * block + offset]
    }

    pub open spec fn counts_match(self) -> bool {
        &&& 4 <= self.order
        &&& ring_order(self.order)
        &&& self.idx.len() == self.slots()
        &&& self.places.len() == self.slots()
        &&& self.fq1.len() + self.fq2.len() == self.blocks()
        &&& self.aq.len() + self.tx.len() + self.rx.len() == 16 * self.fq2.len()
    }

    /// Each block is in one of the two rings of blocks.
    pub open spec fn blocks_apart(self) -> bool {
        &&& (self.fq1 + self.fq2).no_duplicates()
        &&& forall|i: int| 0 <= i < self.fq1.len() ==> (#[trigger] self.fq1[i]) < self.blocks()
        &&& forall|i: int| 0 <= i < self.fq2.len() ==> (#[trigger] self.fq2[i]) < self.blocks()
    }

    /// Whether `index` is kept at `place`.
    pub open spec fn at(self, index: usize, place: Place) -> bool {
        index < self.slots() && self.places[index as int] == place
    }

    pub open spec fn queued_in_place(self) -> bool {
        &&& self.aq.no_duplicates()
        &&& forall|k: int|
            0 <= k < self.aq.len() ==> self.at(#[trigger] self.aq[k], Place::Queued)
    }

    pub open spec fn held_in_place(self) -> bool {
        &&& forall|k: int|
            0 <= k < self.tx.len() ==> self.at(#[trigger] self.tx[k], Place::Tx(k))
        &&& forall|k: int|
            0 <= k < self.rx.len() ==> self.at(#[trigger] self.rx[k], Place::Rx(k))
    }

    pub open spec fn free_in_place(self) -> bool {
        forall|i: int, j: int|
            0 <= i < self.fq1.len() && 0 <= j < 16 ==> self.at(
                #[trigger] self.block_entry(self.fq1[i] as int, j),
                Place::Block(self.fq1[i] as int, j),
            )
    }

    /// Whether every index is in one place, and no index is in two.
    pub open spec fn consistent(self) -> bool {
        &&& self.counts_match()
        &&& self.blocks_apart()
        &&& self.queued_in_place()
        &&& self.held_in_place()
        &&& self.free_in_place()
    }

    /// Whether this is the layout of a new queue: all blocks are free, and they hold the indices
    /// one after the other.
    pub open spec fn fresh(self, order: usize) -> bool {
        &&& self.order == order
        &&& self.aq == Seq::<usize>::empty()
        &&& self.fq1 == all_indices((order - 4) as usize)
        &&& self.fq2 == Seq::<usize>::empty()
        &&& self.tx == Seq::<usize>::empty()
        &&& self.rx == Seq::<usize>::empty()
        &&& self.idx == Seq::new(two_to(order as int) as nat, |i: int| i as usize)
    }

    /// The layout after the first free block has gone to the transmitter.
    pub open spec fn lent(self) -> Layout {
        let block = self.fq1[0];
        Layout {
            fq1: self.fq1.drop_first(),
            fq2: self.fq2.push(block),
            tx: Seq::new(16, |j: int| self.block_entry(block as int, j)),
            places: self.places.map_values(
                |place: Place|
                    match place {
                        Place::Block(b, j) => if b == block {
                            Place::Tx(j)
                        } else {
                            place
                        },
                        _ => place,
                    },
            ),
            ..self
        }
    }

    /// The layout after the index on top of the transmitter's cache has been queued.
    pub open spec fn pushed(self) -> Layout {
        Layout {
            aq: self.aq.push(self.tx.last()),
            tx: self.tx.drop_last(),
            places: self.places.update(self.tx.last() as int, Place::Queued),
            ..self
        }
    }

    /// The layout after the oldest queued index has gone to the receiver.
    pub open spec fn popped(self) -> Layout {
        Layout {
            aq: self.aq.drop_first(),
            rx: self.rx.push(self.aq[0]),
            places: self.places.update(self.aq[0] as int, Place::Rx(self.rx.len() as int)),
            ..self
        }
    }

    /// The layout after the upper half of the receiver's full cache has become a free block.
    pub open spec fn reclaimed(self) -> Layout {
        let block = self.fq2[0];
        Layout {
            fq1: self.fq1.push(block),
            fq2: self.fq2.drop_first(),
            rx: self.rx.take(16),
            idx: Seq::new(
                self.idx.len(),
                |i: int|
                    if 16 * block <= i < 16 * block + 16 {
                        self.rx[i - 16 * block + 16]
                    } else {
                        self.idx[i]
                    },
            ),
            places: self.places.map_values(
                |place: Place|
                    match place {
                        Place::Rx(k) => if k >= 16 {
                            Place::Block(block as int, k - 16)
                        } else {
                            place
                        },
                        _ => place,
                    },
            ),
            ..self
        }
    }
}

/// Law: what moves where. A block that is lent leaves the front of the free blocks for the end of
/// the others, and its sixteen entries make up the transmitter's cache. A push takes the top of
/// that cache to the end of the queue. A pop takes the front of the queue to the top of the
/// receiver's cache. A block that is reclaimed leaves the front of the handed-out blocks for the
/// end of the free ones, and gets the upper sixteen of the receiver's thirty-two indices. Nothing
/// else moves.
pub proof fn law_indices_move(l: Layout)
    ensures
        l.fq1.len() > 0 ==> ({
            let (b, m) = (l.fq1[0], l.lent());
            &&& l.fq1 == seq![b] + m.fq1
            &&& m.fq2 == l.fq2 + seq![b]
            &&& m.tx.len() == 16
            &&& forall|j: int| 0 <= j < 16 ==> #[trigger] m.tx[j] == l.idx[16 * b + j]
            &&& m.order == l.order && m.aq == l.aq && m.rx == l.rx && m.idx == l.idx
        }),
        l.tx.len() > 0 ==> ({
            let m = l.pushed();
            &&& l.tx == m.tx.push(m.aq.last())
            &&& m.aq == l.aq.push(l.tx[l.tx.len() - 1])
            &&& m.order == l.order && m.fq1 == l.fq1 && m.fq2 == l.fq2 && m.rx == l.rx && m.idx
                == l.idx
        }),
        l.aq.len() > 0 ==> ({
            let m = l.popped();
            &&& l.aq == seq![l.aq[0]] + m.aq
            &&& m.rx == l.rx.push(l.aq[0])
            &&& m.order == l.order && m.fq1 == l.fq1 && m.fq2 == l.fq2 && m.tx == l.tx && m.idx
                == l.idx
        }),
        l.fq2.len() > 0 && l.rx.len() == 32 ==> ({
            let (b, m) = (l.fq2[0], l.reclaimed());
            &&& l.fq2 == seq![b] + m.fq2
            &&& m.fq1 == l.fq1 + seq![b]
            &&& m.rx == l.rx.subrange(0, 16)
            &&& m.idx.len() == l.idx.len()
            &&& forall|i: int|
                0 <= i < l.idx.len() ==> #[trigger] m.idx[i] == (if 16 * b <= i < 16 * b + 16 {
                    l.rx[16 + (i - 16 * b)]
                } else {
                    l.idx[i]
                })
            &&& m.order == l.order && m.aq == l.aq && m.tx == l.tx
        }),
{
    if l.fq1.len() > 0 {
        assert(l.fq1 =~= seq![l.fq1[0]] + l.lent().fq1);
        assert(l.lent().fq2 =~= l.fq2 + seq![l.fq1[0]]);
    }
    if l.tx.len() > 0 {
        assert(l.tx =~= l.pushed().tx.push(l.tx.last()));
    }
    if l.aq.len() > 0 {
        assert(l.aq =~= seq![l.aq[0]] + l.popped().aq);
    }
    if l.fq2.len() > 0 && l.rx.len() == 32 {
        assert(l.fq2 =~= seq![l.fq2[0]] + l.reclaimed().fq2);
        assert(l.reclaimed().fq1 =~= l.fq1 + seq![l.fq2[0]]);
        assert(l.reclaimed().rx =~= l.rx.subrange(0, 16));
    }
}

/// Law: in a new queue of `2^order` slots every block is free, entry `i` of the blocks is the index
/// `i`, and nothing is queued or cached.
pub proof fn law_fresh_layout(l: Layout, order: usize)
    requires
        l.fresh(order),
        4 <= order,
        ring_order(order),
    ensures
        l.order == order,
        l.aq.len() == 0 && l.fq2.len() == 0 && l.tx.len() == 0 && l.rx.len() == 0,
        l.fq1.len() == vstd::arithmetic::power2::pow2((order - 4) as nat),
        forall|block: usize| #[trigger]
            l.fq1.contains(block) <==> block < vstd::arithmetic::power2::pow2((order - 4) as nat),
        l.idx.len() == vstd::arithmetic::power2::pow2(order as nat),
        forall|i: int| 0 <= i < l.idx.len() ==> #[trigger] l.idx[i] == i,
{
    lemma_slots(order);
    lemma_two_to(order as int);
    law_all_indices((order - 4) as usize);
}

/// How the numbers of slots and blocks fit together.
pub proof fn lemma_layout_sizes(l: Layout)
    requires
        l.counts_match(),
    ensures
        l.slots() == 16 * l.blocks(),
        0 < l.blocks(),
        l.slots() < two_to(l.order + 1) <= usize::MAX,
        l.blocks() < two_to(l.order - 4 + 1),
        ring_order((l.order - 4) as usize),
{
    lemma_slots(l.order);
    lemma_two_to(l.order as int);
    lemma_two_to(l.order - 4);
    lemma_two_to_adds(4, l.order - 4);
    vstd::arithmetic::power2::lemma2_to64();
}

/// Where the indices of a new queue are.
pub open spec fn initial_places(order: usize) -> Seq<Place> {
    Seq::new(two_to(order as int) as nat, |i: int| Place::Block(i / 16, i % 16))
}

/// A new queue keeps its indices apart.
pub proof fn lemma_fresh(l: Layout, order: usize)
    requires
        4 <= order,
        ring_order(order),
        l.fresh(order),
        l.places == initial_places(order),
    ensures
        l.consistent(),
{
    lemma_slots(order);
    lemma_two_to(order as int);
    lemma_two_to(order - 4);
    lemma_two_to_adds(4, order - 4);
    vstd::arithmetic::power2::lemma2_to64();
    law_all_indices((order - 4) as usize);
    assert(l.slots() == 16 * l.blocks());
    assert(l.fq1 + l.fq2 =~= l.fq1);
    assert forall|i: int| 0 <= i < l.fq1.len() implies (#[trigger] l.fq1[i]) < l.blocks() by {
        assert(l.fq1.contains(l.fq1[i]));
    }
    assert forall|i: int, j: int| 0 <= i < l.fq1.len() && 0 <= j < 16 implies l.at(
        #[trigger] l.block_entry(l.fq1[i] as int, j),
        Place::Block(l.fq1[i] as int, j),
    ) by {
        let b = l.fq1[i] as int;
        let cell = 16 * b + j;
        assert(cell / 16 == b && cell % 16 == j);
        assert(l.idx[cell] == cell);
    }
}

/// Lending a block keeps the indices apart.
pub proof fn lemma_lent(l: Layout)
    requires
        l.consistent(),
        l.tx.len() == 0,
        l.fq1.len() > 0,
    ensures
        l.lent().consistent(),
{
    lemma_layout_sizes(l);
    let m = l.lent();
    let block = l.fq1[0];
    let before = l.fq1 + l.fq2;
    let after = m.fq1 + m.fq2;
    assert forall|i: int, j: int| 0 <= i < after.len() && 0 <= j < after.len() && i != j implies
        after[i] != after[j] by {
        let pi = if i == after.len() - 1 { 0 } else { i + 1 };
        let pj = if j == after.len() - 1 { 0 } else { j + 1 };
        assert(after[i] == before[pi]);
        assert(after[j] == before[pj]);
    }
    assert forall|i: int, j: int| 0 <= i < m.fq1.len() && 0 <= j < 16 implies m.at(
        #[trigger] m.block_entry(m.fq1[i] as int, j),
        Place::Block(m.fq1[i] as int, j),
    ) by {
        assert(m.fq1[i] == l.fq1[i + 1]);
        assert(before[i + 1] != before[0]);
        assert(l.at(l.block_entry(l.fq1[i + 1] as int, j), Place::Block(l.fq1[i + 1] as int, j)));
    }
    assert forall|k: int| 0 <= k < m.tx.len() implies m.at(#[trigger] m.tx[k], Place::Tx(k)) by {
        assert(l.at(l.block_entry(l.fq1[0] as int, k), Place::Block(l.fq1[0] as int, k)));
    }
}

/// Queueing an index keeps the indices apart.
pub proof fn lemma_pushed(l: Layout)
    requires
        l.consistent(),
        l.tx.len() > 0,
    ensures
        l.pushed().consistent(),
{
    let m = l.pushed();
    let index = l.tx.last();
    assert(l.at(l.tx[l.tx.len() - 1], Place::Tx(l.tx.len() - 1)));
    assert forall|i: int, j: int| 0 <= i < m.fq1.len() && 0 <= j < 16 implies m.at(
        #[trigger] m.block_entry(m.fq1[i] as int, j),
        Place::Block(m.fq1[i] as int, j),
    ) by {
        assert(l.at(l.block_entry(l.fq1[i] as int, j), Place::Block(l.fq1[i] as int, j)));
    }
    assert forall|k: int| 0 <= k < l.aq.len() implies l.aq[k] != index by {
        assert(l.at(l.aq[k], Place::Queued));
    }
}

/// Taking an index out of the queue keeps the indices apart.
pub proof fn lemma_popped(l: Layout)
    requires
        l.consistent(),
        l.aq.len() > 0,
    ensures
        l.popped().consistent(),
{
    let m = l.popped();
    assert(l.at(l.aq[0], Place::Queued));
    assert forall|i: int, j: int| 0 <= i < m.fq1.len() && 0 <= j < 16 implies m.at(
        #[trigger] m.block_entry(m.fq1[i] as int, j),
        Place::Block(m.fq1[i] as int, j),
    ) by {
        assert(l.at(l.block_entry(l.fq1[i] as int, j), Place::Block(l.fq1[i] as int, j)));
    }
    assert forall|k: int| 0 <= k < m.aq.len() implies m.at(#[trigger] m.aq[k], Place::Queued) by {
        assert(l.at(l.aq[k + 1], Place::Queued));
        assert(l.aq[k + 1] != l.aq[0]);
    }
}

/// Returning a block keeps the indices apart.
pub proof fn lemma_reclaimed(l: Layout)
    requires
        l.consistent(),
        l.rx.len() == 32,
        l.fq2.len() > 0,
    ensures
        l.reclaimed().consistent(),
{
    lemma_layout_sizes(l);
    let m = l.reclaimed();
    let block = l.fq2[0];
    let before = l.fq1 + l.fq2;
    let after = m.fq1 + m.fq2;
    assert(after =~= before);
    assert forall|i: int, j: int| 0 <= i < m.fq1.len() && 0 <= j < 16 implies m.at(
        #[trigger] m.block_entry(m.fq1[i] as int, j),
        Place::Block(m.fq1[i] as int, j),
    ) by {
        let b = m.fq1[i] as int;
        assert(0 <= b < l.blocks());
        if i < l.fq1.len() {
            assert(before[i] != before[l.fq1.len() as int]);
            assert(l.at(l.block_entry(l.fq1[i] as int, j), Place::Block(l.fq1[i] as int, j)));
            assert(m.block_entry(b, j) == l.block_entry(b, j));
        } else {
            assert(m.block_entry(b, j) == l.rx[16 + j]);
            assert(l.at(l.rx[16 + j], Place::Rx(16 + j)));
        }
    }
}

impl Layout {
    /// All indices that are kept somewhere, one place after the other.
    pub open spec fn kept(self) -> Seq<int> {
        let a = self.aq.len();
        let b = a + self.tx.len();
        let c = b + self.rx.len();
        Seq::new(
            c + 16 * self.fq1.len(),
            |k: int|
                if k < a {
                    self.aq[k] as int
                } else if k < b {
                    self.tx[k - a] as int
                } else if k < c {
                    self.rx[k - b] as int
                } else {
                    self.block_entry(self.fq1[(k - c) / 16] as int, (k - c) % 16) as int
                },
        )
    }

    /// The place that the index at the given point of this list is kept at.
    spec fn kept_at(self, k: int) -> Place {
        let a = self.aq.len();
        let b = a + self.tx.len();
        let c = b + self.rx.len();
        if k < a {
            Place::Queued
        } else if k < b {
            Place::Tx(k - a)
        } else if k < c {
            Place::Rx(k - b)
        } else {
            Place::Block(self.fq1[(k - c) / 16] as int, (k - c) % 16)
        }
    }
}

proof fn lemma_kept_at(l: Layout, k: int)
    requires
        l.consistent(),
        0 <= k < l.kept().len(),
    ensures
        0 <= l.kept()[k] < l.slots(),
        l.places[l.kept()[k]] == l.kept_at(k),
{
    let a = l.aq.len();
    let b = a + l.tx.len();
    let c = b + l.rx.len();
    if k < a {
        assert(l.at(l.aq[k], Place::Queued));
    } else if k < b {
        assert(l.at(l.tx[k - a], Place::Tx(k - a)));
    } else if k < c {
        assert(l.at(l.rx[k - b], Place::Rx(k - b)));
    } else {
        let i = (k - c) / 16;
        let j = (k - c) % 16;
        assert(0 <= i < l.fq1.len() && 0 <= j < 16);
        assert(l.at(l.block_entry(l.fq1[i] as int, j), Place::Block(l.fq1[i] as int, j)));
    }
}

/// Law: every index is kept somewhere, and none is kept twice.
pub proof fn law_each_index_is_kept_once(l: Layout)
    requires
        l.consistent(),
    ensures
        l.kept().no_duplicates(),
        l.kept().len() == l.slots(),
        forall|index: int| #[trigger] l.kept().contains(index) <==> 0 <= index < l.slots(),
{
    lemma_layout_sizes(l);
    let kept = l.kept();
    let a = l.aq.len();
    let b = a + l.tx.len();
    let c = b + l.rx.len();
    assert forall|i: int, j: int|
        0 <= i < kept.len() && 0 <= j < kept.len() && i != j implies kept[i] != kept[j] by {
        lemma_kept_at(l, i);
        lemma_kept_at(l, j);
        if kept[i] == kept[j] && i >= c {
            let p = (i - c) / 16;
            let q = (j - c) / 16;
            let both = l.fq1 + l.fq2;
            assert(both[p] == l.fq1[p] && both[q] == l.fq1[q]);
        }
    }
    kept.unique_seq_to_set();
    let range = vstd::set_lib::set_int_range(0, l.slots());
    vstd::set_lib::lemma_int_range(0, l.slots());
    assert(kept.to_set().subset_of(range)) by {
        assert forall|index: int| kept.to_set().contains(index) implies range.contains(index) by {
            let k = choose|k: int| 0 <= k < kept.len() && kept[k] == index;
            lemma_kept_at(l, k);
        }
    }
    vstd::set_lib::lemma_subset_equality(kept.to_set(), range);
    assert forall|index: int| #[trigger] kept.contains(index) <==> 0 <= index < l.slots() by {
        assert(kept.to_set().contains(index) <==> range.contains(index));
    }
}

} // verus!
