# scqd

A FIFO queue with a fixed number of slots, in the SCQD-F design: values lie in an array, and three
circular rings of indices keep track of which slots are in use. Free indices travel in blocks, so
that the transmitting and the receiving end mostly work on caches of their own.

The library is written in Verus. Its contracts say exactly what each operation returns and leaves
behind, and its laws say what holds of the queue as a whole:

- `src/scqd_f.rs` and `src/mpsc.rs` hold the channel, `src/backlog.rs` what its users see of it,
  with the FIFO and capacity laws, and `src/layout.rs` the law that every index is kept in exactly
  one place.
- `src/lfring.rs` holds the ring for a single owner, on top of `src/contents.rs` and `src/solo.rs`.
- `src/enqueue.rs` and `src/dequeue.rs` cut the ring's operations into single accesses to shared
  words (`src/access.rs`). The laws on threads take these accesses as interleaved in any way, each
  taking effect on its own before the next, with counters that stay below a horizon of `2^61`. Of
  such interleavings, `src/interleaving.rs` proves that no index leaves its slot untaken, is handed
  out twice or made up, `src/turns.rs` that indices leave in the order of their positions, and
  `src/emptiness.rs` that no dequeue is told without reason that the ring is empty.
  `src/lateness.rs` says when an enqueue can come too late: if it is held up between its look at the
  head counter and its write, dequeues may have given its position up, and its index is never found.
- Counters wrap around, so a slot's word must not be older than `2^61` positions when it is compared
  with one. The contracts ask for this, and say how the words age: by one position for each use of a
  channel at most.
- `src/position.rs`, `src/entry.rs` and `src/lap.rs` hold the arithmetic: counters that wrap around,
  slots spread over cache lines, and the bits of a slot's word.

`app/` runs the ring's steps on atomic words that threads share, with acquire and release orderings,
and wraps the channels so that their two ends own the queue together. What it adds is not verified;
in particular, the laws on threads say nothing of accesses that the machine reorders.
