# hashing_heap

A fixed-size (15000 slots) open-addressing hash table keyed by student identifiers
("ucids": two letters and a decimal serial, such as `jd042`), with linear probing, a
counter of collisions met when hashing, and deletion that closes the gap it leaves by
moving a later entry back. A generator draws a random class of 12000 ucids from weighted
tables of first-name and last-name initials.

Layout of `src/`:

- `ucid.rs`: what a ucid is and the key it maps to (`ucid_to_int`).
- `probe.rs`: the slots as a sequence and linear probing over them.
- `gap.rs`: how a deletion closes its gap, and proofs that it finishes and only moves entries.
- `heap.rs`: the table `MyHashingHeap` (`instantiate`, `get`, `put`, `remove`).
- `laws.rs`: what the operations promise together (read after write, deletion).
- `tally.rs`: from drawn initials to a tally, and from a tally to numbered ucids.
- `generate.rs`: the weighted random draws (through `rand`) and `gen_ucids`.

`app/main.rs` draws a class, stores every ucid in the table and prints the collision count.
