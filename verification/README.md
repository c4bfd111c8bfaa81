# monagement

A two-level segregated fit (TLSF) allocator over an abstract range
`[0, maximum)`, verified with Verus.

Free blocks are filed in categories: the first level is the highest set bit
of a block's size (above the smallest category `2^start`), the second level
splits that range into `2^start` classes. Bitmaps on both levels mark the
non-empty classes, so a request finds a candidate without scanning. Blocks
are split when handed out and merged with free neighbours when given back.

## Layout

- `src/monagement.rs`: `Monagement`, the allocator as its users see it, and
  `Allocated::free`.
- `src/monagement_core/`: the allocator's state and its invariant (`mod.rs`),
  `init`, `allocate`, `free`, the category operations (`levels.rs`,
  `refile.rs`), the search (`search.rs`), and the laws that relate the
  operations (`laws.rs`).
- `src/level_core.rs`: the two levels of categories and the doubly linked
  list of links in each second-level class.
- `src/node_core.rs`, `src/allocated.rs`, `src/monagement_init.rs`: blocks,
  handles and settings.
- `src/tools.rs`: the category of a size.
- `src/bits.rs`, `src/counting.rs`: facts about bitmaps and counts.
- `src/errors.rs`: the error messages.
- `app/main.rs`: a small program that allocates and frees two ranges.
