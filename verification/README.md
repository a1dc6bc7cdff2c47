# kernel_mm

Decision logic of a kernel memory manager, verified with Verus.

- `src/allocator/`: a pool of buddy spans (`buddy`, `span`, `blocks`), a small-object
  allocator on size-class pages (`mi`), and first-fit allocation of virtual address
  ranges (`vmalloc`).
- `src/mm/`: the range tree of an address space (`mtree`, `ranges`), the search for
  unmapped ranges (`unmap`), and the sequencers of page faults (`fault`) and of the
  mapping system calls (`mmap`).
- `tests/`: tests that drive the library with a small imagined system.
- `app/`: the entry points for the rest of the system. They hold the locks, take
  folios, run the helpers and log.

The library takes no lock and touches no memory of the system. Where a function
needs the system in the middle, it is a step function: it returns what it needs next
and is called again with the outcome as an event. Addresses are 64-bit integers, and
the memory of a heap folio is a vector of bytes.
