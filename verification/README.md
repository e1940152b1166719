# nk

The verified core of a small x86_64 kernel, written in Verus. Each public
function states what it does in `requires`/`ensures` over mathematical
models, and Verus proves the code against those contracts.

Layout:

- `src/` — the library, verified as a whole:
  - `pmr`, `ema`, `kdm`, `pfm`, `bsa`, `bua`, `upa`, `bounded`, `soa`:
    the memory map, early and buddy page allocation, per-page records,
    per-CPU caches and the slab allocator;
  - `paging/`: four-level page tables over a pool of tables — entries,
    walks, the executor that edits one hierarchy (`exco`), the policy
    engine that maps, remaps and unmaps ranges (`polen`), copy-on-write
    marking, reports, and the lemmas on what each edit does to
    translations (`frame`, `run`, `remap`);
  - `vma`: the areas of an address space;
  - `sched/`: tasks, wait queues, run queues, the scheduler's decisions,
    processes and page-fault handling;
  - `trap`, `arch`: the saved register frame and the CPU structures
    (GDT, TSS, APIC command words, timer calibration);
  - `dev`, `ebus`: the device registry and the event bus;
  - `kmi`, `kst`: loading ELF modules and linking them against the kernel
    symbol table.
- `tests/` — tests of the library on concrete values.
- `app/` — a hosted driver that runs the boot flow over a simulated
  machine; it does what the library leaves to its caller (memory contents,
  printing, reading a module file).
