# arceos_loader

Verified parts of a small ArceOS application loader, written in Verus.

- `src/allocator.rs`: the early bump allocator (bytes grow up from the start
  of its region, pages grow down from its end) with its state invariant and
  the laws that relate its operations.
- `src/collections/`: the hash map of the standard-library layer and the
  table under it, specified over `Map` views.
- `src/dtb.rs`: the device-tree summary (main memory and virtio MMIO
  regions): the `fdt` crate opens the blob and lists its nodes with their raw
  properties, and the summary is decided and proved over those.
- `src/loader.rs`: the application image header (`n|s1|...|sn` ended by a
  NUL), the copy plan of the applications, the system-call table and the
  page-table entries for the applications.
- `app/`: the loader program itself: reading flash and the device-tree blob,
  copying, switching the address space and entering the applications.
- `tests/`: tests of the library on concrete values.
