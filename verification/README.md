# libkernel

The memory-management and device logic of a small aarch64 kernel, written in Verus
with each function's behaviour stated as a contract and proved.

- `src/pager/`: physical and virtual addresses and ranges, translations, page
  attributes, the bump allocator, the kernel's virtual memory layout, the frame
  table (frames kept in queues by use) and the pager that maps the layout.
- `src/archs/aarch64/`: page-table descriptors, page-table memory, walks over a
  page directory and the order in which they hand out its entries, mapping a range
  into it, and resolving an address through it.
- `src/device/`: reading the device tree (through the `dtb` crate) for the RAM range
  and the virtio devices, and the virtio packed ring, queue set-up and feature
  negotiation.
- `src/debug/`, `src/log.rs`: log levels and per-module log filters.
- `src/util/`: bit fields and the error type.
- `app/`: what touches hardware or outside crates: locks, the UART, reading the
  device tree, virtio registers, zeroing frames.
- `tests/`: the tests, run against the compiled library.
