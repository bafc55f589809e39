# vmsh

The library behind `vmsh`, a tool that attaches to a running KVM hypervisor,
maps its own memory into the guest and talks to the guest kernel through
virtio devices.  `src/` holds the parts that decide and compute, each with a
contract proved by Verus:

- `page_math`, `page_table`: page arithmetic, x86-64 page table entries and
  the construction of page tables that map new memory into the guest.
- `guest_mem`, `kernel`: lookup of guest physical memory in the hypervisor,
  the kernel's sections and its exported symbols.
- `loader`: placement and relocation of a binary above the kernel.
- `kvm`: ioctl numbers and layouts, ioregionfd messages, guest physical
  memory allocation.
- `coredump`, `elf`: the layout of a core file of the guest and its notes.
- `device`, `devices`: virtio MMIO register space and where the devices sit,
  block request planning, console configuration.
- `console`: shell quoting of a command line.
- `shovel`: copying between pairs of files, the bytes written always a
  prefix of the bytes read.

`tests/` exercises the library on concrete values; `app/` is the command
line program around it.
