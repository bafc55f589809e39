use vmsh::error::Error;
use vmsh::guest_mem::MappedMemory;
use vmsh::loader::{
    allocate_segments, load, relocate_relative, LoadHeader, Loadable, SegmentAlloc, SEGMENT_EXECUTE, SEGMENT_WRITE,
};
use vmsh::page_table::PhysAddr;
use vmsh::prot::ProtFlags;

const VBASE: usize = 0x1000_0000;

fn mapping(virt_start: usize, len: usize) -> MappedMemory {
    MappedMemory {
        phys_start: PhysAddr { value: 0x20_0000, host_offset: 0 },
        virt_start,
        len,
        prot: ProtFlags::prot_read(),
    }
}

fn loadable() -> Loadable {
    Loadable { content: (0u8..32).collect(), mapping: mapping(VBASE, 0x2000), load_offset: 0x10 }
}

#[test]
fn segments_are_allocated_sorted() {
    let headers = [
        LoadHeader { virtual_addr: 0x2000, mem_size: 0x10, flags: SEGMENT_WRITE },
        LoadHeader { virtual_addr: 0x10, mem_size: 0x1000, flags: SEGMENT_EXECUTE },
    ];
    let allocs = allocate_segments(4096, VBASE, &headers).unwrap();
    assert_eq!(
        allocs,
        vec![
            SegmentAlloc { virt_start: VBASE, virt_offset: 0x10, len: 0x2000, prot: ProtFlags { bits: 5 } },
            SegmentAlloc { virt_start: VBASE + 0x2000, virt_offset: 0, len: 0x1000, prot: ProtFlags { bits: 3 } },
        ]
    );
}

#[test]
fn segment_allocation_errors() {
    assert_eq!(allocate_segments(4096, VBASE, &[]), Err(Error::NoLoadableSections));
    let h = [LoadHeader { virtual_addr: 0x1000, mem_size: 1, flags: 0 }];
    assert_eq!(allocate_segments(4096, usize::MAX, &h), Err(Error::OutOfAddressSpace));
    let h = [LoadHeader { virtual_addr: u64::MAX - 1, mem_size: 4, flags: 0 }];
    assert_eq!(allocate_segments(4096, 0, &h), Err(Error::OutOfAddressSpace));
}

#[test]
fn segments_land_in_their_allocation() {
    let mappings = [mapping(VBASE, 0x2000), mapping(VBASE + 0x2000, 0x1000)];
    let offsets = [0x10usize, 0];
    let l = load(&mappings, &offsets, 4096, VBASE, 0x2004, &[1, 2, 3]).unwrap();
    assert_eq!(l.content, vec![1, 2, 3]);
    assert_eq!(l.mapping, mappings[1]);
    assert_eq!(l.load_offset, 0);
    let l = load(&mappings, &offsets, 4096, VBASE, 0x10, &[9]).unwrap();
    assert_eq!(l.mapping, mappings[0]);
    assert_eq!(l.load_offset, 0x10);
    assert_eq!(load(&mappings, &offsets, 4096, VBASE, 0x5000, &[9]).err(), Some(Error::UnallocatedLoadable));
    assert_eq!(load(&mappings, &offsets, 4096, usize::MAX, 0x10, &[9]).err(), Some(Error::OutOfAddressSpace));
}

#[test]
fn relative_relocation_patches_word() {
    let mut ls = vec![loadable()];
    // the word at offset 0x18 of the binary lies 8 bytes into the segment
    relocate_relative(&mut ls, VBASE, 0x18, 0x40).unwrap();
    let mut expected: Vec<u8> = (0u8..32).collect();
    expected[8..16].copy_from_slice(&((VBASE + 0x40) as u64).to_le_bytes());
    assert_eq!(ls[0].content, expected);
}

#[test]
fn relocation_errors() {
    let mut ls = vec![loadable()];
    assert_eq!(relocate_relative(&mut ls, VBASE, 0x3000, 0), Err(Error::NoLoadableForRelocation));
    // the first byte of a mapping does not count as inside it
    assert_eq!(relocate_relative(&mut ls, VBASE, 0, 0), Err(Error::NoLoadableForRelocation));
    assert_eq!(relocate_relative(&mut ls, VBASE, 0x8, 0), Err(Error::RelocationOutOfBounds));
    assert_eq!(relocate_relative(&mut ls, VBASE, 0x29, 0), Err(Error::RelocationOutOfBounds));
    assert_eq!(relocate_relative(&mut ls, usize::MAX, 1, 0), Err(Error::NoLoadableForRelocation));
    assert_eq!(ls[0].content, (0u8..32).collect::<Vec<u8>>());
}
