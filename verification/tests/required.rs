use vmsh::device::mmio::MmioDeviceSpace;
use vmsh::page_math::page_size;
use vmsh::page_table::{estimate_page_table_size, ENTRY_COUNT, LEVEL_COUNT};

#[test]
fn assert_mmio_device_space_size() {
    assert_eq!(0x100, std::mem::size_of::<MmioDeviceSpace>());
}

#[test]
fn test_page_table_size() {
    assert_eq!(estimate_page_table_size(1), page_size() * LEVEL_COUNT);
    assert_eq!(estimate_page_table_size(4096), page_size() * LEVEL_COUNT);
    assert_eq!(estimate_page_table_size(4096 * ENTRY_COUNT + 1), page_size() + page_size() * LEVEL_COUNT);
}
