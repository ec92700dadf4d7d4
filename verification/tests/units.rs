use kmem::addr::{Address, Frame, Page, Physical};
use kmem::constants;
use kmem::device::{self, Bar, Device, DeviceKind, Standard};
use kmem::eternal::EternalAllocator;
use kmem::interrupts::InterruptCell;
use kmem::mem::Hhdm;
use kmem::paging::{AttributeModify, PageAttributes, VirtualAddressor};
use kmem::pci::{PCIBISTRegister, PCIDeviceClass, PCIDeviceStatus};
use kmem::pmm::{FrameAllocator, Kind, MemoryRegion};

#[test]
fn constants_have_their_architectural_values() {
    assert_eq!(constants::page_shift(), 12);
    assert_eq!(constants::page_size(), 4096);
    assert_eq!(constants::page_mask(), 4095);
    assert_eq!(constants::table_index_shift(), 9);
    assert_eq!(constants::table_index_size(), 512);
    assert_eq!(constants::table_index_mask(), 511);
    assert_eq!(constants::phys_canonical_mask(), 0x000f_ffff_ffff_ffff);
    assert!(constants::checked_phys_canonical(0x000f_ffff_ffff_ffff));
    assert!(!constants::checked_phys_canonical(0x0010_0000_0000_0000));
    assert_eq!(constants::virt_noncanonical_mask(48), 0xffff_0000_0000_0000);
    assert!(constants::checked_virt_canonical(0xffff_8000_0000_0000, 48));
    assert!(constants::checked_virt_canonical(0x0000_7fff_ffff_ffff, 48));
    assert!(!constants::checked_virt_canonical(0x0001_0000_0000_0000, 48));
}

#[test]
fn addresses_enforce_their_shapes() {
    assert!(Address::<Frame>::new(4096).is_some());
    assert!(Address::<Frame>::new(4097).is_none());
    assert_eq!(Address::<Frame>::from_index(3).unwrap().get(), 3 * 4096);
    assert_eq!(Address::<Frame>::from_index(3).unwrap().index(), 3);
    assert!(Address::<Page>::new(8192).is_some());
    assert!(Address::<Physical>::new(0x0010_0000_0000_0000).is_none());
}

#[test]
fn hhdm_translates_frames() {
    let base = Hhdm::new(Address::<Page>::new(0x1000_0000).unwrap());
    let frame = Address::<Frame>::from_index(5).unwrap();
    assert_eq!(base.offset(frame).unwrap().get(), 0x1000_0000 + 5 * 4096);
    assert_eq!(base.address().get(), 0x1000_0000);
    let top = Hhdm::new(Address::<Page>::new(usize::MAX - 4095).unwrap());
    assert!(top.offset(frame).is_none());
}

#[test]
fn kind_codes_round_trip() {
    assert_eq!(Kind::Reserved.code(), 2);
    assert_eq!(Kind::from_code(2), Some(Kind::Reserved));
    assert_eq!(Kind::from_code(4), Some(Kind::AcpiReclaim));
    assert_eq!(Kind::from_code(5), None);
}

#[test]
fn pci_header_fields_decode() {
    let status = PCIDeviceStatus::from_bits_truncate(0xffff);
    assert_eq!(status.bits(), 0xf9b0);
    assert_eq!(status.devsel_timing().bits(), 0b11 & (0xf9b0 >> 9));
    let bist = PCIBISTRegister::new(0b1100_0101);
    assert!(bist.capable());
    assert!(bist.start());
    assert_eq!(bist.completion_code(), 0b101);
    assert_eq!(PCIDeviceClass::MassStorageController.code(), 1);
    assert_eq!(PCIDeviceClass::Coprocessor.code(), 0x40);
}

#[test]
fn device_configuration_decodes() {
    let mut config = vec![0u8; 256];
    // vendor 0x8086, device 0x1234, header type 0 (standard)
    config[0] = 0x86;
    config[1] = 0x80;
    config[2] = 0x34;
    config[3] = 0x12;
    config[14] = 0x80;
    // a 32-bit memory BAR at 0xfe00_0000, prefetchable
    config[0x10] = 0b1000;
    config[0x13] = 0xfe;
    let mut probe = vec![0u32; 64];
    probe[4] = 0xffff_0000;
    let device = match device::new_device(config, probe).unwrap() {
        DeviceKind::Standard(d) => d,
        DeviceKind::PCI2PCI(_) => panic!("wrong layout"),
    };
    let mut device: Device<Standard> = device;
    assert_eq!(device.get_vendor_id(), Some(0x8086));
    assert_eq!(device.get_device_id(), 0x1234);
    assert_eq!(device.get_header_type(), 0);
    assert!(device.get_multi_function());
    match device.get_bar(0).unwrap() {
        Bar::MemorySpace32 { address, size, prefetch } => {
            assert_eq!(address, 0xfe00_0008);
            assert_eq!(size, 0x1_0000);
            assert!(prefetch);
        },
        _ => panic!("expected a 32-bit memory space"),
    }
    assert!(matches!(
        device.get_bar(9),
        Err(device::Error::BarIndexOverflow { index: 9 })
    ));
}

#[test]
fn bars_expose_address_and_size() {
    let bar = Bar::MemorySpace32 { address: 0, size: 4096, prefetch: false };
    assert!(bar.is_unused());
    assert_eq!(bar.get_size(), 4096);
    let io = Bar::IOSpace { address: 0x3f8, size: 8 };
    assert!(!io.is_unused());
    assert_eq!(io.get_address().unwrap().as_usize(), 0x3f8);
}

#[test]
fn device_base_addresses_pack_bus_and_device() {
    let a = device::get_device_base_address(0x4000_0000, 2, 3);
    assert_eq!(a.get(), 0x4000_0000 | (2 << 20) | (3 << 15));
}

#[test]
fn eternal_allocator_bumps_aligned() {
    let mut e = EternalAllocator::new();
    let a = e.allocate(10, 0).unwrap();
    assert_eq!(a, 0);
    let b = e.allocate(16, 4).unwrap();
    assert_eq!(b % 16, 0);
    assert!(b >= 10);
    assert!(e.allocate(1, 6).is_none());
    assert!(e.allocate(0x20000, 0).is_none());
}

#[test]
fn interrupt_cell_guards_access() {
    let cell = InterruptCell::new(7usize);
    assert_eq!(cell.with(|v| *v + 1), 8);
    assert_eq!(cell.into_inner(), 7);
}

#[test]
fn mapper_tracks_attributes() {
    let regions = vec![MemoryRegion { start: 0, end: 64 * 4096 }];
    let frames = FrameAllocator::new(&regions, 64 * 4096).unwrap();
    let mut addressor = VirtualAddressor::new(frames, 0);
    addressor.swap_into();
    assert!(addressor.is_swapped_in());
    addressor.automap(9).unwrap();
    assert!(addressor.get_page_attribs(9).is_some());
    addressor.set_page_attribs(9, PageAttributes { bits: 0b100 }, AttributeModify::Add);
    assert_eq!(addressor.get_page_attribs(9).unwrap().bits & 0b100, 0b100);
    addressor.set_page_attribs(9, PageAttributes { bits: 0b100 }, AttributeModify::Remove);
    assert_eq!(addressor.get_page_attribs(9).unwrap().bits & 0b100, 0);
    addressor.unmap(9, true).unwrap();
    assert!(addressor.get_page_attribs(9).is_none());
}

#[test]
fn handles_cast_and_split() {
    let h = kmem::malloc::Alloc::<u8>::new(4096, 64);
    let words = h.cast::<u64>().ok().unwrap();
    let (addr, len) = words.into_parts();
    assert_eq!(addr, 4096);
    assert_eq!(len, 8);
    let odd = kmem::malloc::Alloc::<u8>::new(4097, 64);
    assert!(odd.cast::<u64>().is_err());
}
