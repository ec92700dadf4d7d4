//! PCI-Express device configuration access, over a modeled configuration
//! space.
//!
//! A real device's configuration lives in memory-mapped I/O; here a `Device`
//! holds the 256 configuration bytes as plain values, together with the
//! device's response to the base-address-register sizing probe (the value a
//! register reads back after all-ones is written to it). Every decoder is
//! verified against those values.

use vstd::prelude::*;

use crate::addr::{Address, Frame, Physical};
use crate::constants::PAGE_SIZE;

verus! {

/// What decoding a device can fail with.
#[derive(Debug, Clone, Copy, PartialEq, Eq)]
pub enum Error {
    /// The header-type field holds an unknown layout code.
    InvalidKind { raw: u8 },
    /// The header-type field holds a layout this crate does not handle.
    UnsupportedKind { raw: u8 },
    /// A base address register names an address space that does not exist.
    InvalidBarSpace { value: u8 },
    /// The base address register index is past the device's register count.
    BarIndexOverflow { index: usize },
}

/// The command register's raw bits.
#[derive(Debug, Clone, Copy, PartialEq, Eq, Structural)]
pub struct Command(pub u16);

/// How fast the device asserts device-select.
#[derive(Debug, Clone, Copy, PartialEq, Eq)]
pub enum DevselTiming {
    Fast,
    Medium,
    Slow,
}

/// The status register's raw bits.
#[derive(Debug, Clone, Copy, PartialEq, Eq, Structural)]
pub struct Status {
    bits: u16,
}

impl Status {
    /// A status register from its raw bits.
    pub fn from_bits_retain(bits: u16) -> (r: Status)
        ensures
            r.spec_bits() == bits,
    {
        Status { bits }
    }

    /// The raw bits.
    pub closed spec fn spec_bits(self) -> u16 {
        self.bits
    }

    /// The raw bits.
    pub fn bits(self) -> (r: u16)
        ensures
            r == self.spec_bits(),
    {
        self.bits
    }

    /// The device-select timing, bits 9 and 10; the fourth encoding is
    /// reserved and refused.
    pub fn devsel_timing(self) -> (r: DevselTiming)
        requires
            (self.spec_bits() >> 9) & 0b11 != 0b11,
        ensures
            r == DevselTiming::Fast <==> (self.spec_bits() >> 9) & 0b11 == 0,
            r == DevselTiming::Medium <==> (self.spec_bits() >> 9) & 0b11 == 1,
            r == DevselTiming::Slow <==> (self.spec_bits() >> 9) & 0b11 == 2,
    {
        let b = self.bits;
        let field = (b >> 9) & 0b11;
        proof {
            assert(((b >> 9) & 0b11) < 4) by (bit_vector);
        }
        if field == 0 {
            DevselTiming::Fast
        } else if field == 1 {
            DevselTiming::Medium
        } else {
            DevselTiming::Slow
        }
    }
}

/// Marks the configuration layouts, and how many base address registers each
/// carries.
pub trait Kind {
    /// How many base address registers this layout has.
    spec fn spec_register_count() -> usize;

    /// Every layout's registers sit inside the header's first 64 bytes.
    proof fn lemma_register_count_bound()
        ensures
            1 <= Self::spec_register_count() <= 6,
    ;

    /// How many base address registers this layout has.
    fn register_count() -> (r: usize)
        ensures
            r == Self::spec_register_count(),
    ;
}

/// The general device layout: six base address registers.
pub struct Standard;

impl Kind for Standard {
    open spec fn spec_register_count() -> usize {
        6
    }

    proof fn lemma_register_count_bound() {
    }

    fn register_count() -> (r: usize) {
        6
    }
}

/// The PCI-to-PCI bridge layout: two base address registers.
pub struct Pci2Pci;

impl Kind for Pci2Pci {
    open spec fn spec_register_count() -> usize {
        2
    }

    proof fn lemma_register_count_bound() {
    }

    fn register_count() -> (r: usize) {
        2
    }
}

/// A device of either handled layout.
pub enum DeviceKind {
    Standard(Device<Standard>),
    PCI2PCI(Device<Pci2Pci>),
}

/// One device's configuration: its 256 configuration bytes and its response
/// to the sizing probe, one value per 32-bit register.
pub struct Device<K: Kind> {
    config: Vec<u8>,
    probe: Vec<u32>,
    _marker: core::marker::PhantomData<K>,
}

/// `x + 1`, wrapping at the 32-bit boundary.
pub open spec fn spec_wrap_inc32(x: u32) -> u32 {
    if x == 0xffff_ffffu32 {
        0
    } else {
        (x + 1) as u32
    }
}

/// `x + 1`, wrapping at the 64-bit boundary.
pub open spec fn spec_wrap_inc64(x: u64) -> u64 {
    if x == 0xffff_ffff_ffff_ffffu64 {
        0
    } else {
        (x + 1) as u64
    }
}

/// The 16-bit little-endian value at byte `off` of a configuration space.
pub open spec fn spec_le16(config: Seq<u8>, off: int) -> u16 {
    (config[off] as u16) | ((config[off + 1] as u16) << 8)
}

/// The 32-bit little-endian value at byte `off` of a configuration space.
pub open spec fn spec_le32(config: Seq<u8>, off: int) -> u32 {
    (config[off] as u32) | ((config[off + 1] as u32) << 8) | ((config[off + 2] as u32) << 16) | ((
    config[off + 3] as u32) << 24)
}

impl<K: Kind> Device<K> {
    /// The configuration bytes.
    pub closed spec fn spec_config(&self) -> Seq<u8> {
        self.config@
    }

    /// The sizing-probe responses.
    pub closed spec fn spec_probe(&self) -> Seq<u32> {
        self.probe@
    }

    /// Well-formedness: a whole configuration space, one probe response per
    /// 32-bit register.
    pub open spec fn wf(&self) -> bool {
        self.spec_config().len() == 256 && self.spec_probe().len() == 64
    }

    /// A device over the given configuration bytes and probe responses.
    pub fn new(config: Vec<u8>, probe: Vec<u32>) -> (r: Device<K>)
        requires
            config@.len() == 256,
            probe@.len() == 64,
        ensures
            r.wf(),
            r.spec_config() == config@,
            r.spec_probe() == probe@,
    {
        Device { config, probe, _marker: core::marker::PhantomData }
    }

    /// The 16-bit register at byte `off`.
    fn read_u16(&self, off: usize) -> (r: u16)
        requires
            self.wf(),
            off + 2 <= 256,
        ensures
            r == spec_le16(self.spec_config(), off as int),
    {
        (self.config[off] as u16) | ((self.config[off + 1] as u16) << 8u16)
    }

    /// The 32-bit register at byte `off`.
    fn read_u32(&self, off: usize) -> (r: u32)
        requires
            self.wf(),
            off + 4 <= 256,
        ensures
            r == spec_le32(self.spec_config(), off as int),
    {
        (self.config[off] as u32) | ((self.config[off + 1] as u32) << 8u32) | ((self.config[off
            + 2] as u32) << 16u32) | ((self.config[off + 3] as u32) << 24u32)
    }

    /// The vendor identifier; `None` for the all-ones pattern an empty slot
    /// reads as.
    pub fn get_vendor_id(&self) -> (r: Option<u16>)
        requires
            self.wf(),
        ensures
            spec_le16(self.spec_config(), 0) == 0xffff ==> r is None,
            spec_le16(self.spec_config(), 0) != 0xffff ==> r == Some(
                spec_le16(self.spec_config(), 0),
            ),
    {
        let v = self.read_u16(0);
        if v == 0xffff {
            None
        } else {
            Some(v)
        }
    }

    /// The device identifier.
    pub fn get_device_id(&self) -> (r: u16)
        requires
            self.wf(),
        ensures
            r == spec_le16(self.spec_config(), 2),
    {
        self.read_u16(2)
    }

    /// The command register.
    pub fn get_command(&self) -> (r: Command)
        requires
            self.wf(),
        ensures
            r.0 == spec_le16(self.spec_config(), 4),
    {
        Command(self.read_u16(4))
    }

    /// The status register.
    pub fn get_status(&self) -> (r: Status)
        requires
            self.wf(),
        ensures
            r.spec_bits() == spec_le16(self.spec_config(), 6),
    {
        Status::from_bits_retain(self.read_u16(6))
    }

    /// The revision identifier.
    pub fn get_revision_id(&self) -> (r: u8)
        requires
            self.wf(),
        ensures
            r == self.spec_config()[8],
    {
        self.config[8]
    }

    /// The cache line size, in 32-bit units.
    pub fn get_cache_line_size(&self) -> (r: u8)
        requires
            self.wf(),
        ensures
            r == self.spec_config()[12],
    {
        self.config[12]
    }

    /// The master latency timer.
    pub fn get_latency_timer(&self) -> (r: u8)
        requires
            self.wf(),
        ensures
            r == self.spec_config()[13],
    {
        self.config[13]
    }

    /// The header-type field: the low seven bits of byte 14.
    pub fn get_header_type(&self) -> (r: u8)
        requires
            self.wf(),
        ensures
            r == self.spec_config()[14] & 0x7f,
    {
        self.config[14] & 0x7f
    }

    /// Whether the device exposes several functions: bit 7 of byte 14.
    pub fn get_multi_function(&self) -> (r: bool)
        requires
            self.wf(),
        ensures
            r == (self.spec_config()[14] & 0x80 > 0),
    {
        (self.config[14] & 0x80) > 0
    }

    /// Decode base address register `index`: its address, its kind, and the
    /// size the device reported to the all-ones probe. A 64-bit register
    /// reads the following register for the address's high half.
    pub fn get_bar(&mut self, index: usize) -> (r: Result<Bar, Error>)
        requires
            old(self).wf(),
        ensures
            *final(self) == *old(self),
            index >= K::spec_register_count() ==> r == Result::<Bar, Error>::Err(
                Error::BarIndexOverflow { index },
            ),
            index < K::spec_register_count() ==> ({
                let bar = spec_le32(old(self).spec_config(), 0x10 + index * 4);
                let mask = old(self).spec_probe()[(0x10 + index * 4) as int / 4];
                &&& (bar & 1 == 1 ==> r == Result::<Bar, Error>::Ok(
                    Bar::IOSpace { address: bar & !0b11, size: 0 },
                ))
                &&& (bar & 1 == 0 && (bar >> 1) & 0b11 == 0 ==> (r matches Ok(b)
                    && b matches Bar::MemorySpace32 { address, size, prefetch } && address == bar
                    && size == spec_wrap_inc32(!(mask & !0xfu32)) && prefetch == ((bar >> 3) & 1
                    == 1)))
                &&& (bar & 1 == 0 && (bar >> 1) & 0b11 == 1 ==> r == Result::<Bar, Error>::Err(
                    Error::InvalidBarSpace { value: 1 },
                ))
                &&& (bar & 1 == 0 && (bar >> 1) & 0b11 == 3 ==> r == Result::<Bar, Error>::Err(
                    Error::InvalidBarSpace { value: 3 },
                ))
            }),
    {
        if index >= K::register_count() {
            return Err(Error::BarIndexOverflow { index });
        }
        proof {
            K::lemma_register_count_bound();
        }
        let bar_offset = 0x10 + index * 4;
        let bar = self.read_u32(bar_offset);
        if bar & 1 == 1 {
            Ok(Bar::IOSpace { address: bar & !0b11, size: 0 })
        } else {
            let space = (bar >> 1) & 0b11;
            proof {
                assert(((bar >> 1u32) & 0b11) < 4) by (bit_vector);
            }
            if space == 0 {
                let mask = self.probe[bar_offset / 4];
                let inv = !(mask & !0xfu32);
                let size = if inv == u32::MAX {
                    0
                } else {
                    inv + 1
                };
                Ok(
                    Bar::MemorySpace32 {
                        address: bar,
                        size,
                        prefetch: (bar >> 3) & 1 == 1,
                    },
                )
            } else if space == 2 {
                let high = self.read_u32(bar_offset + 4);
                let mask_low = self.probe[bar_offset / 4];
                let mask_high = self.probe[bar_offset / 4 + 1];
                let size_low = (mask_low & !0xfu32) as u64;
                let size_high = mask_high as u64;
                let inv = !((size_high << 32u64) | size_low);
                let size = if inv == u64::MAX {
                    0
                } else {
                    inv + 1
                };
                let address = ((high as u64) << 32u64) | ((bar & !0xfu32) as u64);
                Ok(Bar::MemorySpace64 { address, size, prefetch: (bar >> 3) & 1 == 1 })
            } else {
                Err(Error::InvalidBarSpace { value: space as u8 })
            }
        }
    }
}

/// One decoded base address register.
#[derive(Debug, Clone, Copy, PartialEq, Eq, Structural)]
pub enum Bar {
    MemorySpace32 { address: u32, size: u32, prefetch: bool },
    MemorySpace64 { address: u64, size: u64, prefetch: bool },
    IOSpace { address: u32, size: u32 },
}

impl Bar {
    /// Whether the register names no resource.
    pub fn is_unused(&self) -> (r: bool)
        ensures
            self matches Bar::MemorySpace32 { address, .. } ==> r == (address == 0),
            self matches Bar::MemorySpace64 { address, .. } ==> r == (address == 0),
            self matches Bar::IOSpace { address, .. } ==> r == (address >> 2 == 0),
    {
        match self {
            Bar::MemorySpace32 { address, .. } => *address == 0,
            Bar::MemorySpace64 { address, .. } => *address == 0,
            Bar::IOSpace { address, .. } => (*address >> 2u32) == 0,
        }
    }

    /// The resource's size, in bytes.
    pub fn get_size(&self) -> (r: usize)
        requires
            self matches Bar::MemorySpace64 { size, .. } ==> size <= usize::MAX,
        ensures
            self matches Bar::MemorySpace32 { size, .. } ==> r == size,
            self matches Bar::MemorySpace64 { size, .. } ==> r == size,
            self matches Bar::IOSpace { size, .. } ==> r == size,
    {
        match self {
            Bar::MemorySpace32 { size, .. } => *size as usize,
            Bar::MemorySpace64 { size, .. } => *size as usize,
            Bar::IOSpace { size, .. } => *size as usize,
        }
    }

    /// The resource's physical address.
    pub fn get_address(&self) -> (r: Option<Address<Physical>>)
        ensures
            ({
                let raw: int = match self {
                    Bar::MemorySpace32 { address, .. } => address as int,
                    Bar::MemorySpace64 { address, .. } => address as int,
                    Bar::IOSpace { address, .. } => address as int,
                };
                (r matches Some(a) ==> a.spec_get() == raw) && (raw < 0x0010_0000_0000_0000 && raw
                    <= usize::MAX ==> r is Some)
            }),
    {
        let raw: u64 = match self {
            Bar::MemorySpace32 { address, .. } => *address as u64,
            Bar::MemorySpace64 { address, .. } => *address,
            Bar::IOSpace { address, .. } => *address as u64,
        };
        if raw <= usize::MAX as u64 {
            proof {
                assert(raw < 0x0010_0000_0000_0000u64 ==> raw & !0x000F_FFFF_FFFF_FFFFu64 == 0)
                    by (bit_vector);
                assert(raw & !0x000F_FFFF_FFFF_FFFFu64 == 0 ==> raw < 0x0010_0000_0000_0000u64)
                    by (bit_vector);
                assert((raw as usize) as u64 == raw);
            }
            Address::<Physical>::new(raw as usize)
        } else {
            None
        }
    }
}

/// A device from a configuration space, decoded by the layout its
/// header-type byte names.
pub fn new_device(config: Vec<u8>, probe: Vec<u32>) -> (r: Result<DeviceKind, Error>)
    requires
        config@.len() == 256,
        probe@.len() == 64,
    ensures
        ({
            let ty = config@[14] & 0x7f;
            &&& (ty == 0 ==> (r matches Ok(DeviceKind::Standard(d)) && d.wf() && d.spec_config()
                == config@))
            &&& (ty == 1 ==> (r matches Ok(DeviceKind::PCI2PCI(d)) && d.wf() && d.spec_config()
                == config@))
            &&& (ty == 2 ==> r == Result::<DeviceKind, Error>::Err(
                Error::UnsupportedKind { raw: 2 },
            ))
            &&& (ty > 2 ==> r == Result::<DeviceKind, Error>::Err(Error::InvalidKind { raw: ty }))
        }),
{
    let ty = config[14] & 0x7f;
    if ty == 0 {
        Ok(DeviceKind::Standard(Device::<Standard>::new(config, probe)))
    } else if ty == 1 {
        Ok(DeviceKind::PCI2PCI(Device::<Pci2Pci>::new(config, probe)))
    } else if ty == 2 {
        Err(Error::UnsupportedKind { raw: 2 })
    } else {
        Err(Error::InvalidKind { raw: ty })
    }
}

/// The base of a device's configuration region inside a segment's
/// configuration window: the bus index at bit 20, the device index at bit
/// 15.
pub fn get_device_base_address(base: usize, bus_index: u8, device_index: u8) -> (r: Address<Frame>)
    requires
        base % PAGE_SIZE == 0,
        base + 0x0fff_8000 <= usize::MAX,
    ensures
        r.spec_get() == base as u64 | ((bus_index as u64) << 20) | ((device_index as u64) << 15),
{
    let b: u64 = base as u64;
    let bus: u64 = bus_index as u64;
    let dev: u64 = device_index as u64;
    let value: u64 = b | (bus << 20u64) | (dev << 15u64);
    proof {
        assert(value % 4096 == 0 && value <= b + 0x0fff_8000u64) by (bit_vector)
            requires
                b % 4096 == 0,
                b <= 0xffff_ffff_ffff_ffffu64 - 0x0fff_8000u64,
                bus <= 255u64,
                dev <= 255u64,
                value == b | (bus << 20u64) | (dev << 15u64),
        ;
        assert((value as usize) as u64 == value);
        assert((value as usize) % PAGE_SIZE == 0);
    }
    Address::<Frame>::new(value as usize).unwrap()
}

} // verus!
