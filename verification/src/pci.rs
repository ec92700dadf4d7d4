//! Decoding of the legacy PCI configuration header's registers.

use vstd::prelude::*;

verus! {

/// The status register's defined flag bits.
#[derive(Debug, Clone, Copy, PartialEq, Eq, Structural)]
pub struct PCIDeviceStatus {
    bits: u16,
}

/// Mask of the status register's defined flag bits.
pub const PCI_STATUS_MASK: u16 = 0xf9b0;

impl PCIDeviceStatus {
    /// The raw flag bits.
    pub closed spec fn spec_bits(self) -> u16 {
        self.bits
    }

    /// The defined flag bits of a raw register value; undefined bits are
    /// dropped.
    pub fn from_bits_truncate(bits: u16) -> (r: PCIDeviceStatus)
        ensures
            r.spec_bits() == bits & PCI_STATUS_MASK,
    {
        PCIDeviceStatus { bits: bits & PCI_STATUS_MASK }
    }

    /// The raw flag bits.
    pub fn bits(&self) -> (r: u16)
        ensures
            r == self.spec_bits(),
    {
        self.bits
    }

    /// The device-select timing field, bits 9 and 10 of the register.
    pub fn devsel_timing(&self) -> (r: PCIDeviceSELTiming)
        ensures
            r.spec_bits() == (self.spec_bits() >> 9) & 0b11,
    {
        let b = self.bits;
        proof {
            assert((((b >> 9) & 0b11) & 0b11) == ((b >> 9) & 0b11)) by (bit_vector);
        }
        PCIDeviceSELTiming::from_bits_truncate((b >> 9) & 0b11)
    }
}

/// The device-select timing flags.
#[derive(Debug, Clone, Copy, PartialEq, Eq, Structural)]
pub struct PCIDeviceSELTiming {
    bits: u16,
}

impl PCIDeviceSELTiming {
    /// The raw timing bits.
    pub closed spec fn spec_bits(self) -> u16 {
        self.bits
    }

    /// The defined timing bits of a raw value; other bits are dropped.
    pub fn from_bits_truncate(bits: u16) -> (r: PCIDeviceSELTiming)
        ensures
            r.spec_bits() == bits & 0b11,
    {
        PCIDeviceSELTiming { bits: bits & 0b11 }
    }

    /// The raw timing bits.
    pub fn bits(&self) -> (r: u16)
        ensures
            r == self.spec_bits(),
    {
        self.bits
    }
}

/// The class of a device, from the class code register.
#[derive(Debug, Clone, Copy, PartialEq, Eq)]
pub enum PCIDeviceClass {
    Unclassified,
    MassStorageController,
    NetworkController,
    DisplayController,
    MultimediaController,
    MemoryController,
    Bridge,
    CommunicationController,
    GenericSystemPeripheral,
    InputDeviceController,
    DockingStation,
    Processor,
    SerialBusController,
    WirelessController,
    IntelligentController,
    SatelliteCommunicationsController,
    EncryptionController,
    SignalProcessingController,
    ProcessingAccelerators,
    NonEssentialInstrumentation,
    Coprocessor,
    Unassigned,
}

impl PCIDeviceClass {
    /// The class code this class is reported as.
    pub fn code(self) -> (r: u8)
        ensures
            r == self.spec_code(),
    {
        match self {
            PCIDeviceClass::Unclassified => 0x0,
            PCIDeviceClass::MassStorageController => 0x1,
            PCIDeviceClass::NetworkController => 0x2,
            PCIDeviceClass::DisplayController => 0x3,
            PCIDeviceClass::MultimediaController => 0x4,
            PCIDeviceClass::MemoryController => 0x5,
            PCIDeviceClass::Bridge => 0x6,
            PCIDeviceClass::CommunicationController => 0x7,
            PCIDeviceClass::GenericSystemPeripheral => 0x8,
            PCIDeviceClass::InputDeviceController => 0x9,
            PCIDeviceClass::DockingStation => 0xA,
            PCIDeviceClass::Processor => 0xB,
            PCIDeviceClass::SerialBusController => 0xC,
            PCIDeviceClass::WirelessController => 0xD,
            PCIDeviceClass::IntelligentController => 0xE,
            PCIDeviceClass::SatelliteCommunicationsController => 0xF,
            PCIDeviceClass::EncryptionController => 0x10,
            PCIDeviceClass::SignalProcessingController => 0x11,
            PCIDeviceClass::ProcessingAccelerators => 0x12,
            PCIDeviceClass::NonEssentialInstrumentation => 0x13,
            PCIDeviceClass::Coprocessor => 0x40,
            PCIDeviceClass::Unassigned => 0xFF,
        }
    }

    /// The class code this class is reported as.
    pub open spec fn spec_code(self) -> u8 {
        match self {
            PCIDeviceClass::Unclassified => 0x0,
            PCIDeviceClass::MassStorageController => 0x1,
            PCIDeviceClass::NetworkController => 0x2,
            PCIDeviceClass::DisplayController => 0x3,
            PCIDeviceClass::MultimediaController => 0x4,
            PCIDeviceClass::MemoryController => 0x5,
            PCIDeviceClass::Bridge => 0x6,
            PCIDeviceClass::CommunicationController => 0x7,
            PCIDeviceClass::GenericSystemPeripheral => 0x8,
            PCIDeviceClass::InputDeviceController => 0x9,
            PCIDeviceClass::DockingStation => 0xA,
            PCIDeviceClass::Processor => 0xB,
            PCIDeviceClass::SerialBusController => 0xC,
            PCIDeviceClass::WirelessController => 0xD,
            PCIDeviceClass::IntelligentController => 0xE,
            PCIDeviceClass::SatelliteCommunicationsController => 0xF,
            PCIDeviceClass::EncryptionController => 0x10,
            PCIDeviceClass::SignalProcessingController => 0x11,
            PCIDeviceClass::ProcessingAccelerators => 0x12,
            PCIDeviceClass::NonEssentialInstrumentation => 0x13,
            PCIDeviceClass::Coprocessor => 0x40,
            PCIDeviceClass::Unassigned => 0xFF,
        }
    }
}

/// The built-in-self-test register.
#[derive(Debug, Clone, Copy, PartialEq, Eq, Structural)]
pub struct PCIBISTRegister {
    data: u8,
}

impl PCIBISTRegister {
    /// A register from its raw byte.
    pub fn new(data: u8) -> (r: PCIBISTRegister)
        ensures
            r.spec_data() == data,
    {
        PCIBISTRegister { data }
    }

    /// The raw register byte.
    pub closed spec fn spec_data(self) -> u8 {
        self.data
    }

    /// Whether the device can self-test: bit 7.
    pub fn capable(&self) -> (r: bool)
        ensures
            r == (self.spec_data() & 0x80 > 0),
    {
        (self.data & 0x80) > 0
    }

    /// Whether a self-test is running: bit 6.
    pub fn start(&self) -> (r: bool)
        ensures
            r == (self.spec_data() & 0x40 > 0),
    {
        (self.data & 0x40) > 0
    }

    /// The completion code of the last self-test: the low three bits.
    pub fn completion_code(&self) -> (r: u8)
        ensures
            r == self.spec_data() & 0b111,
    {
        self.data & 0b111
    }
}

/// Marks the layouts a configuration header can take.
pub trait PCIDeviceHeaderType {

}

/// A general device's header layout.
pub struct Standard;

impl PCIDeviceHeaderType for Standard {

}

/// A PCI-to-PCI bridge's header layout.
pub struct PCI2PCI;

impl PCIDeviceHeaderType for PCI2PCI {

}

/// A PCI-to-CardBus bridge's header layout.
pub struct PCI2CardBus;

impl PCIDeviceHeaderType for PCI2CardBus {

}

/// The common prefix of every configuration header.
pub struct PCIDeviceHeader<T: PCIDeviceHeaderType> {
    vendor_id: u16,
    device_id: u16,
    status: u16,
    subclass: u8,
    class: PCIDeviceClass,
    header_type: u8,
    bist: PCIBISTRegister,
    phantom: core::marker::PhantomData<T>,
}

impl<T: PCIDeviceHeaderType> PCIDeviceHeader<T> {
    /// A header from its decoded registers.
    pub fn new(
        vendor_id: u16,
        device_id: u16,
        status: u16,
        subclass: u8,
        class: PCIDeviceClass,
        header_type: u8,
        bist: PCIBISTRegister,
    ) -> (r: PCIDeviceHeader<T>)
        ensures
            r.spec_vendor_id() == vendor_id,
            r.spec_device_id() == device_id,
            r.spec_status() == status,
            r.spec_subclass() == subclass,
            r.spec_class() == class,
            r.spec_header_type() == header_type,
            r.spec_bist() == bist,
    {
        PCIDeviceHeader {
            vendor_id,
            device_id,
            status,
            subclass,
            class,
            header_type,
            bist,
            phantom: core::marker::PhantomData,
        }
    }

    pub closed spec fn spec_vendor_id(&self) -> u16 {
        self.vendor_id
    }

    pub closed spec fn spec_device_id(&self) -> u16 {
        self.device_id
    }

    pub closed spec fn spec_status(&self) -> u16 {
        self.status
    }

    pub closed spec fn spec_subclass(&self) -> u8 {
        self.subclass
    }

    pub closed spec fn spec_class(&self) -> PCIDeviceClass {
        self.class
    }

    pub closed spec fn spec_header_type(&self) -> u8 {
        self.header_type
    }

    pub closed spec fn spec_bist(&self) -> PCIBISTRegister {
        self.bist
    }

    /// Whether the header names no device: an all-ones vendor.
    pub fn is_invalid(&self) -> (r: bool)
        ensures
            r == (self.spec_vendor_id() == 0xffff),
    {
        self.vendor_id() == u16::MAX
    }

    /// The vendor identifier.
    pub fn vendor_id(&self) -> (r: u16)
        ensures
            r == self.spec_vendor_id(),
    {
        self.vendor_id
    }

    /// The device identifier.
    pub fn device_id(&self) -> (r: u16)
        ensures
            r == self.spec_device_id(),
    {
        self.device_id
    }

    /// The status register's defined flags.
    pub fn status(&self) -> (r: PCIDeviceStatus)
        ensures
            r.spec_bits() == self.spec_status() & PCI_STATUS_MASK,
    {
        PCIDeviceStatus::from_bits_truncate(self.status)
    }

    /// The device's class.
    pub fn class(&self) -> (r: PCIDeviceClass)
        ensures
            r == self.spec_class(),
    {
        self.class
    }

    /// The subclass within the device's class.
    pub fn subclass(&self) -> (r: u8)
        ensures
            r == self.spec_subclass(),
    {
        self.subclass
    }

    /// The header-type byte.
    pub fn header_type(&self) -> (r: u8)
        ensures
            r == self.spec_header_type(),
    {
        self.header_type
    }

    /// The built-in-self-test register.
    pub fn bist(&self) -> (r: &PCIBISTRegister)
        ensures
            *r == self.spec_bist(),
    {
        &self.bist
    }
}

} // verus!
