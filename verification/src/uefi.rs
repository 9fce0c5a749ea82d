//! Firmware memory-map data model.
//!
//! The firmware hands the kernel an ordered sequence of memory-region
//! descriptors. Only the plain record contents live here; reading the raw
//! descriptor buffer from the firmware tables is I/O and stays outside the
//! library. The allocator registers every `CONVENTIONAL_MEMORY` region.

use vstd::prelude::*;

verus! {

/// Opaque handle value passed to the kernel by the firmware.
pub type EfiHandle = u64;

/// Identifier of a firmware protocol.
#[derive(Clone, Copy, PartialEq, Eq, Debug)]
pub struct EfiGuid {
    pub data0: u32,
    pub data1: u16,
    pub data2: u16,
    pub data3: [u8; 8],
}

/// Status value returned by firmware boot services.
#[derive(Clone, Copy, PartialEq, Eq, Structural, Debug)]
pub enum EfiStatus {
    Success,
}

/// Category of a firmware-reported memory region.
#[derive(Clone, Copy, PartialEq, Eq, Structural, Debug)]
#[allow(non_camel_case_types)]
pub enum EfiMemoryType {
    RESERVED,
    LOADER_CODE,
    LOADER_DATA,
    BOOT_SERVICES_CODE,
    BOOT_SERVICES_DATA,
    RUNTIME_SERVICES_CODE,
    RUNTIME_SERVICES_DATA,
    CONVENTIONAL_MEMORY,
    UNUSABLE_MEMORY,
    ACPI_RECLAIM_MEMORY,
    ACPI_MEMORY_NVS,
    MEMORY_MAPPED_IO,
    MEMORY_MAPPED_IO_PORT_SPACE,
    PAL_CODE,
    PERSISTENT_MEMORY,
}

/// The memory type encoded by a firmware type code. Codes outside the
/// defined range decode as `RESERVED`, which no consumer treats as usable.
pub open spec fn memory_type_of_code(code: u32) -> EfiMemoryType {
    if code == 1 {
        EfiMemoryType::LOADER_CODE
    } else if code == 2 {
        EfiMemoryType::LOADER_DATA
    } else if code == 3 {
        EfiMemoryType::BOOT_SERVICES_CODE
    } else if code == 4 {
        EfiMemoryType::BOOT_SERVICES_DATA
    } else if code == 5 {
        EfiMemoryType::RUNTIME_SERVICES_CODE
    } else if code == 6 {
        EfiMemoryType::RUNTIME_SERVICES_DATA
    } else if code == 7 {
        EfiMemoryType::CONVENTIONAL_MEMORY
    } else if code == 8 {
        EfiMemoryType::UNUSABLE_MEMORY
    } else if code == 9 {
        EfiMemoryType::ACPI_RECLAIM_MEMORY
    } else if code == 10 {
        EfiMemoryType::ACPI_MEMORY_NVS
    } else if code == 11 {
        EfiMemoryType::MEMORY_MAPPED_IO
    } else if code == 12 {
        EfiMemoryType::MEMORY_MAPPED_IO_PORT_SPACE
    } else if code == 13 {
        EfiMemoryType::PAL_CODE
    } else if code == 14 {
        EfiMemoryType::PERSISTENT_MEMORY
    } else {
        EfiMemoryType::RESERVED
    }
}

impl EfiMemoryType {
    /// Decodes a raw firmware type code.
    pub fn from_code(code: u32) -> (r: EfiMemoryType)
        ensures
            r == memory_type_of_code(code),
    {
        match code {
            1 => EfiMemoryType::LOADER_CODE,
            2 => EfiMemoryType::LOADER_DATA,
            3 => EfiMemoryType::BOOT_SERVICES_CODE,
            4 => EfiMemoryType::BOOT_SERVICES_DATA,
            5 => EfiMemoryType::RUNTIME_SERVICES_CODE,
            6 => EfiMemoryType::RUNTIME_SERVICES_DATA,
            7 => EfiMemoryType::CONVENTIONAL_MEMORY,
            8 => EfiMemoryType::UNUSABLE_MEMORY,
            9 => EfiMemoryType::ACPI_RECLAIM_MEMORY,
            10 => EfiMemoryType::ACPI_MEMORY_NVS,
            11 => EfiMemoryType::MEMORY_MAPPED_IO,
            12 => EfiMemoryType::MEMORY_MAPPED_IO_PORT_SPACE,
            13 => EfiMemoryType::PAL_CODE,
            14 => EfiMemoryType::PERSISTENT_MEMORY,
            _ => EfiMemoryType::RESERVED,
        }
    }
}

/// One firmware-reported memory region: a category, a starting physical
/// address, and a length in 4096-byte pages.
#[derive(Clone, Copy, PartialEq, Eq, Structural, Debug)]
pub struct EfiMemoryDescriptor {
    pub memory_type: EfiMemoryType,
    pub physical_start: u64,
    pub virtual_start: u64,
    pub number_of_pages: u64,
    pub attribute: u64,
}

impl EfiMemoryDescriptor {
    /// Builds a descriptor record from its raw fields.
    pub fn new(
        memory_type: EfiMemoryType,
        physical_start: u64,
        virtual_start: u64,
        number_of_pages: u64,
        attribute: u64,
    ) -> (r: EfiMemoryDescriptor)
        ensures
            r == (EfiMemoryDescriptor {
                memory_type,
                physical_start,
                virtual_start,
                number_of_pages,
                attribute,
            }),
    {
        EfiMemoryDescriptor { memory_type, physical_start, virtual_start, number_of_pages, attribute }
    }

    /// The region's category.
    pub fn memory_type(&self) -> (r: EfiMemoryType)
        ensures
            r == self.memory_type,
    {
        self.memory_type
    }

    /// The region's length in 4096-byte pages.
    pub fn number_of_pages(&self) -> (r: u64)
        ensures
            r == self.number_of_pages,
    {
        self.number_of_pages
    }

    /// The region's starting physical address.
    pub fn physical_start(&self) -> (r: u64)
        ensures
            r == self.physical_start,
    {
        self.physical_start
    }
}

/// A snapshot of the firmware memory map: the parsed descriptor records and
/// the map key that the boot-services exit handshake echoes back.
pub struct MemoryMapHolder {
    pub descriptors: Vec<EfiMemoryDescriptor>,
    pub map_key: usize,
}

impl View for MemoryMapHolder {
    type V = Seq<EfiMemoryDescriptor>;

    open spec fn view(&self) -> Seq<EfiMemoryDescriptor> {
        self.descriptors@
    }
}

impl MemoryMapHolder {
    /// An empty snapshot, ready to be filled from the firmware.
    pub fn new() -> (r: MemoryMapHolder)
        ensures
            r@ == Seq::<EfiMemoryDescriptor>::empty(),
            r.map_key == 0,
    {
        MemoryMapHolder { descriptors: Vec::new(), map_key: 0 }
    }

    /// Appends one parsed descriptor record.
    pub fn push_descriptor(&mut self, d: EfiMemoryDescriptor)
        ensures
            final(self)@ == old(self)@.push(d),
            final(self).map_key == old(self).map_key,
    {
        self.descriptors.push(d);
    }

    /// The number of descriptor records in the snapshot.
    pub fn len(&self) -> (r: usize)
        ensures
            r == self@.len(),
    {
        self.descriptors.len()
    }

    /// The descriptor record at `index`.
    pub fn get(&self, index: usize) -> (r: &EfiMemoryDescriptor)
        requires
            index < self@.len(),
        ensures
            *r == self@[index as int],
    {
        &self.descriptors[index]
    }

    /// A cursor over the descriptor records, in map order.
    pub fn iter(&self) -> (r: MemoryMapIterator<'_>)
        ensures
            r.map == self,
            r.ofs == 0,
    {
        MemoryMapIterator { map: self, ofs: 0 }
    }
}

/// Cursor over the descriptors of a `MemoryMapHolder`.
pub struct MemoryMapIterator<'a> {
    pub map: &'a MemoryMapHolder,
    pub ofs: usize,
}

impl<'a> MemoryMapIterator<'a> {
    /// The next descriptor record, or `None` once the map is exhausted.
    pub fn next(&mut self) -> (r: Option<&'a EfiMemoryDescriptor>)
        ensures
            final(self).map == old(self).map,
            if old(self).ofs < old(self).map@.len() {
                &&& r == Some(&old(self).map@[old(self).ofs as int])
                &&& final(self).ofs == old(self).ofs + 1
            } else {
                &&& r is None
                &&& final(self).ofs == old(self).ofs
            },
    {
        if self.ofs >= self.map.descriptors.len() {
            None
        } else {
            let e = &self.map.descriptors[self.ofs];
            self.ofs = self.ofs + 1;
            Some(e)
        }
    }
}

} // verus!
