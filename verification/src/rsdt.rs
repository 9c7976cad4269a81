//! The Root System Description Table (RSDT) of ACPI: a header followed by
//! an array of 32-bit pointers to the other ACPI tables.

use vstd::prelude::*;

verus! {

/// The size in bytes of an ACPI table header, which is also the size of the
/// RSDT's own fixed part.
pub const ACPI_TABLE_HEADER_SIZE: u32 = 36;

/// The fields of an ACPI table header that the table logic reads.
#[derive(Clone, Copy, Debug)]
pub struct AcpiTableHeader {
    /// The total length in bytes of the table, header included.
    pub length: u32,
}

/// The Root System Description Table.
#[derive(Clone, Copy, Debug)]
pub struct Rsdt {
    /// The table's header.
    pub header: AcpiTableHeader,
}

impl Rsdt {
    /// The number of table pointers following the header: each entry is a
    /// 32-bit physical address.
    pub fn entries_count(&self) -> (r: u32)
        requires
            self.header.length >= ACPI_TABLE_HEADER_SIZE,
        ensures
            r == (self.header.length - ACPI_TABLE_HEADER_SIZE) / 4,
    {
        (self.header.length - ACPI_TABLE_HEADER_SIZE) / 4
    }

    /// The signature expected at the head of the table.
    pub fn get_expected_signature() -> (r: [u8; 4])
        ensures
            r@ == seq![82u8, 83u8, 68u8, 84u8],
    {
        let r = [82u8, 83u8, 68u8, 84u8];
        proof {
            assert(r@ =~= seq![82u8, 83u8, 68u8, 84u8]);
        }
        r
    }
}

} // verus!
