//! The Master Boot Record (MBR): the partition table format found in the
//! first sector of a boot disk on the x86 architecture, alongside the boot
//! code.

use vstd::prelude::*;

verus! {

use crate::byteorder::u16_le;
use crate::byteorder::u32_le;
use crate::byteorder::read_u16_le;
use crate::byteorder::read_u32_le;

/// The signature closing a valid MBR partition table, as read from the
/// sector's last two bytes.
pub const MBR_SIGNATURE: u16 = 0x55aa;

/// The size in bytes of a disk sector holding the table.
pub const SECTOR_SIZE: usize = 512;

/// One entry of the partition table.
#[derive(Clone, Copy, Debug)]
pub struct MBRPartition {
    /// Partition attributes.
    pub attrs: u8,
    /// CHS address of the partition's start.
    pub chs_start: [u8; 3],
    /// The type of the partition.
    pub partition_type: u8,
    /// CHS address of the partition's end.
    pub chs_end: [u8; 3],
    /// LBA address of the partition's start.
    pub lba_start: u32,
    /// The number of sectors in the partition.
    pub sectors_count: u32,
}

impl MBRPartition {
    /// Whether the partition's active bit is set.
    pub open spec fn spec_is_active(self) -> bool {
        self.attrs & 0x80 != 0
    }

    /// Tells whether the partition is active.
    pub fn is_active(&self) -> (r: bool)
        ensures
            r == self.spec_is_active(),
    {
        proof {
            assert(1u8 << 7 == 0x80) by (bit_vector);
        }
        self.attrs & (1 << 7) != 0
    }
}

/// A contiguous run of sectors claimed by an active table entry.
#[derive(Clone, Copy, Debug, PartialEq, Eq, Structural)]
pub struct Partition {
    /// Offset of the partition's first sector.
    pub start: u64,
    /// The number of sectors in the partition.
    pub size: u64,
}

impl Partition {
    /// Creates a new instance.
    pub fn new(start: u64, size: u64) -> (r: Partition)
        ensures
            r.start == start,
            r.size == size,
    {
        Partition { start, size }
    }
}

/// The partition claimed by one active table entry.
pub open spec fn partition_of(p: MBRPartition) -> Partition {
    Partition { start: p.lba_start as u64, size: p.sectors_count as u64 }
}

/// The partitions of the active entries of `s`, in table order.
pub open spec fn active_partitions(s: Seq<MBRPartition>) -> Seq<Partition>
    decreases s.len(),
{
    if s.len() == 0 {
        Seq::empty()
    } else if s.last().spec_is_active() {
        active_partitions(s.drop_last()).push(partition_of(s.last()))
    } else {
        active_partitions(s.drop_last())
    }
}

/// The partition table of a boot sector.
#[derive(Debug)]
pub struct MBRTable {
    /// The boot code.
    pub boot: Vec<u8>,
    /// The disk signature (optional).
    pub disk_signature: u32,
    /// Zero.
    pub zero: u16,
    /// The list of partitions.
    pub partitions: Vec<MBRPartition>,
    /// The partition table signature.
    pub signature: u16,
}

/// Parses the table entry at offset `off` of the sector.
fn parse_partition(sector: &[u8], off: usize) -> (p: MBRPartition)
    requires
        off + 16 <= sector@.len(),
    ensures
        p.attrs == sector@[off as int],
        p.chs_start@ == sector@.subrange(off + 1, off + 4),
        p.partition_type == sector@[off + 4],
        p.chs_end@ == sector@.subrange(off + 5, off + 8),
        p.lba_start == u32_le(sector@, off + 8),
        p.sectors_count == u32_le(sector@, off + 12),
{
    let p = MBRPartition {
        attrs: sector[off],
        chs_start: [sector[off + 1], sector[off + 2], sector[off + 3]],
        partition_type: sector[off + 4],
        chs_end: [sector[off + 5], sector[off + 6], sector[off + 7]],
        lba_start: read_u32_le(sector, off + 8),
        sectors_count: read_u32_le(sector, off + 12),
    };
    proof {
        assert(p.chs_start@ =~= sector@.subrange(off + 1, off + 4));
        assert(p.chs_end@ =~= sector@.subrange(off + 5, off + 8));
    }
    p
}

impl MBRTable {
    /// Parses the partition table out of a disk's first sector. Returns
    /// `None` exactly when the sector does not close with the table
    /// signature.
    pub fn read(first_sector: &[u8]) -> (r: Option<MBRTable>)
        requires
            first_sector@.len() == SECTOR_SIZE,
        ensures
            r is Some <==> u16_le(first_sector@, 510) == MBR_SIGNATURE,
            r matches Some(t) ==> {
                &&& t.boot@ == first_sector@.subrange(0, 440)
                &&& t.disk_signature == u32_le(first_sector@, 440)
                &&& t.zero == u16_le(first_sector@, 444)
                &&& t.partitions@.len() == 4
                &&& (forall|i: int| 0 <= i < 4 ==> (#[trigger] t.partitions@[i]).attrs
                    == first_sector@[446 + 16 * i])
                &&& (forall|i: int| 0 <= i < 4 ==> (#[trigger] t.partitions@[i]).lba_start
                    == u32_le(first_sector@, 446 + 16 * i + 8))
                &&& (forall|i: int| 0 <= i < 4 ==> (#[trigger] t.partitions@[i]).sectors_count
                    == u32_le(first_sector@, 446 + 16 * i + 12))
                &&& t.signature == MBR_SIGNATURE
            },
    {
        let signature = read_u16_le(first_sector, 510);
        if signature != MBR_SIGNATURE {
            return Option::None;
        }
        let mut boot: Vec<u8> = Vec::new();
        let mut i: usize = 0;
        while i < 440
            invariant
                first_sector@.len() == SECTOR_SIZE,
                i <= 440,
                boot@.len() == i as int,
                forall|j: int| 0 <= j < i as int ==> boot@[j] == first_sector@[j],
            decreases 440 - i,
        {
            boot.push(first_sector[i]);
            i = i + 1;
        }
        let mut partitions: Vec<MBRPartition> = Vec::new();
        let mut k: usize = 0;
        while k < 4
            invariant
                first_sector@.len() == SECTOR_SIZE,
                k <= 4,
                partitions@.len() == k as int,
                forall|j: int| 0 <= j < k as int ==> {
                    &&& (#[trigger] partitions@[j]).attrs == first_sector@[446 + 16 * j]
                    &&& partitions@[j].lba_start == u32_le(first_sector@, 446 + 16 * j + 8)
                    &&& partitions@[j].sectors_count == u32_le(
                        first_sector@,
                        446 + 16 * j + 12,
                    )
                },
            decreases 4 - k,
        {
            let p = parse_partition(first_sector, 446 + 16 * k);
            partitions.push(p);
            k = k + 1;
        }
        let t = MBRTable {
            boot,
            disk_signature: read_u32_le(first_sector, 440),
            zero: read_u16_le(first_sector, 444),
            partitions,
            signature,
        };
        proof {
            assert(t.boot@ =~= first_sector@.subrange(0, 440));
        }
        Option::Some(t)
    }

    /// Returns the partitions of the table's active entries, in order.
    pub fn get_partitions(&self) -> (r: Vec<Partition>)
        ensures
            r@ == active_partitions(self.partitions@),
    {
        let mut partitions: Vec<Partition> = Vec::new();
        let mut i: usize = 0;
        let n = self.partitions.len();
        while i < n
            invariant
                n == self.partitions@.len(),
                i <= n,
                partitions@ == active_partitions(self.partitions@.subrange(0, i as int)),
            decreases n - i,
        {
            let ghost pre = self.partitions@.subrange(0, i as int);
            let p = self.partitions[i];
            if p.is_active() {
                partitions.push(Partition::new(p.lba_start as u64, p.sectors_count as u64));
            }
            i = i + 1;
            proof {
                let cur = self.partitions@.subrange(0, i as int);
                assert(cur.drop_last() =~= pre);
                assert(cur.last() == p);
            }
        }
        proof {
            assert(self.partitions@.subrange(0, n as int) =~= self.partitions@);
        }
        partitions
    }
}

} // verus!
