//! Mounting: the boot sector and what it says of the volume.
use vstd::prelude::*;

use super::types;
use super::types::{Fat32, Geometry};
use crate::bytes;
use crate::bytes::{copy_of, read_le16, read_le32, repeat_byte};
use crate::fs::block::BlockSource;
use vstd::slice::slice_subrange;

verus! {

/// The geometry that a boot sector describes; `None` if it describes none.
pub open spec fn boot_geometry(b: Seq<u8>) -> Option<Geometry> {
    let rsvd = bytes::le_value(b, 14, 2);
    let fat_size = bytes::le_value(b, 36, 4);
    let root = bytes::le_value(b, 44, 4);
    if b[510] != 0x55 || b[511] != 0xAA || bytes::le_value(b, 11, 2) != 512
        || !types::power_of_two(b[13]) || b[16] == 0 || fat_size == 0 || root < 2 {
        None
    } else {
        Some(
            Geometry {
                spc: b[13],
                fat_start: rsvd as u32,
                num_fats: b[16],
                fat_size: fat_size as u32,
                data_start: ((rsvd + b[16] * fat_size) % 0x1_0000_0000) as u32,
                root_cluster: root as u32,
            },
        )
    }
}

/// Where the extended fields start: behind the signature 0x29 at 66, or at 67
/// on older volumes.
pub open spec fn extended_at(b: Seq<u8>) -> Option<int> {
    if b[66] == 0x29 {
        Some(67int)
    } else if b[67] == 0x29 {
        Some(68int)
    } else {
        None
    }
}

/// The serial number of a volume.
pub open spec fn boot_serial(b: Seq<u8>) -> Option<u32> {
    match extended_at(b) {
        Some(p) => Some(bytes::le_value(b, p, 4) as u32),
        None => None,
    }
}

/// The label of a volume: eleven bytes, spaces if there is none.
pub open spec fn boot_label(b: Seq<u8>) -> Seq<u8> {
    match extended_at(b) {
        Some(p) => b.subrange(p + 4, p + 15),
        None => bytes::filled(32, 11),
    }
}

fn is_power_of_two(n: u8) -> (r: bool)
    ensures
        r == types::power_of_two(n),
{
    n == 1 || n == 2 || n == 4 || n == 8 || n == 16 || n == 32 || n == 64 || n == 128
}

/// Reads the geometry out of a boot sector.
pub fn decode_boot(b: &[u8]) -> (r: Option<Geometry>)
    requires
        b.len() == 512,
    ensures
        r == boot_geometry(b@),
        r matches Some(g) ==> types::sound_geometry(g),
{
    let rsvd: u16 = read_le16(b, 14);
    let fat_size: u32 = read_le32(b, 36);
    let root: u32 = read_le32(b, 44);
    if b[510] != 0x55 || b[511] != 0xAA {
        return None;
    }
    if read_le16(b, 11) != 512 || !is_power_of_two(b[13]) {
        return None;
    }
    if b[16] == 0 || fat_size == 0 || root < 2 {
        return None;
    }
    assert(b[16] * fat_size <= 255 * 0xFFFF_FFFF) by (nonlinear_arith)
        requires
            0 <= b[16] <= 255,
            0 <= fat_size <= 0xFFFF_FFFF,
    ;
    let data: u64 = rsvd as u64 + b[16] as u64 * fat_size as u64;
    Some(
        Geometry {
            spc: b[13],
            fat_start: rsvd as u32,
            num_fats: b[16],
            fat_size,
            data_start: (data % 0x1_0000_0000) as u32,
            root_cluster: root,
        },
    )
}

/// The serial number and the label that a boot sector holds.
pub fn fat_bpb_identity(b: &[u8]) -> (r: (Option<u32>, Vec<u8>))
    requires
        b.len() == 512,
    ensures
        r.0 == boot_serial(b@),
        r.1@ == boot_label(b@),
        r.1@.len() == 11,
{
    let p: usize = if b[66] == 0x29 {
        67
    } else if b[67] == 0x29 {
        68
    } else {
        return (None, repeat_byte(32, 11));
    };
    (Some(read_le32(b, p)), copy_of(slice_subrange(b, p + 4, p + 15)))
}

/// A label without the spaces behind it.
pub open spec fn trimmed(label: Seq<u8>) -> Seq<u8>
    decreases label.len(),
{
    if label.len() > 0 && label.last() == 32 {
        trimmed(label.drop_last())
    } else {
        label
    }
}

impl<B: BlockSource> Fat32<B> {
    /// The volume on a device with this boot sector. Fails where it describes
    /// none.
    pub fn from_boot(disk: B, boot: &[u8; 512]) -> (r: Option<Fat32<B>>)
        ensures
            match r {
                Some(f) => {
                    &&& f.img() == disk.image()
                    &&& f.faults() == disk.faults()
                    &&& f.wf()
                    &&& boot_geometry(boot@) == Some(f.geometry())
                    &&& f.identity() == (f.geometry(), boot_serial(boot@), boot_label(boot@))
                },
                None => boot_geometry(boot@) is None,
            },
    {
        match decode_boot(boot.as_slice()) {
            Some(geo) => {
                let (vol_serial, vol_label): (Option<u32>, Vec<u8>) = fat_bpb_identity(
                    boot.as_slice(),
                );
                Some(Fat32 { disk, geo, vol_serial, vol_label })
            },
            None => None,
        }
    }

    /// Mounts the volume on a device. Fails where the boot sector cannot be
    /// read or describes no volume.
    pub fn mount(disk: B) -> (r: Option<Fat32<B>>)
        ensures
            match r {
                Some(f) => {
                    &&& f.img() == disk.image()
                    &&& f.faults() == disk.faults()
                    &&& f.wf()
                    &&& boot_geometry(disk.image()[0]) == Some(f.geometry())
                    &&& f.identity() == (
                        f.geometry(),
                        boot_serial(disk.image()[0]),
                        boot_label(disk.image()[0]),
                    )
                },
                None => true,
            },
            boot_geometry(disk.image()[0]) is None ==> r is None,
    {
        let mut disk = disk;
        let mut boot: [u8; 512] = [0u8; 512];
        if !disk.read_sector(0, &mut boot) {
            return None;
        }
        Fat32::from_boot(disk, &boot)
    }

    /// The serial number of the volume.
    pub fn vol_serial(&self) -> (r: Option<u32>)
        ensures
            r == self.identity().1,
    {
        self.vol_serial
    }

    /// The label of the volume without the spaces behind it.
    pub fn vol_label_trimmed(&self) -> (r: Vec<u8>)
        ensures
            r@ == trimmed(self.identity().2),
    {
        let mut n: usize = self.vol_label.len();
        assert(self.vol_label@.take(n as int) =~= self.vol_label@);
        while n > 0 && self.vol_label[n - 1] == 32
            invariant
                n <= self.vol_label.len(),
                trimmed(self.vol_label@) == trimmed(self.vol_label@.take(n as int)),
            decreases n,
        {
            assert(self.vol_label@.take(n as int).drop_last() =~= self.vol_label@.take(n - 1));
            n -= 1;
        }
        assert(self.vol_label@.subrange(0, n as int) =~= self.vol_label@.take(n as int));
        copy_of(slice_subrange(&self.vol_label, 0, n))
    }

    /// Bytes per cluster.
    pub fn cluster_bytes(&self) -> (r: u64)
        ensures
            r == types::cluster_size(self.geometry()),
    {
        self.geo.spc as u64 * 512
    }

    /// The device of the volume.
    pub fn disk(&self) -> (r: &B)
        ensures
            r.image() == self.img(),
            r.faults() == self.faults(),
    {
        &self.disk
    }
}

} // verus!
