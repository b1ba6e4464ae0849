//! Which drives there are, and what they are.
use vstd::prelude::*;

verus! {

/// A channel: its first port, and its control port.
#[derive(Clone, Copy, PartialEq, Eq, Debug, Structural)]
pub struct AtaChannel {
    pub cmd: u16,
    pub ctl: u16,
}

/// The two channels, the primary one first.
pub fn channels() -> (r: [AtaChannel; 2])
    ensures
        r@ == seq![
            (AtaChannel { cmd: 0x1F0, ctl: 0x3F6 }),
            (AtaChannel { cmd: 0x170, ctl: 0x376 }),
        ],
{
    let r: [AtaChannel; 2] = [
        AtaChannel { cmd: 0x1F0, ctl: 0x3F6 },
        AtaChannel { cmd: 0x170, ctl: 0x376 },
    ];
    assert(r@ =~= seq![
        AtaChannel { cmd: 0x1F0, ctl: 0x3F6 },
        AtaChannel { cmd: 0x170, ctl: 0x376 },
    ]);
    r
}

/// A drive: its channel and its place on it, whether its sectors have 48-bit
/// numbers, how many there are, its model and its serial number, and the modes
/// of direct memory access that it has.
#[derive(Clone, Copy)]
pub struct DiskInfo {
    pub cmd: u16,
    pub drive: u8,
    pub lba48: bool,
    pub sectors: u64,
    pub model: [u8; 40],
    pub model_len: usize,
    pub serial: [u8; 20],
    pub serial_len: usize,
    pub mdma_modes: u16,
    pub udma_modes: u16,
}

/// What was found at a place.
pub enum Probe {
    Absent,
    /// A drive that takes packets, such as one for optical disks.
    Atapi,
    Ata(DiskInfo),
}

/// What was read at a place, after the drive was asked to identify itself:
/// the status at once, whether it was ready in time, the status then, the two
/// registers that tell packet drives, and 256 words.
pub struct Seen {
    pub first: u8,
    pub ready: bool,
    pub second: u8,
    pub mid: u8,
    pub hi: u8,
    pub words: Vec<u16>,
}

/// Nothing answers, or not in time, or with an error.
pub open spec fn absent(first: u8, ready: bool, second: u8) -> bool {
    first == 0 || first == 0xFF || !ready || second % 2 == 1
}

/// The answer of a packet drive.
pub open spec fn packet_drive(mid: u8, hi: u8) -> bool {
    mid == 0x14 && hi == 0xEB
}

/// The text in words: the upper byte of each comes first.
pub open spec fn swapped(words: Seq<u16>, from: int, n: int) -> Seq<u8> {
    Seq::new(
        (2 * n) as nat,
        |i: int|
            if i % 2 == 0 {
                (words[from + i / 2] / 256) as u8
            } else {
                (words[from + i / 2] % 256) as u8
            },
    )
}

/// How long a text is without the spaces behind it.
pub open spec fn text_len(s: Seq<u8>) -> int
    decreases s.len(),
{
    if s.len() > 0 && s.last() == 32 {
        text_len(s.drop_last())
    } else {
        s.len() as int
    }
}

/// How many sectors a drive has.
pub open spec fn sector_count(w: Seq<u16>) -> int {
    if (w[83] / 1024) % 2 == 1 {
        w[100] + 0x1_0000 * w[101] + 0x1_0000_0000 * w[102] + 0x1_0000_0000_0000 * w[103]
    } else {
        w[60] + 0x1_0000 * w[61]
    }
}

/// What a drive tells of itself.
pub open spec fn described(d: DiskInfo, cmd: u16, drive: u8, w: Seq<u16>) -> bool {
    &&& d.cmd == cmd
    &&& d.drive == drive
    &&& d.lba48 == ((w[83] / 1024) % 2 == 1)
    &&& d.sectors == sector_count(w)
    &&& d.model@ == swapped(w, 27, 20)
    &&& d.model_len == text_len(d.model@)
    &&& d.serial@ == swapped(w, 10, 10)
    &&& d.serial_len == text_len(d.serial@)
    &&& d.mdma_modes == w[63]
    &&& d.udma_modes == w[88]
}

fn decode_model(words: &[u16]) -> (r: ([u8; 40], usize))
    requires
        words.len() == 256,
    ensures
        r.0@ == swapped(words@, 27, 20),
        r.1 == text_len(r.0@),
{
    let mut out: [u8; 40] = [0u8; 40];
    let mut i: usize = 0;
    while i < 20
        invariant
            i <= 20,
            words@.len() == 256,
            forall|k: int| 0 <= k < 2 * i ==> #[trigger] out@[k] == swapped(words@, 27, 20)[k],
        decreases 20 - i,
    {
        let w: u16 = words[27 + i];
        out[2 * i] = (w / 256) as u8;
        out[2 * i + 1] = (w % 256) as u8;
        i += 1;
    }
    assert(out@ =~= swapped(words@, 27, 20));
    let n: usize = trimmed_len(out.as_slice());
    (out, n)
}

fn decode_serial(words: &[u16]) -> (r: ([u8; 20], usize))
    requires
        words.len() == 256,
    ensures
        r.0@ == swapped(words@, 10, 10),
        r.1 == text_len(r.0@),
{
    let mut out: [u8; 20] = [0u8; 20];
    let mut i: usize = 0;
    while i < 10
        invariant
            i <= 10,
            words@.len() == 256,
            forall|k: int| 0 <= k < 2 * i ==> #[trigger] out@[k] == swapped(words@, 10, 10)[k],
        decreases 10 - i,
    {
        let w: u16 = words[10 + i];
        out[2 * i] = (w / 256) as u8;
        out[2 * i + 1] = (w % 256) as u8;
        i += 1;
    }
    assert(out@ =~= swapped(words@, 10, 10));
    let n: usize = trimmed_len(out.as_slice());
    (out, n)
}

fn trimmed_len(s: &[u8]) -> (r: usize)
    ensures
        r == text_len(s@),
{
    let mut n: usize = s.len();
    assert(s@.take(n as int) =~= s@);
    while n > 0 && s[n - 1] == 32
        invariant
            n <= s@.len(),
            text_len(s@) == text_len(s@.take(n as int)),
        decreases n,
    {
        assert(s@.take(n as int).drop_last() =~= s@.take(n - 1));
        n -= 1;
    }
    n
}

/// What was found at a place of a channel.
pub open spec fn found_at(
    p: Probe,
    cmd: u16,
    drive: u8,
    first: u8,
    ready: bool,
    second: u8,
    mid: u8,
    hi: u8,
    words: Seq<u16>,
) -> bool {
    if absent(first, ready, second) {
        p is Absent
    } else if packet_drive(mid, hi) {
        p is Atapi
    } else {
        p matches Probe::Ata(d) && described(d, cmd, drive, words)
    }
}

/// What was found at a place of a channel, given what was read there.
pub fn probe_drive(ch: &AtaChannel, drive: u8, s: &Seen) -> (r: Probe)
    requires
        s.words@.len() == 256,
    ensures
        found_at(r, ch.cmd, drive, s.first, s.ready, s.second, s.mid, s.hi, s.words@),
{
    if s.first == 0 || s.first == 0xFF || !s.ready || s.second % 2 == 1 {
        return Probe::Absent;
    }
    if s.mid == 0x14 && s.hi == 0xEB {
        return Probe::Atapi;
    }
    let w: &Vec<u16> = &s.words;
    let lba48: bool = (w[83] / 1024) % 2 == 1;
    let sectors: u64 = if lba48 {
        w[100] as u64 + 0x1_0000 * (w[101] as u64) + 0x1_0000_0000 * (w[102] as u64)
            + 0x1_0000_0000_0000 * (w[103] as u64)
    } else {
        w[60] as u64 + 0x1_0000 * (w[61] as u64)
    };
    let (model, model_len): ([u8; 40], usize) = decode_model(w);
    let (serial, serial_len): ([u8; 20], usize) = decode_serial(w);
    Probe::Ata(
        DiskInfo {
            cmd: ch.cmd,
            drive,
            lba48,
            sectors,
            model,
            model_len,
            serial,
            serial_len,
            mdma_modes: w[63],
            udma_modes: w[88],
        },
    )
}

/// The drives among what was found, in order.
pub open spec fn drives_in(p: Seq<Probe>) -> Seq<DiskInfo>
    decreases p.len(),
{
    if p.len() == 0 {
        Seq::empty()
    } else {
        match p.last() {
            Probe::Ata(d) => drives_in(p.drop_last()).push(d),
            _ => drives_in(p.drop_last()),
        }
    }
}

/// How many packet drives were found.
pub open spec fn packet_drives_in(p: Seq<Probe>) -> int
    decreases p.len(),
{
    if p.len() == 0 {
        0
    } else {
        packet_drives_in(p.drop_last()) + if p.last() is Atapi {
            1int
        } else {
            0int
        }
    }
}

/// Collects the drives that were found, place by place: the two on the primary
/// channel, then the two on the secondary. Returns how many packet drives were
/// left out.
pub fn detect(probes: &Vec<Probe>, out: &mut Vec<DiskInfo>) -> (atapi: usize)
    ensures
        final(out)@ == old(out)@ + drives_in(probes@),
        atapi == packet_drives_in(probes@),
{
    let mut atapi: usize = 0;
    let mut i: usize = 0;
    assert(probes@.take(0) =~= Seq::empty());
    assert(old(out)@ + drives_in(probes@.take(0)) =~= old(out)@);
    while i < probes.len()
        invariant
            i <= probes@.len(),
            out@ == old(out)@ + drives_in(probes@.take(i as int)),
            atapi == packet_drives_in(probes@.take(i as int)),
            atapi <= i,
        decreases probes@.len() - i,
    {
        proof {
            assert(probes@.take(i + 1).drop_last() =~= probes@.take(i as int));
            assert(probes@.take(i + 1).last() == probes@[i as int]);
        }
        match &probes[i] {
            Probe::Ata(d) => {
                out.push(*d);
            },
            Probe::Atapi => {
                atapi = atapi + 1;
            },
            Probe::Absent => {},
        }
        i += 1;
        assert(out@ =~= old(out)@ + drives_in(probes@.take(i as int)));
    }
    assert(probes@.take(i as int) =~= probes@);
    atapi
}

} // verus!
