use crate::compress::{
    deflate_gzip, deflate_zlib, gzip_deflated, gzip_inflated, inflate_gzip, inflate_zlib,
    zlib_deflated, zlib_inflated,
};
use crate::error::Error;
use vstd::prelude::*;

verus! {

/// Bytes in a sector, the unit of allocation of a region file.
pub const SECTOR_BYTES: usize = 4096;

/// Chunks along each side of a region.
pub const REGION_WIDTH: usize = 32;

/// Entries in each of the two header tables.
pub const ENTRIES: usize = 1024;

/// Bytes of the header: the location table and the timestamp table.
pub const HEADER_BYTES: usize = 8192;

/// Compression byte of a gzip stream.
pub const SCHEME_GZIP: u8 = 1;

/// Compression byte of a zlib stream.
pub const SCHEME_ZLIB: u8 = 2;

/// Compression byte of a payload stored as it is.
pub const SCHEME_RAW: u8 = 3;

/// Compression byte of an LZ4 frame.
pub const SCHEME_LZ4: u8 = 4;

/// Header entry of the chunk at `(x, z)` within the region.
pub open spec fn entry_index(x: nat, z: nat) -> nat {
    z * 32 + x
}

/// Sector offset of entry `k`: 24 bits, big-endian.
pub open spec fn entry_offset(s: Seq<u8>, k: nat) -> nat {
    let p = 4 * k as int;
    s[p] as nat * 65536 + s[p + 1] as nat * 256 + s[p + 2] as nat
}

/// Sector count of entry `k`.
pub open spec fn entry_sectors(s: Seq<u8>, k: nat) -> nat {
    s[4 * k as int + 3] as nat
}

/// Entry `k` is present unless all four of its bytes are zero.
pub open spec fn entry_present(s: Seq<u8>, k: nat) -> bool {
    entry_offset(s, k) != 0 || entry_sectors(s, k) != 0
}

/// A present entry lies after the header and within the file.
pub open spec fn entry_in_bounds(s: Seq<u8>, k: nat) -> bool {
    entry_present(s, k) ==> {
        &&& entry_offset(s, k) >= 2
        &&& entry_sectors(s, k) >= 1
        &&& (entry_offset(s, k) + entry_sectors(s, k)) * 4096 <= s.len()
    }
}

/// The sector ranges of two entries do not meet.
pub open spec fn entries_disjoint(s: Seq<u8>, k1: nat, k2: nat) -> bool {
    entry_present(s, k1) && entry_present(s, k2) ==> {
        ||| entry_offset(s, k1) + entry_sectors(s, k1) <= entry_offset(s, k2)
        ||| entry_offset(s, k2) + entry_sectors(s, k2) <= entry_offset(s, k1)
    }
}

/// Entry `k` claims sector `sector`.
pub open spec fn entry_covers(s: Seq<u8>, k: nat, sector: int) -> bool {
    &&& entry_present(s, k)
    &&& entry_offset(s, k) <= sector < entry_offset(s, k) + entry_sectors(s, k)
}

/// A region image whose header is consistent: whole sectors, room for the
/// header, every entry within the file, and no two chunks sharing a sector.
#[verifier::opaque]
pub open spec fn header_valid(s: Seq<u8>) -> bool {
    &&& s.len() >= 8192
    &&& s.len() % 4096 == 0
    &&& forall|k: nat| k < 1024 ==> #[trigger] entry_in_bounds(s, k)
    &&& forall|k1: nat, k2: nat|
        k1 < 1024 && k2 < 1024 && k1 != k2 ==> #[trigger] entries_disjoint(s, k1, k2)
}

/// A file image as a region holds it: an empty file becomes an empty header,
/// and a partial last sector is filled with zeros.
pub open spec fn padded_image(s: Seq<u8>) -> Seq<u8> {
    if s.len() == 0 {
        Seq::new(8192, |i: int| 0u8)
    } else if s.len() % 4096 == 0 {
        s
    } else {
        s + Seq::new((4096 - s.len() % 4096) as nat, |i: int| 0u8)
    }
}

/// Big-endian unsigned 32-bit value of the four bytes at `p`.
pub open spec fn be_u32_at(s: Seq<u8>, p: int) -> nat {
    s[p] as nat * 16777216 + s[p + 1] as nat * 65536 + s[p + 2] as nat * 256 + s[p + 3] as nat
}

/// The compression byte and the stored bytes of the chunk at entry `k`. The
/// stored length must leave room for the compression byte and fit the
/// sectors that the entry claims.
pub open spec fn raw_chunk(s: Seq<u8>, k: nat) -> Result<(u8, Seq<u8>), Error> {
    if !entry_present(s, k) {
        Err(Error::ChunkNotPresent)
    } else {
        let start = (entry_offset(s, k) * 4096) as int;
        if start + 5 > s.len() {
            Err(Error::UnexpectedEof)
        } else {
            let n = be_u32_at(s, start) as int;
            if n < 1 || n + 4 > entry_sectors(s, k) * 4096 {
                Err(Error::CorruptRegionHeader)
            } else if start + 4 + n > s.len() {
                Err(Error::UnexpectedEof)
            } else {
                Ok((s[start + 4], s.subrange(start + 5, start + 4 + n)))
            }
        }
    }
}

/// A region file held in memory, with the map of sectors in use.
pub struct Region {
    /// The whole file: header, then chunk sectors.
    data: Vec<u8>,
    /// For each sector, whether the header or a chunk claims it.
    used: Vec<bool>,
}

impl Region {
    /// The bytes of the region file.
    pub closed spec fn image(&self) -> Seq<u8> {
        self.data@
    }

    /// For each sector, whether the header or a chunk claims it.
    pub closed spec fn sector_map(&self) -> Seq<bool> {
        self.used@
    }

    /// The bytes of the region file.
    pub fn data(&self) -> (r: &Vec<u8>)
        ensures
            r@ == self.image(),
    {
        &self.data
    }

    /// The image is consistent and the sector map covers every claimed sector.
    pub closed spec fn wf(&self) -> bool {
        &&& header_valid(self.image())
        &&& self.sector_map().len() * 4096 == self.image().len()
        &&& self.sector_map()[0]
        &&& self.sector_map()[1]
        &&& map_covers(self.image(), self.sector_map())
    }
}

/// What a consistent header gives about one entry.
pub proof fn lemma_header_entry(s: Seq<u8>, k: nat)
    requires
        header_valid(s),
        k < 1024,
    ensures
        s.len() >= 8192,
        s.len() % 4096 == 0,
        entry_in_bounds(s, k),
{
    reveal(header_valid);
}

/// Reads the sector offset and sector count of header entry `k`.
fn read_entry(data: &Vec<u8>, k: usize) -> (r: (usize, usize))
    requires
        k < 1024,
        data@.len() >= 4096,
    ensures
        r.0 as nat == entry_offset(data@, k as nat),
        r.1 as nat == entry_sectors(data@, k as nat),
        r.0 < 16777216,
        r.1 < 256,
{
    let p = 4 * k;
    let off = (data[p] as usize) * 65536 + (data[p + 1] as usize) * 256 + (data[p + 2] as usize);
    (off, data[p + 3] as usize)
}

/// The sector map with sectors `off .. off + n` marked as used.
pub open spec fn claimed(used: Seq<bool>, off: int, n: int) -> Seq<bool> {
    Seq::new(used.len(), |t: int| used[t] || (off <= t < off + n))
}

/// Marks the sectors `off .. off + n` as used, unless one of them already is;
/// tells whether it did.
fn claim_range(used: &mut Vec<bool>, off: usize, n: usize) -> (ok: bool)
    requires
        off + n <= old(used)@.len(),
        off + n <= usize::MAX,
    ensures
        final(used)@.len() == old(used)@.len(),
        ok <==> forall|t: int| off <= t < off + n ==> !old(used)@[t],
        ok ==> final(used)@ == claimed(old(used)@, off as int, n as int),
{
    let mut i: usize = off;
    while i < off + n
        invariant
            off <= i <= off + n,
            off + n <= used@.len(),
            forall|t: int| off <= t < i ==> !used@[t],
            used@ == old(used)@,
            off + n <= usize::MAX,
        decreases off + n - i,
    {
        if used[i] {
            return false;
        }
        i = i + 1;
    }
    let ghost start = used@;
    let mut i: usize = off;
    assert(used@ =~= claimed(start, off as int, 0));
    while i < off + n
        invariant
            off <= i <= off + n,
            used@.len() == start.len(),
            start == old(used)@,
            off + n <= used@.len(),
            off + n <= usize::MAX,
            used@ == claimed(start, off as int, i - off),
        decreases off + n - i,
    {
        used.set(i, true);
        i = i + 1;
        assert(used@ =~= claimed(start, off as int, i - off));
    }
    true
}

/// Reads the big-endian unsigned 32-bit value at `p`.
fn read_be_u32(data: &Vec<u8>, p: usize) -> (r: u32)
    requires
        p + 4 <= data@.len(),
        p + 4 <= usize::MAX,
    ensures
        r as nat == be_u32_at(data@, p as int),
{
    (data[p] as u32) * 16777216 + (data[p + 1] as u32) * 65536 + (data[p + 2] as u32) * 256 + (
    data[p + 3] as u32)
}

impl Region {
    /// Opens a region from the bytes of its file. An empty file stands for a
    /// region without chunks; a partial last sector is filled with zeros.
    /// Fails when the header is inconsistent: a file too short for the
    /// header, an entry outside the file or over the header, or two chunks
    /// that share a sector.
    pub fn from_bytes(bytes: Vec<u8>) -> (r: Result<Region, Error>)
        ensures
            r is Ok <==> header_valid(padded_image(bytes@)),
            r matches Ok(region) ==> region.wf() && region.image() == padded_image(bytes@),
            r matches Err(e) ==> (e is CorruptRegionHeader || e is SectorOverlap),
    {
        let ghost orig = bytes@;
        let mut data = bytes;
        if data.len() == 0 {
            let mut i: usize = 0;
            while i < HEADER_BYTES
                invariant
                    i <= 8192,
                    data@ == Seq::new(i as nat, |j: int| 0u8),
                decreases 8192 - i,
            {
                data.push(0u8);
                i = i + 1;
                assert(data@ =~= Seq::new(i as nat, |j: int| 0u8));
            }
            assert(data@ =~= padded_image(orig));
        } else if data.len() % SECTOR_BYTES != 0 {
            let pad = SECTOR_BYTES - data.len() % SECTOR_BYTES;
            let mut i: usize = 0;
            while i < pad
                invariant
                    i <= pad,
                    pad == 4096 - orig.len() % 4096,
                    data@ == orig + Seq::new(i as nat, |j: int| 0u8),
                decreases pad - i,
            {
                data.push(0u8);
                i = i + 1;
                assert(data@ =~= orig + Seq::new(i as nat, |j: int| 0u8));
            }
        }
        assert(data@ == padded_image(orig));
        if data.len() < HEADER_BYTES || data.len() % SECTOR_BYTES != 0 {
            proof {
                reveal(header_valid);
            }
            return Err(Error::CorruptRegionHeader);
        }
        let nsec = data.len() / SECTOR_BYTES;
        let mut used: Vec<bool> = Vec::new();
        let mut i: usize = 0;
        while i < nsec
            invariant
                i <= nsec,
                used@.len() == i,
                forall|j: int| 0 <= j < i ==> used@[j] == (j < 2),
            decreases nsec - i,
        {
            used.push(i < 2);
            i = i + 1;
        }
        let ghost s = data@;
        let mut k: usize = 0;
        while k < ENTRIES
            invariant
                s == data@,
                s == padded_image(orig),
                orig == bytes@,
                s.len() == nsec * 4096,
                nsec >= 2,
                k <= 1024,
                used@.len() == nsec,
                forall|j: nat| j < k ==> #[trigger] entry_in_bounds(s, j),
                forall|j1: nat, j2: nat|
                    j1 < k && j2 < k && j1 != j2 ==> #[trigger] entries_disjoint(s, j1, j2),
                forall|sec: int|
                    0 <= sec < nsec ==> (#[trigger] used@[sec] <==> (sec < 2 || exists|j: nat|
                        j < k && #[trigger] entry_covers(s, j, sec))),
            decreases 1024 - k,
        {
            let (off, n) = read_entry(&data, k);
            if off != 0 || n != 0 {
                if off < 2 || n < 1 || off + n > nsec {
                    if off + n > nsec {
                        assert((off + n) * 4096 > nsec * 4096) by (nonlinear_arith)
                            requires
                                off + n > nsec,
                        ;
                    }
                    assert(!entry_in_bounds(s, k as nat));
                    proof {
                        reveal(header_valid);
                    }
                    return Err(Error::CorruptRegionHeader);
                }
                let ghost before = used@;
                if !claim_range(&mut used, off, n) {
                    let ghost t = choose|t: int| off <= t < off + n && before[t];
                    let ghost j = choose|j: nat| j < k && #[trigger] entry_covers(s, j, t);
                    assert(entry_covers(s, k as nat, t));
                    assert(!entries_disjoint(s, j, k as nat));
                    proof {
                        reveal(header_valid);
                    }
                    return Err(Error::SectorOverlap);
                }
                assert forall|t: int, j: nat|
                    off <= t < off + n && j < k implies !#[trigger] entry_covers(s, j, t) by {
                    assert(!before[t]);
                }
                assert forall|j: nat| j < k implies #[trigger] entries_disjoint(s, j, k as nat)
                    && entries_disjoint(s, k as nat, j) by {
                    assert(entry_in_bounds(s, j));
                    if entry_present(s, j) && !entries_disjoint(s, j, k as nat) {
                        let m: int = if entry_offset(s, j) > off as nat {
                            entry_offset(s, j) as int
                        } else {
                            off as int
                        };
                        assert(entry_covers(s, j, m));
                    }
                }
            }
            assert forall|j1: nat, j2: nat|
                j1 < k + 1 && j2 < k + 1 && j1 != j2 implies #[trigger] entries_disjoint(s, j1, j2) by {
                if j1 < k && j2 < k {
                } else if j1 == k {
                    assert(entries_disjoint(s, j2, j1));
                } else {
                    assert(entries_disjoint(s, j1, j2));
                }
            }
            assert forall|t: int|
                0 <= t < nsec implies (#[trigger] used@[t] <==> (t < 2 || exists|j: nat|
                    j < k + 1 && #[trigger] entry_covers(s, j, t))) by {
                if entry_covers(s, k as nat, t) {
                    assert(exists|j: nat| j < k + 1 && #[trigger] entry_covers(s, j, t));
                }
                if exists|j: nat| j < k + 1 && #[trigger] entry_covers(s, j, t) {
                    let j = choose|j: nat| j < k + 1 && #[trigger] entry_covers(s, j, t);
                    if j < k {
                        assert(exists|j: nat| j < k && #[trigger] entry_covers(s, j, t));
                    }
                }
            }
            k = k + 1;
        }
        let region = Region { data, used };
        proof {
            reveal(header_valid);
            reveal(map_covers);
        }
        assert forall|kk: nat, sector: int|
            kk < 1024 && #[trigger] entry_covers(region.image(), kk, sector) implies region.sector_map()[sector] by {
            assert(entry_in_bounds(s, kk));
            assert(sector < nsec) by (nonlinear_arith)
                requires
                    sector < entry_offset(s, kk) + entry_sectors(s, kk),
                    (entry_offset(s, kk) + entry_sectors(s, kk)) * 4096 <= nsec * 4096,
            ;
        }
        Ok(region)
    }
}

impl Region {
    /// The compression byte and the stored, still compressed, bytes of the
    /// chunk at `(x, z)` within the region.
    pub fn read_chunk_raw(&self, x: usize, z: usize) -> (r: Result<(u8, Vec<u8>), Error>)
        requires
            self.wf(),
            x < 32,
            z < 32,
        ensures
            match raw_chunk(self.image(), entry_index(x as nat, z as nat)) {
                Ok((b, p)) => r matches Ok((b2, v)) && b2 == b && v@ == p,
                Err(e) => r matches Err(e2) && e2 == e,
            },
    {
        let k = z * REGION_WIDTH + x;
        proof {
            lemma_header_entry(self.image(), k as nat);
        }
        let (off, n) = read_entry(&self.data, k);
        if off == 0 && n == 0 {
            return Err(Error::ChunkNotPresent);
        }
        let len = self.data.len();
        if off >= len / SECTOR_BYTES || len - off * SECTOR_BYTES < 5 {
            return Err(Error::UnexpectedEof);
        }
        let start = off * SECTOR_BYTES;
        assert(entry_in_bounds(self.image(), k as nat));
        let stored = read_be_u32(&self.data, start) as usize;
        if stored < 1 || stored > n * SECTOR_BYTES - 4 {
            return Err(Error::CorruptRegionHeader);
        }
        if stored > len - start - 4 {
            return Err(Error::UnexpectedEof);
        }
        let scheme = self.data[start + 4];
        let mut out: Vec<u8> = Vec::new();
        let end = start + 4 + stored;
        let mut i: usize = start + 5;
        while i < end
            invariant
                start + 5 <= i <= end <= self.image().len(),
                end == start + 4 + stored,
                out@ == self.image().subrange(start + 5, i as int),
            decreases end - i,
        {
            out.push(self.data[i]);
            i = i + 1;
            assert(out@ =~= self.image().subrange(start + 5, i as int));
        }
        Ok((scheme, out))
    }
}

/// Sectors that a stored payload of `len` bytes needs, with its length
/// field and compression byte.
pub open spec fn sectors_needed(len: nat) -> nat {
    ((len + 5 + 4095) / 4096) as nat
}

/// The bytes that a chunk occupies: its length field (payload plus the
/// compression byte), the compression byte, the payload, and zeros up to
/// the end of its last sector.
pub open spec fn chunk_frame(payload: Seq<u8>, scheme: u8, sectors: nat) -> Seq<u8> {
    let v = payload.len() + 1;
    Seq::new(
        sectors * 4096,
        |i: int|
            if i == 0 {
                (v / 16777216) as u8
            } else if i == 1 {
                ((v / 65536) % 256) as u8
            } else if i == 2 {
                ((v / 256) % 256) as u8
            } else if i == 3 {
                (v % 256) as u8
            } else if i == 4 {
                scheme
            } else if i - 5 < payload.len() {
                payload[i - 5]
            } else {
                0u8
            },
    )
}

/// `a` and `b` have one length and agree outside `lo .. hi`.
pub open spec fn agree_outside(a: Seq<u8>, b: Seq<u8>, lo: int, hi: int) -> bool {
    &&& a.len() == b.len()
    &&& forall|i: int| 0 <= i < a.len() && !(lo <= i < hi) ==> a[i] == b[i]
}

/// Writes the frame of a chunk at byte `start`.
fn write_frame(data: &mut Vec<u8>, start: usize, payload: &[u8], scheme: u8, sectors: usize)
    requires
        start + sectors * 4096 <= old(data)@.len(),
        payload@.len() + 5 <= sectors * 4096,
        sectors <= 255,
    ensures
        agree_outside(final(data)@, old(data)@, start as int, start + sectors * 4096),
        final(data)@.subrange(start as int, start + sectors * 4096) == chunk_frame(
            payload@,
            scheme,
            sectors as nat,
        ),
{
    let v = (payload.len() + 1) as u32;
    let total = sectors * SECTOR_BYTES;
    let ghost frame = chunk_frame(payload@, scheme, sectors as nat);
    let ghost before = data@;
    let n = data.len();
    let mut i: usize = 0;
    while i < total
        invariant
            i <= total,
            data@.len() == n,
            total == sectors * 4096,
            start + total <= data@.len(),
            v == payload@.len() + 1,
            frame == chunk_frame(payload@, scheme, sectors as nat),
            agree_outside(data@, before, start as int, start + total),
            forall|j: int| 0 <= j < i ==> data@[start + j] == frame[j],
        decreases total - i,
    {
        let b: u8 = if i == 0 {
            (v / 16777216) as u8
        } else if i == 1 {
            ((v / 65536) % 256) as u8
        } else if i == 2 {
            ((v / 256) % 256) as u8
        } else if i == 3 {
            (v % 256) as u8
        } else if i == 4 {
            scheme
        } else if i - 5 < payload.len() {
            payload[i - 5]
        } else {
            0u8
        };
        data.set(start + i, b);
        i = i + 1;
    }
    assert(data@.subrange(start as int, start + total) =~= frame);
}

/// Writes the sector offset and count of header entry `k`.
fn write_entry(data: &mut Vec<u8>, k: usize, off: usize, sectors: usize)
    requires
        k < 1024,
        old(data)@.len() >= 8192,
        off < 16777216,
        sectors < 256,
    ensures
        agree_outside(final(data)@, old(data)@, 4 * k as int, 4 * k + 4),
        entry_offset(final(data)@, k as nat) == off,
        entry_sectors(final(data)@, k as nat) == sectors,
{
    let p = 4 * k;
    data.set(p, (off / 65536) as u8);
    data.set(p + 1, ((off / 256) % 256) as u8);
    data.set(p + 2, (off % 256) as u8);
    data.set(p + 3, sectors as u8);
    assert(((off / 65536) as u8) as nat * 65536 + (((off / 256) % 256) as u8) as nat * 256 + ((
    off % 256) as u8) as nat == off as nat) by (nonlinear_arith)
        requires
            off < 16777216,
    ;
}

/// Big-endian timestamp of entry `k`, in the second table of the header.
pub open spec fn entry_timestamp(s: Seq<u8>, k: nat) -> nat {
    be_u32_at(s, 4096 + 4 * k as int)
}

/// Writes the timestamp of header entry `k`.
fn write_timestamp(data: &mut Vec<u8>, k: usize, t: u32)
    requires
        k < 1024,
        old(data)@.len() >= 8192,
    ensures
        agree_outside(final(data)@, old(data)@, 4096 + 4 * k, 4096 + 4 * k + 4),
        entry_timestamp(final(data)@, k as nat) == t,
{
    let p = 4096 + 4 * k;
    data.set(p, (t / 16777216) as u8);
    data.set(p + 1, ((t / 65536) % 256) as u8);
    data.set(p + 2, ((t / 256) % 256) as u8);
    data.set(p + 3, (t % 256) as u8);
    assert(((t / 16777216) as u8) as nat * 16777216 + (((t / 65536) % 256) as u8) as nat * 65536
        + (((t / 256) % 256) as u8) as nat * 256 + ((t % 256) as u8) as nat == t as nat)
        by (nonlinear_arith);
}

/// Sector `t` may take a new chunk: no chunk claims it, or the chunk being
/// replaced does.
pub open spec fn sector_free(used: Seq<bool>, old_off: int, old_n: int, t: int) -> bool {
    !used[t] || (old_off <= t < old_off + old_n)
}

/// The `f` sectors from `start` on are all free.
pub open spec fn run_free(used: Seq<bool>, old_off: int, old_n: int, start: int, f: int) -> bool {
    forall|t: int| start <= t < start + f ==> #[trigger] sector_free(used, old_off, old_n, t)
}

/// The first run of `f` free sectors after the header, if there is one.
fn first_fit(used: &Vec<bool>, old_off: usize, old_n: usize, f: usize) -> (r: Option<usize>)
    requires
        f >= 1,
    ensures
        r matches Some(start) ==> 2 <= start && start + f <= used@.len() && run_free(
            used@,
            old_off as int,
            old_n as int,
            start as int,
            f as int,
        ) && forall|s2: int|
            2 <= s2 < start ==> !run_free(used@, old_off as int, old_n as int, s2, f as int),
{
    let n = used.len();
    let mut start: usize = 2;
    while start < n && f <= n - start
        invariant
            2 <= start,
            n == used@.len(),
            f >= 1,
            forall|s2: int|
                2 <= s2 < start ==> !run_free(used@, old_off as int, old_n as int, s2, f as int),
        decreases n - start,
    {
        let mut t: usize = start;
        let mut ok = true;
        while ok && t < start + f
            invariant
                start <= t <= start + f <= n,
                n == used@.len(),
                forall|u: int|
                    start <= u < t ==> #[trigger] sector_free(used@, old_off as int, old_n as int, u),
                !ok ==> t < start + f && !sector_free(used@, old_off as int, old_n as int, t as int),
            decreases start + f - t + (if ok {
                1int
            } else {
                0int
            }),
        {
            if used[t] && !(old_off <= t && t - old_off < old_n) {
                ok = false;
            } else {
                t = t + 1;
            }
        }
        if ok {
            return Some(start);
        }
        assert(!sector_free(used@, old_off as int, old_n as int, t as int));
        start = start + 1;
    }
    None
}

/// Two images agree on the header entry of `k` and on the sectors it claims,
/// so they hold the same chunk there.
pub proof fn lemma_raw_chunk_local(a: Seq<u8>, b: Seq<u8>, k: nat)
    requires
        k < 1024,
        a.len() >= 8192,
        b.len() >= 8192,
        entry_in_bounds(a, k),
        forall|i: int| 4 * k <= i < 4 * k + 4 ==> a[i] == b[i],
        entry_present(a, k) ==> (entry_offset(a, k) + entry_sectors(a, k)) * 4096 <= b.len(),
        entry_present(a, k) ==> forall|i: int|
            entry_offset(a, k) * 4096 <= i < (entry_offset(a, k) + entry_sectors(a, k)) * 4096
                ==> a[i] == b[i],
    ensures
        raw_chunk(a, k) == raw_chunk(b, k),
{
    let p = 4 * k as int;
    assert(a[p] == b[p] && a[p + 1] == b[p + 1] && a[p + 2] == b[p + 2] && a[p + 3] == b[p + 3]);
    if entry_present(a, k) {
        let start = (entry_offset(a, k) * 4096) as int;
        let end = ((entry_offset(a, k) + entry_sectors(a, k)) * 4096) as int;
        assert(start + 4096 <= end) by (nonlinear_arith)
            requires
                start == entry_offset(a, k) * 4096,
                end == (entry_offset(a, k) + entry_sectors(a, k)) * 4096,
                entry_sectors(a, k) >= 1,
        ;
        assert(a[start] == b[start] && a[start + 1] == b[start + 1] && a[start + 2] == b[start
            + 2] && a[start + 3] == b[start + 3] && a[start + 4] == b[start + 4]);
        let n = be_u32_at(a, start) as int;
        if n >= 1 && n + 4 <= entry_sectors(a, k) * 4096 {
            assert(start + 4 + n <= end) by (nonlinear_arith)
                requires
                    start == entry_offset(a, k) * 4096,
                    end == (entry_offset(a, k) + entry_sectors(a, k)) * 4096,
                    n + 4 <= entry_sectors(a, k) * 4096,
            ;
            assert(a.subrange(start + 5, start + 4 + n) =~= b.subrange(start + 5, start + 4 + n));
        }
    }
}

/// Every sector that a chunk of `s` claims is marked in `used`.
#[verifier::opaque]
pub open spec fn map_covers(s: Seq<u8>, used: Seq<bool>) -> bool {
    forall|k: nat, sector: int| k < 1024 && #[trigger] entry_covers(s, k, sector) ==> used[sector]
}

/// A run of sectors that is free, or lies past the end of the map, meets
/// no chunk other than entry `k`.
pub proof fn lemma_free_run_disjoint(
    d0: Seq<u8>,
    u0: Seq<bool>,
    k: nat,
    ro: int,
    rn: int,
    off: int,
    f: int,
    j: nat,
)
    requires
        header_valid(d0),
        map_covers(d0, u0),
        u0.len() * 4096 == d0.len(),
        k < 1024,
        j < 1024,
        j != k,
        f >= 1,
        rn > 0 ==> entry_present(d0, k) && ro == entry_offset(d0, k) && rn == entry_sectors(d0, k),
        rn >= 0,
        forall|t: int| off <= t < off + f ==> t >= u0.len() || #[trigger] sector_free(u0, ro, rn, t),
        entry_present(d0, j),
    ensures
        entry_offset(d0, j) + entry_sectors(d0, j) <= off || off + f <= entry_offset(d0, j),
{
    reveal(header_valid);
    reveal(map_covers);
    let oj = entry_offset(d0, j) as int;
    let nj = entry_sectors(d0, j) as int;
    assert(entry_in_bounds(d0, j));
    if !(oj + nj <= off || off + f <= oj) {
        let m = if oj > off {
            oj
        } else {
            off
        };
        assert(entry_covers(d0, j, m));
        assert(m < u0.len()) by (nonlinear_arith)
            requires
                m < oj + nj,
                (oj + nj) * 4096 <= d0.len(),
                u0.len() * 4096 == d0.len(),
        ;
        assert(u0[m]);
        assert(sector_free(u0, ro, rn, m));
        assert(entry_covers(d0, k, m));
        assert(entries_disjoint(d0, j, k));
    }
}

/// `d4` holds `d0` (grown with zeros) where a write of entry `k` did not
/// touch it: outside the new chunk's sectors, its header entry and its
/// timestamp.
pub open spec fn written_over(d0: Seq<u8>, d4: Seq<u8>, k: nat, off: int, f: int) -> bool {
    &&& d4.len() >= d0.len()
    &&& forall|i: int|
        0 <= i < d0.len() && !(off * 4096 <= i < (off + f) * 4096) && !(4 * k <= i < 4 * k + 4)
            && !(4096 + 4 * k <= i < 4096 + 4 * k + 4) ==> #[trigger] d4[i] == d0[i]
}

/// The frame written at sector `off` reads back as the chunk of entry `k`.
pub proof fn lemma_new_chunk(d4: Seq<u8>, k: nat, off: int, f: int, payload: Seq<u8>, scheme: u8)
    requires
        k < 1024,
        2 <= off,
        1 <= f <= 255,
        payload.len() + 5 <= f * 4096,
        (off + f) * 4096 <= d4.len(),
        d4.subrange(off * 4096, (off + f) * 4096) == chunk_frame(payload, scheme, f as nat),
        entry_offset(d4, k) == off,
        entry_sectors(d4, k) == f,
    ensures
        raw_chunk(d4, k) == Ok::<(u8, Seq<u8>), Error>((scheme, payload)),
{
    let frame = chunk_frame(payload, scheme, f as nat);
    let start = off * 4096;
    assert forall|i: int| 0 <= i < f * 4096 implies d4[start + i] == frame[i] by {
        assert(d4.subrange(start, (off + f) * 4096)[i] == d4[start + i]);
    }
    let v = payload.len() + 1;
    assert(d4[start] == frame[0]);
    assert(d4[start + 1] == frame[1]);
    assert(d4[start + 2] == frame[2]);
    assert(d4[start + 3] == frame[3]);
    assert(d4[start + 4] == frame[4]);
    assert(be_u32_at(d4, start) == v) by (nonlinear_arith)
        requires
            d4[start] == (v / 16777216) as u8,
            d4[start + 1] == ((v / 65536) % 256) as u8,
            d4[start + 2] == ((v / 256) % 256) as u8,
            d4[start + 3] == (v % 256) as u8,
            v < 255 * 4096,
            be_u32_at(d4, start) == d4[start] as nat * 16777216 + d4[start + 1] as nat * 65536
                + d4[start + 2] as nat * 256 + d4[start + 3] as nat,
    ;
    assert forall|i: int| 0 <= i < payload.len() implies d4.subrange(start + 5, start + 4 + v)[i]
        == payload[i] by {
        assert(d4[start + 5 + i] == frame[5 + i]);
    }
    assert(d4.subrange(start + 5, start + 4 + v) =~= payload);
}

/// A write that stays clear of the sectors of entry `k2` leaves its chunk
/// as it was.
pub proof fn lemma_other_chunk(d0: Seq<u8>, d4: Seq<u8>, k: nat, off: int, f: int, k2: nat)
    requires
        header_valid(d0),
        k < 1024,
        k2 < 1024,
        k2 != k,
        2 <= off,
        written_over(d0, d4, k, off, f),
        entry_present(d0, k2) ==> entry_offset(d0, k2) + entry_sectors(d0, k2) <= off || off + f
            <= entry_offset(d0, k2),
    ensures
        raw_chunk(d4, k2) == raw_chunk(d0, k2),
{
    reveal(header_valid);
    reveal(map_covers);
    assert(entry_in_bounds(d0, k2));
    if entry_present(d0, k2) {
        let o2 = entry_offset(d0, k2) as int;
        let n2 = entry_sectors(d0, k2) as int;
        assert forall|i: int| o2 * 4096 <= i < (o2 + n2) * 4096 implies d0[i] == d4[i] by {
            assert(o2 * 4096 >= 8192) by (nonlinear_arith)
                requires
                    o2 >= 2,
            ;
            assert(!(off * 4096 <= i < (off + f) * 4096)) by (nonlinear_arith)
                requires
                    o2 * 4096 <= i < (o2 + n2) * 4096,
                    o2 + n2 <= off || off + f <= o2,
            ;
        }
    }
    assert forall|i: int| 4 * k2 <= i < 4 * k2 + 4 implies d0[i] == d4[i] by {}
    lemma_raw_chunk_local(d0, d4, k2);
}

/// The requirements that every part of a write's outcome shares.
pub open spec fn write_setup(
    d0: Seq<u8>,
    u0: Seq<bool>,
    d4: Seq<u8>,
    k: nat,
    ro: int,
    rn: int,
    off: int,
    f: int,
) -> bool {
    &&& header_valid(d0)
    &&& map_covers(d0, u0)
    &&& u0.len() * 4096 == d0.len()
    &&& k < 1024
    &&& rn > 0 ==> entry_present(d0, k) && ro == entry_offset(d0, k) && rn == entry_sectors(d0, k)
    &&& entry_present(d0, k) ==> rn > 0
    &&& rn >= 0
    &&& 2 <= off
    &&& 1 <= f <= 255
    &&& forall|t: int| off <= t < off + f ==> t >= u0.len() || #[trigger] sector_free(u0, ro, rn, t)
    &&& d4.len() % 4096 == 0
    &&& (off + f) * 4096 <= d4.len()
    &&& written_over(d0, d4, k, off, f)
    &&& entry_offset(d4, k) == off
    &&& entry_sectors(d4, k) == f
}

/// Entries other than `k` read the same before and after a write.
proof fn lemma_entries_kept(d0: Seq<u8>, d4: Seq<u8>, k: nat, off: int, f: int, j: nat)
    requires
        k < 1024,
        j < 1024,
        j != k,
        2 <= off,
        written_over(d0, d4, k, off, f),
        d0.len() >= 8192,
    ensures
        entry_offset(d4, j) == entry_offset(d0, j),
        entry_sectors(d4, j) == entry_sectors(d0, j),
{
    assert(off * 4096 >= 8192) by (nonlinear_arith)
        requires
            off >= 2,
    ;
    let p = 4 * j as int;
    assert(d4[p] == d0[p]);
    assert(d4[p + 1] == d0[p + 1]);
    assert(d4[p + 2] == d0[p + 2]);
    assert(d4[p + 3] == d0[p + 3]);
}

/// After a write the header is consistent.
proof fn lemma_header_after(
    d0: Seq<u8>,
    u0: Seq<bool>,
    d4: Seq<u8>,
    k: nat,
    ro: int,
    rn: int,
    off: int,
    f: int,
)
    requires
        write_setup(d0, u0, d4, k, ro, rn, off, f),
    ensures
        header_valid(d4),
{
    reveal(header_valid);
    reveal(map_covers);
    assert forall|j: nat| j < 1024 implies #[trigger] entry_in_bounds(d4, j) by {
        assert(entry_in_bounds(d0, j));
        if j != k {
            lemma_entries_kept(d0, d4, k, off, f, j);
        }
    }
    assert forall|j1: nat, j2: nat|
        j1 < 1024 && j2 < 1024 && j1 != j2 implies #[trigger] entries_disjoint(d4, j1, j2) by {
        if j1 == k {
            lemma_entries_kept(d0, d4, k, off, f, j2);
            if entry_present(d0, j2) {
                lemma_free_run_disjoint(d0, u0, k, ro, rn, off, f, j2);
            }
        } else if j2 == k {
            lemma_entries_kept(d0, d4, k, off, f, j1);
            if entry_present(d0, j1) {
                lemma_free_run_disjoint(d0, u0, k, ro, rn, off, f, j1);
            }
        } else {
            lemma_entries_kept(d0, d4, k, off, f, j1);
            lemma_entries_kept(d0, d4, k, off, f, j2);
            assert(entries_disjoint(d0, j1, j2));
        }
    }
}

/// After a write the sector map covers every chunk, and the header.
proof fn lemma_map_after(
    d0: Seq<u8>,
    u0: Seq<bool>,
    d4: Seq<u8>,
    u4: Seq<bool>,
    k: nat,
    ro: int,
    rn: int,
    off: int,
    f: int,
)
    requires
        write_setup(d0, u0, d4, k, ro, rn, off, f),
        header_valid(d4),
        u0[0],
        u0[1],
        u4.len() * 4096 == d4.len(),
        forall|t: int|
            0 <= t < u4.len() ==> #[trigger] u4[t] == (if off <= t < off + f {
                true
            } else if ro <= t < ro + rn {
                false
            } else if t < u0.len() {
                u0[t]
            } else {
                false
            }),
    ensures
        map_covers(d4, u4),
        u4[0],
        u4[1],
{
    reveal(header_valid);
    reveal(map_covers);
    assert(entry_in_bounds(d0, k));
    assert(u4[0] && u4[1]);
    assert forall|j: nat, t: int| j < 1024 && #[trigger] entry_covers(d4, j, t) implies u4[t] by {
        assert(entry_in_bounds(d4, j));
        assert(t < u4.len()) by (nonlinear_arith)
            requires
                t < entry_offset(d4, j) + entry_sectors(d4, j),
                (entry_offset(d4, j) + entry_sectors(d4, j)) * 4096 <= d4.len(),
                u4.len() * 4096 == d4.len(),
        ;
        if j != k {
            lemma_entries_kept(d0, d4, k, off, f, j);
            assert(entry_covers(d0, j, t));
            assert(u0[t]);
            assert(entry_in_bounds(d0, j));
            assert(t < u0.len()) by (nonlinear_arith)
                requires
                    t < entry_offset(d0, j) + entry_sectors(d0, j),
                    (entry_offset(d0, j) + entry_sectors(d0, j)) * 4096 <= d0.len(),
                    u0.len() * 4096 == d0.len(),
            ;
            if ro <= t < ro + rn {
                assert(entry_covers(d0, k, t));
                assert(entries_disjoint(d0, j, k));
            }
        }
    }
}

/// A write leaves every chunk but the one it wrote as it was.
proof fn lemma_others_after(
    d0: Seq<u8>,
    u0: Seq<bool>,
    d4: Seq<u8>,
    k: nat,
    ro: int,
    rn: int,
    off: int,
    f: int,
)
    requires
        write_setup(d0, u0, d4, k, ro, rn, off, f),
    ensures
        forall|k2: nat| k2 < 1024 && k2 != k ==> #[trigger] raw_chunk(d4, k2) == raw_chunk(d0, k2),
{
    assert forall|k2: nat| k2 < 1024 && k2 != k implies #[trigger] raw_chunk(d4, k2) == raw_chunk(
        d0,
        k2,
    ) by {
        if entry_present(d0, k2) {
            lemma_free_run_disjoint(d0, u0, k, ro, rn, off, f, k2);
        }
        lemma_other_chunk(d0, d4, k, off, f, k2);
    }
}

/// The four steps of a write (growing, the frame, the entry and the
/// timestamp) together leave the image written over as intended.
proof fn lemma_write_steps(
    d0: Seq<u8>,
    d1: Seq<u8>,
    d2: Seq<u8>,
    d3: Seq<u8>,
    d4: Seq<u8>,
    k: nat,
    off: int,
    f: int,
)
    requires
        k < 1024,
        off >= 2,
        d1.len() >= d0.len(),
        forall|i: int| 0 <= i < d0.len() ==> d1[i] == d0[i],
        (off + f) * 4096 <= d1.len(),
        agree_outside(d2, d1, off * 4096, (off + f) * 4096),
        agree_outside(d3, d2, 4 * k as int, 4 * k as int + 4),
        agree_outside(d4, d3, 4096 + 4 * k as int, 4096 + 4 * k as int + 4),
        entry_offset(d3, k) == off,
        entry_sectors(d3, k) == f,
    ensures
        written_over(d0, d4, k, off, f),
        d4.subrange(off * 4096, (off + f) * 4096) == d2.subrange(off * 4096, (off + f) * 4096),
        entry_offset(d4, k) == off,
        entry_sectors(d4, k) == f,
        d4.len() == d1.len(),
{
    assert(off * 4096 >= 8192) by (nonlinear_arith)
        requires
            off >= 2,
    ;
    assert forall|i: int|
        0 <= i < d0.len() && !(off * 4096 <= i < (off + f) * 4096) && !(4 * k <= i < 4 * k + 4)
            && !(4096 + 4 * k <= i < 4096 + 4 * k + 4) implies #[trigger] d4[i] == d0[i] by {
        assert(d1[i] == d0[i]);
    }
    assert(d4.subrange(off * 4096, (off + f) * 4096) =~= d2.subrange(off * 4096, (off + f) * 4096));
    let p = 4 * k as int;
    assert(d4[p] == d3[p] && d4[p + 1] == d3[p + 1] && d4[p + 2] == d3[p + 2] && d4[p + 3] == d3[p
        + 3]);
}

/// The sector map with sectors `off .. off + n` set to `val`.
pub open spec fn with_range(used: Seq<bool>, off: int, n: int, val: bool) -> Seq<bool> {
    Seq::new(used.len(), |t: int| if off <= t < off + n { val } else { used[t] })
}

/// Sets sectors `off .. off + n` of the map to `val`.
fn set_range(used: &mut Vec<bool>, off: usize, n: usize, val: bool)
    requires
        off + n <= old(used)@.len(),
    ensures
        final(used)@ == with_range(old(used)@, off as int, n as int, val),
{
    let ghost start = used@;
    let len = used.len();
    let mut i: usize = off;
    while i < off + n
        invariant
            off <= i <= off + n <= len,
            used@.len() == len,
            len == start.len(),
            forall|t: int| 0 <= t < len ==> used@[t] == (if off <= t < i { val } else { start[t] }),
        decreases off + n - i,
    {
        used.set(i, val);
        i = i + 1;
    }
    assert(used@ =~= with_range(start, off as int, n as int, val));
}

impl Region {
    /// Adds empty sectors at the end until the region has `nsec` of them.
    fn grow(&mut self, nsec: usize)
        requires
            old(self).sector_map().len() * 4096 == old(self).image().len(),
            old(self).sector_map().len() <= nsec,
            nsec * 4096 <= usize::MAX,
        ensures
            final(self).sector_map().len() == nsec,
            final(self).image().len() == nsec * 4096,
            forall|i: int| 0 <= i < old(self).image().len() ==> final(self).image()[i] == old(self).image()[i],
            forall|t: int| 0 <= t < old(self).sector_map().len() ==> final(self).sector_map()[t] == old(self).sector_map()[t],
            forall|t: int| old(self).sector_map().len() <= t < nsec ==> !final(self).sector_map()[t],
    {
        let ghost d0 = self.image();
        let ghost u0 = self.sector_map();
        while self.used.len() < nsec
            invariant
                self.sector_map().len() * 4096 == self.image().len(),
                self.sector_map().len() <= nsec,
                nsec * 4096 <= usize::MAX,
                u0.len() <= self.sector_map().len(),
                forall|i: int| 0 <= i < d0.len() ==> self.image()[i] == d0[i],
                d0.len() == u0.len() * 4096,
                forall|t: int| 0 <= t < u0.len() ==> self.sector_map()[t] == u0[t],
                forall|t: int| u0.len() <= t < self.sector_map().len() ==> !self.sector_map()[t],
            decreases nsec - self.sector_map().len(),
        {
            let mut i: usize = 0;
            let ghost before = self.image();
            let ghost ub = self.sector_map();
            while i < SECTOR_BYTES
                invariant
                    i <= 4096,
                    self.image().len() == before.len() + i,
                    self.sector_map() == ub,
                    ub.len() * 4096 == before.len(),
                    ub.len() < nsec,
                    nsec * 4096 <= usize::MAX,
                    forall|j: int| 0 <= j < before.len() ==> self.image()[j] == before[j],
                decreases 4096 - i,
            {
                self.data.push(0u8);
                i = i + 1;
            }
            self.used.push(false);
        }
    }

    /// Stores a chunk at `(x, z)`: its compression byte and its already
    /// compressed bytes, stamped with `timestamp`. A chunk keeps its place
    /// when it still fits there; otherwise it moves to the first run of free
    /// sectors after the header, or to the end of the file, and its old
    /// sectors are freed. Every other chunk stays as it was. Fails, leaving
    /// the region unchanged, on a payload too long for 255 sectors or when
    /// the sector offset would not fit in the header.
    pub fn write_chunk_raw(
        &mut self,
        x: usize,
        z: usize,
        scheme: u8,
        payload: &[u8],
        timestamp: u32,
    ) -> (r: Result<(), Error>)
        requires
            old(self).wf(),
            x < 32,
            z < 32,
        ensures
            r is Err ==> *final(self) == *old(self),
            payload@.len() + 5 <= 255 * 4096 && old(self).sector_map().len() + 255 < 16777216 && (old(self).sector_map().len() + 255) * 4096 <= usize::MAX ==> r is Ok,
            r is Ok ==> final(self).wf(),
            r is Ok ==> raw_chunk(final(self).image(), entry_index(x as nat, z as nat)) == Ok::<
                (u8, Seq<u8>),
                Error,
            >((scheme, payload@)),
            r is Ok ==> entry_timestamp(final(self).image(), entry_index(x as nat, z as nat))
                == timestamp,
            r is Ok ==> forall|k2: nat|
                k2 < 1024 && k2 != entry_index(x as nat, z as nat) ==> #[trigger] raw_chunk(
                    final(self).image(),
                    k2,
                ) == raw_chunk(old(self).image(), k2),
    {
        let k = z * REGION_WIDTH + x;
        if payload.len() > 255 * SECTOR_BYTES - 5 {
            return Err(Error::InvalidLength);
        }
        let f = (payload.len() + 5 + 4095) / SECTOR_BYTES;
        assert(payload@.len() + 5 <= f * 4096 && 1 <= f <= 255) by (nonlinear_arith)
            requires
                f == (payload@.len() + 5 + 4095) / 4096,
                payload@.len() + 5 <= 255 * 4096,
        ;
        match self.choose_place(k, f) {
            Ok((off, ro, rn)) => {
                self.place(k, off, f, ro, rn, payload, scheme, timestamp);
                Ok(())
            },
            Err(e) => Err(e),
        }
    }

    /// Where a chunk of `f` sectors for entry `k` goes: its own sectors when
    /// they suffice, else the first free run after the header, else the end
    /// of the file. Also gives the range that entry `k` holds now (empty when
    /// it holds none).
    fn choose_place(&self, k: usize, f: usize) -> (r: Result<(usize, usize, usize), Error>)
        requires
            self.wf(),
            k < 1024,
            1 <= f <= 255,
        ensures
            self.sector_map().len() + 255 < 16777216 && (self.sector_map().len() + 255) * 4096 <= usize::MAX
                ==> r is Ok,
            r matches Ok((off, ro, rn)) ==> {
                &&& 2 <= off < 16777216
                &&& (off + f) * 4096 <= usize::MAX
                &&& (off + f <= self.sector_map().len() || off == self.sector_map().len())
                &&& rn > 0 ==> entry_present(self.image(), k as nat) && ro == entry_offset(
                    self.image(),
                    k as nat,
                ) && rn == entry_sectors(self.image(), k as nat)
                &&& entry_present(self.image(), k as nat) ==> rn > 0
                &&& ro + rn <= self.sector_map().len()
                &&& forall|t: int|
                    off <= t < off + f ==> t >= self.sector_map().len() || #[trigger] sector_free(
                        self.sector_map(),
                        ro as int,
                        rn as int,
                        t,
                    )
            },
    {
        proof {
            lemma_header_entry(self.image(), k as nat);
        }
        let (old_off, old_n) = read_entry(&self.data, k);
        let present = old_off != 0 || old_n != 0;
        let ro = if present { old_off } else { 0 };
        let rn = if present { old_n } else { 0 };
        let nsec = self.used.len();
        let dlen = self.data.len();
        proof {
            if present {
                assert((old_off + old_n) * 4096 <= dlen);
                assert(old_off + old_n <= nsec) by (nonlinear_arith)
                    requires
                        (old_off + old_n) * 4096 <= dlen,
                        nsec * 4096 == dlen,
                ;
            }
        }
        let off = if present && old_n >= f {
            old_off
        } else {
            match first_fit(&self.used, ro, rn, f) {
                Some(start) => start,
                None => {
                    if nsec + f >= 16777216 || nsec + f > usize::MAX / SECTOR_BYTES {
                        return Err(Error::InvalidLength);
                    }
                    nsec
                },
            }
        };
        if off >= 16777216 {
            return Err(Error::InvalidLength);
        }
        assert((off + f) * 4096 <= usize::MAX) by (nonlinear_arith)
            requires
                off + f <= nsec || (off == nsec && nsec + f <= usize::MAX / 4096),
                nsec * 4096 == dlen,
        ;
        Ok((off, ro, rn))
    }

    /// Writes the chunk of entry `k` into the `f` sectors from `off` on.
    #[verifier::rlimit(100)]
    fn place(
        &mut self,
        k: usize,
        off: usize,
        f: usize,
        ro: usize,
        rn: usize,
        payload: &[u8],
        scheme: u8,
        timestamp: u32,
    )
        requires
            old(self).wf(),
            k < 1024,
            1 <= f <= 255,
            payload@.len() + 5 <= f * 4096,
            2 <= off < 16777216,
            (off + f) * 4096 <= usize::MAX,
            off + f <= old(self).sector_map().len() || off == old(self).sector_map().len(),
            rn > 0 ==> entry_present(old(self).image(), k as nat) && ro == entry_offset(
                old(self).image(),
                k as nat,
            ) && rn == entry_sectors(old(self).image(), k as nat),
            entry_present(old(self).image(), k as nat) ==> rn > 0,
            ro + rn <= old(self).sector_map().len(),
            forall|t: int|
                off <= t < off + f ==> t >= old(self).sector_map().len() || #[trigger] sector_free(
                    old(self).sector_map(),
                    ro as int,
                    rn as int,
                    t,
                ),
        ensures
            final(self).wf(),
            raw_chunk(final(self).image(), k as nat) == Ok::<(u8, Seq<u8>), Error>((scheme, payload@)),
            entry_timestamp(final(self).image(), k as nat) == timestamp,
            forall|k2: nat|
                k2 < 1024 && k2 != k ==> #[trigger] raw_chunk(final(self).image(), k2) == raw_chunk(
                    old(self).image(),
                    k2,
                ),
    {
        let ghost d0 = self.image();
        let ghost u0 = self.sector_map();
        proof {
            lemma_header_entry(d0, k as nat);
        }
        let nsec = self.used.len();
        if off + f > nsec {
            self.grow(off + f);
        }
        let ghost d1 = self.image();
        write_frame(&mut self.data, off * SECTOR_BYTES, payload, scheme, f);
        let ghost d2 = self.image();
        set_range(&mut self.used, ro, rn, false);
        set_range(&mut self.used, off, f, true);
        write_entry(&mut self.data, k, off, f);
        let ghost d3 = self.image();
        write_timestamp(&mut self.data, k, timestamp);
        proof {
            let d4 = self.image();
            let u4 = self.sector_map();
            lemma_write_steps(d0, d1, d2, d3, d4, k as nat, off as int, f as int);
            assert(write_setup(d0, u0, d4, k as nat, ro as int, rn as int, off as int, f as int));
            lemma_header_after(d0, u0, d4, k as nat, ro as int, rn as int, off as int, f as int);
            lemma_map_after(d0, u0, d4, u4, k as nat, ro as int, rn as int, off as int, f as int);
            lemma_others_after(d0, u0, d4, k as nat, ro as int, rn as int, off as int, f as int);
            lemma_new_chunk(d4, k as nat, off as int, f as int, payload@, scheme);
        }
    }
}

/// The bytes of a chunk once its stored bytes are decompressed by the scheme
/// that its compression byte names. An LZ4 frame, and a chunk kept in a file
/// of its own (the high bit of the byte), are left to the caller through
/// the raw read.
pub open spec fn decompressed(scheme: u8, stored: Seq<u8>) -> Result<Seq<u8>, Error> {
    if scheme == SCHEME_RAW {
        Ok(stored)
    } else if scheme == SCHEME_ZLIB {
        match zlib_inflated(stored) {
            Some(d) => Ok(d),
            None => Err(Error::CorruptCompressedData),
        }
    } else if scheme == SCHEME_GZIP {
        match gzip_inflated(stored) {
            Some(d) => Ok(d),
            None => Err(Error::CorruptCompressedData),
        }
    } else if scheme == SCHEME_LZ4 || scheme >= 128 {
        Err(Error::UnsupportedCompressionScheme(scheme))
    } else {
        Err(Error::UnknownCompressionScheme(scheme))
    }
}

/// The decompressed bytes of the chunk at entry `k`.
pub open spec fn chunk_data(s: Seq<u8>, k: nat) -> Result<Seq<u8>, Error> {
    match raw_chunk(s, k) {
        Ok((scheme, stored)) => decompressed(scheme, stored),
        Err(e) => Err(e),
    }
}

/// The bytes that a chunk is stored as under a scheme that this crate can
/// write: raw, zlib or gzip.
pub open spec fn compressed(scheme: u8, bytes: Seq<u8>) -> Seq<u8> {
    if scheme == SCHEME_ZLIB {
        zlib_deflated(bytes)
    } else if scheme == SCHEME_GZIP {
        gzip_deflated(bytes)
    } else {
        bytes
    }
}

/// A scheme that this crate can write.
pub open spec fn writable_scheme(scheme: u8) -> bool {
    scheme == SCHEME_RAW || scheme == SCHEME_ZLIB || scheme == SCHEME_GZIP
}

impl Region {
    /// The bytes of the chunk at `(x, z)`, decompressed.
    pub fn read_chunk(&self, x: usize, z: usize) -> (r: Result<Vec<u8>, Error>)
        requires
            self.wf(),
            x < 32,
            z < 32,
        ensures
            match chunk_data(self.image(), entry_index(x as nat, z as nat)) {
                Ok(d) => r matches Ok(v) && v@ == d,
                Err(e) => r matches Err(e2) && e2 == e,
            },
    {
        let (scheme, stored) = match self.read_chunk_raw(x, z) {
            Ok(x) => x,
            Err(e) => {
                return Err(e);
            },
        };
        if scheme == SCHEME_RAW {
            Ok(stored)
        } else if scheme == SCHEME_ZLIB {
            match inflate_zlib(stored.as_slice()) {
                Some(d) => Ok(d),
                None => Err(Error::CorruptCompressedData),
            }
        } else if scheme == SCHEME_GZIP {
            match inflate_gzip(stored.as_slice()) {
                Some(d) => Ok(d),
                None => Err(Error::CorruptCompressedData),
            }
        } else if scheme == SCHEME_LZ4 || scheme >= 128 {
            Err(Error::UnsupportedCompressionScheme(scheme))
        } else {
            Err(Error::UnknownCompressionScheme(scheme))
        }
    }

    /// Compresses `bytes` with zlib or gzip, or stores them as they are, and
    /// writes them as the chunk at `(x, z)`; see [`Region::write_chunk_raw`].
    /// Reading the chunk back gives `bytes`. LZ4 is not supported, and other
    /// scheme bytes name no scheme.
    pub fn write_chunk(&mut self, x: usize, z: usize, bytes: &[u8], scheme: u8, timestamp: u32) -> (r:
        Result<(), Error>)
        requires
            old(self).wf(),
            x < 32,
            z < 32,
        ensures
            r is Err ==> *final(self) == *old(self),
            !writable_scheme(scheme) && (scheme == SCHEME_LZ4 || scheme >= 128) ==> r
                == Err::<(), Error>(Error::UnsupportedCompressionScheme(scheme)),
            !writable_scheme(scheme) && !(scheme == SCHEME_LZ4 || scheme >= 128) ==> r
                == Err::<(), Error>(Error::UnknownCompressionScheme(scheme)),
            writable_scheme(scheme) && compressed(scheme, bytes@).len() + 5 <= 255 * 4096 && old(self).sector_map().len() + 255 < 16777216 && (old(self).sector_map().len() + 255) * 4096 <= usize::MAX
                ==> r is Ok,
            r is Ok ==> final(self).wf(),
            r is Ok ==> raw_chunk(final(self).image(), entry_index(x as nat, z as nat)) == Ok::<
                (u8, Seq<u8>),
                Error,
            >((scheme, compressed(scheme, bytes@))),
            r is Ok ==> chunk_data(final(self).image(), entry_index(x as nat, z as nat)) == Ok::<
                Seq<u8>,
                Error,
            >(bytes@),
            r is Ok ==> entry_timestamp(final(self).image(), entry_index(x as nat, z as nat))
                == timestamp,
            r is Ok ==> forall|k2: nat|
                k2 < 1024 && k2 != entry_index(x as nat, z as nat) ==> #[trigger] raw_chunk(
                    final(self).image(),
                    k2,
                ) == raw_chunk(old(self).image(), k2),
    {
        if scheme == SCHEME_RAW {
            self.write_chunk_raw(x, z, scheme, bytes, timestamp)
        } else if scheme == SCHEME_ZLIB {
            let packed = deflate_zlib(bytes);
            self.write_chunk_raw(x, z, scheme, packed.as_slice(), timestamp)
        } else if scheme == SCHEME_GZIP {
            let packed = deflate_gzip(bytes);
            self.write_chunk_raw(x, z, scheme, packed.as_slice(), timestamp)
        } else if scheme == SCHEME_LZ4 || scheme >= 128 {
            Err(Error::UnsupportedCompressionScheme(scheme))
        } else {
            Err(Error::UnknownCompressionScheme(scheme))
        }
    }
}

/// The coordinates `(x, z)` of every chunk present among the first `k`
/// header entries, in entry order: ascending `z`, then ascending `x`.
pub open spec fn present_upto(s: Seq<u8>, k: nat) -> Seq<(usize, usize)>
    decreases k,
{
    if k == 0 {
        Seq::empty()
    } else {
        let j = (k - 1) as nat;
        let before = present_upto(s, j);
        if entry_present(s, j) {
            before.push(((j % 32) as usize, (j / 32) as usize))
        } else {
            before
        }
    }
}

impl Region {
    /// The coordinates `(x, z)` of every chunk in the region, in ascending
    /// `(z, x)` order.
    pub fn present_chunks(&self) -> (r: Vec<(usize, usize)>)
        requires
            self.wf(),
        ensures
            r@ == present_upto(self.image(), 1024),
    {
        proof {
            lemma_header_entry(self.image(), 0);
        }
        let mut out: Vec<(usize, usize)> = Vec::new();
        let mut k: usize = 0;
        while k < ENTRIES
            invariant
                k <= 1024,
                self.image().len() >= 8192,
                out@ == present_upto(self.image(), k as nat),
            decreases 1024 - k,
        {
            let (off, n) = read_entry(&self.data, k);
            if off != 0 || n != 0 {
                out.push((k % REGION_WIDTH, k / REGION_WIDTH));
            }
            k = k + 1;
        }
        out
    }
}

} // verus!
