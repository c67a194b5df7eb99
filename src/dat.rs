use vstd::prelude::*;
use std::collections::BTreeMap;
use crate::buf::{be_at, be_value, read_u32_at, Buffer};
use crate::error::CacheError;

verus! {

broadcast use vstd::laws_cmp::group_laws_cmp;

/// The size of one sector of the data file.
pub const SECTOR_SIZE: usize = 520;

/// The size of one entry of an idx file.
pub const INDEX_ENTRY_SIZE: usize = 6;

/// Archive ids from this value on use the large sector header.
pub const LARGE_ARCHIVE_ID: u32 = 0xFFFF;

/// The length of a sector header for archive `archive_id`: 10 bytes for
/// large ids (a four-byte id echo), 8 bytes otherwise.
pub open spec fn header_len_spec(archive_id: u32) -> nat {
    if archive_id >= 0xFFFF {
        10
    } else {
        8
    }
}

/// The sector header length for archive `archive_id`.
pub fn header_len(archive_id: u32) -> (r: usize)
    ensures
        r == header_len_spec(archive_id),
{
    if archive_id >= LARGE_ARCHIVE_ID {
        10
    } else {
        8
    }
}

/// The archive id that a sector header echoes.
pub open spec fn echo_archive(block: Seq<u8>, archive_id: u32) -> nat {
    if archive_id >= 0xFFFF {
        be_at(block, 0, 4)
    } else {
        be_at(block, 0, 2)
    }
}

/// The part number that a sector header echoes.
pub open spec fn echo_part(block: Seq<u8>, archive_id: u32) -> nat {
    be_at(block, header_len_spec(archive_id) - 6, 2)
}

/// The next sector that a sector header names; 0 ends the chain.
pub open spec fn next_sector(block: Seq<u8>, archive_id: u32) -> nat {
    be_at(block, header_len_spec(archive_id) - 4, 3)
}

/// Reads the idx entry of archive `archive_id`: its length and first sector.
pub fn idx_entry(idx: &[u8], archive_id: u32) -> (r: Result<(u32, u32), CacheError>)
    ensures
        archive_id * 6 + 6 <= idx@.len() ==> r == Ok::<(u32, u32), CacheError>(
            (
                be_at(idx@, archive_id * 6, 3) as u32,
                be_at(idx@, archive_id * 6 + 3, 3) as u32,
            ),
        ),
        archive_id * 6 + 6 > idx@.len() ==> r is Err && r->Err_0 is EndOfInput,
{
    let off = archive_id as u64 * 6;
    if off + 6 > idx.len() as u64 {
        return Err(CacheError::EndOfInput);
    }
    let mut buf = Buffer::new(crate::buf::copy_range(idx, off as usize, off as usize + 6));
    let length = buf.try_get_uint(3);
    let sector = buf.try_get_uint(3);
    proof {
        let w = idx@.subrange(off as int, off + 6);
        assert(w.subrange(0, 3) =~= idx@.subrange(off as int, off + 3));
        assert(w.subrange(3, 6) =~= idx@.subrange(off + 3, off + 6));
        crate::buf::lemma_be_value_bound(w.subrange(0, 3));
        crate::buf::lemma_be_value_bound(w.subrange(3, 6));
        reveal_with_fuel(crate::buf::pow256, 4);
    }
    match (length, sector) {
        (Ok(l), Ok(s)) => Ok((l as u32, s as u32)),
        _ => Err(CacheError::EndOfInput),
    }
}

/// The walk along the sector chain of one archive: what was read so far and
/// where the chain goes next.
#[derive(Debug)]
pub struct SectorChain {
    pub index_id: u32,
    pub archive_id: u32,
    /// The length that the idx entry declares.
    pub length: u32,
    /// The next sector to read; 0 once the chain has ended.
    pub sector: u32,
    /// The part number that the next sector must echo.
    pub part: u32,
    /// The body bytes read so far.
    pub data: Vec<u8>,
}

impl SectorChain {
    pub open spec fn wf(&self) -> bool {
        &&& self.data@.len() <= self.length
        &&& self.part <= 0x1_0000
    }

    /// Starts the walk for archive `archive_id` from its idx entry.
    /// A first sector of 0 means the archive is missing.
    pub fn start(index_id: u32, archive_id: u32, length: u32, first_sector: u32) -> (r: Result<
        SectorChain,
        CacheError,
    >)
        ensures
            first_sector == 0 ==> r == Err::<SectorChain, CacheError>(
                CacheError::ArchiveNotFound(index_id, archive_id),
            ),
            first_sector != 0 ==> (r matches Ok(c) && c.wf() && c.index_id == index_id
                && c.archive_id == archive_id && c.length == length && c.sector == first_sector
                && c.part == 0 && c.data@.len() == 0),
    {
        if first_sector == 0 {
            return Err(CacheError::ArchiveNotFound(index_id, archive_id));
        }
        Ok(SectorChain { index_id, archive_id, length, sector: first_sector, part: 0, data: Vec::new() })
    }

    /// Whether the chain has ended.
    pub fn is_done(&self) -> (r: bool)
        ensures
            r == (self.sector == 0),
    {
        self.sector == 0
    }

    /// Where in the data file the next sector starts.
    pub fn offset(&self) -> (r: u64)
        ensures
            r == self.sector * 520,
    {
        self.sector as u64 * 520
    }

    /// The number of body bytes that the next sector carries.
    pub open spec fn take_spec(&self) -> nat {
        let cap: nat = if self.archive_id >= 0xFFFF {
            510
        } else {
            512
        };
        let left = (self.length - self.data@.len()) as nat;
        if cap < left {
            cap
        } else {
            left
        }
    }

    /// Consumes the sector `block`, read from `offset()`: checks that its header
    /// echoes the archive id and the part number, appends its body and follows
    /// its link. A wrong echo is `Corrupt`; a block too short for the header
    /// and the body is `EndOfInput`.
    pub fn feed(&mut self, block: &[u8]) -> (r: Result<(), CacheError>)
        requires
            old(self).wf(),
            old(self).sector != 0,
        ensures
            final(self).wf(),
            final(self).index_id == old(self).index_id,
            final(self).archive_id == old(self).archive_id,
            final(self).length == old(self).length,
            ({
                let h = header_len_spec(old(self).archive_id);
                let ok_header = block@.len() >= h && echo_archive(block@, old(self).archive_id)
                    == old(self).archive_id && echo_part(block@, old(self).archive_id)
                    == old(self).part;
                let take = old(self).take_spec();
                &&& block@.len() < h ==> r is Err && r->Err_0 is EndOfInput
                &&& block@.len() >= h && !ok_header ==> r is Err && r->Err_0 is Corrupt
                &&& ok_header && block@.len() < h + take ==> r is Err && r->Err_0 is EndOfInput
                &&& ok_header && block@.len() >= h + take ==> {
                    &&& r is Ok
                    &&& final(self).data@ == old(self).data@ + block@.subrange(
                        h as int,
                        (h + take) as int,
                    )
                    &&& final(self).part == old(self).part + 1
                    &&& final(self).sector == next_sector(block@, old(self).archive_id)
                }
                &&& r is Err ==> *final(self) == *old(self)
            }),
    {
        let h = header_len(self.archive_id);
        if block.len() < h {
            return Err(CacheError::EndOfInput);
        }
        let echo: u32 = if self.archive_id >= LARGE_ARCHIVE_ID {
            read_u32_at(block, 0)
        } else {
            read_u16_at(block, 0) as u32
        };
        let part = read_u16_at(block, h - 6);
        if echo != self.archive_id || part as u32 != self.part {
            return Err(CacheError::Corrupt);
        }
        let next = read_u24_at(block, h - 4);
        let cap: u32 = if self.archive_id >= LARGE_ARCHIVE_ID {
            510
        } else {
            512
        };
        let left = self.length - self.data.len() as u32;
        let take = if cap < left {
            cap
        } else {
            left
        };
        if block.len() - h < take as usize {
            return Err(CacheError::EndOfInput);
        }
        let mut body = crate::buf::copy_range(block, h, h + take as usize);
        self.data.append(&mut body);
        self.part = self.part + 1;
        self.sector = next;
        Ok(())
    }

    /// Ends the walk, once the chain has ended. Fewer bytes than the idx entry
    /// declares is `Corrupt`.
    pub fn finish(self) -> (r: Result<Vec<u8>, CacheError>)
        requires
            self.wf(),
            self.sector == 0,
        ensures
            self.data@.len() == self.length ==> (r matches Ok(v) && v@ == self.data@),
            self.data@.len() < self.length ==> r is Err && r->Err_0 is Corrupt,
    {
        if (self.data.len() as u32) < self.length {
            return Err(CacheError::Corrupt);
        }
        Ok(self.data)
    }
}

/// Reads the big-endian `u16` at `off`.
pub fn read_u16_at(s: &[u8], off: usize) -> (r: u16)
    requires
        off + 2 <= s@.len(),
    ensures
        r as nat == be_at(s@, off as int, 2),
{
    let v = (s[off] as u16) * 0x100 + s[off + 1] as u16;
    proof {
        let w = s@.subrange(off as int, off + 2);
        assert(w.drop_last().drop_last() =~= Seq::<u8>::empty());
        assert(w.drop_last() =~= seq![s@[off as int]]);
        reveal_with_fuel(be_value, 3);
    }
    v
}

/// Reads the big-endian three-byte integer at `off`.
pub fn read_u24_at(s: &[u8], off: usize) -> (r: u32)
    requires
        off + 3 <= s@.len(),
    ensures
        r as nat == be_at(s@, off as int, 3),
{
    let v = (s[off] as u32) * 0x1_0000 + (s[off + 1] as u32) * 0x100 + s[off + 2] as u32;
    proof {
        let w = s@.subrange(off as int, off + 3);
        assert(w.drop_last().drop_last().drop_last() =~= Seq::<u8>::empty());
        assert(w.drop_last().drop_last() =~= seq![s@[off as int]]);
        assert(w.drop_last() =~= seq![s@[off as int], s@[off + 1]]);
        reveal_with_fuel(be_value, 4);
    }
    v
}

/// The sector that starts at `offset` in a data file held in memory: its 520
/// bytes, or what is left of the file.
fn sector_block(dat: &[u8], offset: u64) -> (r: Result<Vec<u8>, CacheError>)
    ensures
        offset <= dat@.len() ==> (r matches Ok(v) && v@ == dat@.subrange(
            offset as int,
            if offset + 520 <= dat@.len() {
                offset + 520
            } else {
                dat@.len() as int
            },
        )),
        offset > dat@.len() ==> r is Err && r->Err_0 is EndOfInput,
{
    if offset > dat.len() as u64 {
        return Err(CacheError::EndOfInput);
    }
    let start = offset as usize;
    let end = if dat.len() - start >= SECTOR_SIZE {
        start + SECTOR_SIZE
    } else {
        dat.len()
    };
    Ok(crate::buf::copy_range(dat, start, end))
}

/// The sector of a data file held in memory that starts at `offset`: its 520
/// bytes, or what is left of the file.
pub open spec fn block_at(dat: Seq<u8>, offset: int) -> Seq<u8> {
    dat.subrange(
        offset,
        if offset + 520 <= dat.len() {
            offset + 520
        } else {
            dat.len() as int
        },
    )
}

/// The number of body bytes that the next sector of a chain carries, after
/// `read` of `length` bytes.
pub open spec fn take_len(archive_id: u32, length: nat, read: nat) -> nat {
    let cap: nat = if archive_id >= 0xFFFF {
        510
    } else {
        512
    };
    let left = (length - read) as nat;
    if cap < left {
        cap
    } else {
        left
    }
}

/// The outcome of following the chain of archive `archive_id` through `dat`
/// from `sector`, with part number `part` next and `read` read so far.
pub open spec fn chain_spec(
    dat: Seq<u8>,
    archive_id: u32,
    length: nat,
    sector: nat,
    part: nat,
    read: Seq<u8>,
) -> Result<Seq<u8>, CacheError>
    decreases 0x1_0000 - part,
{
    if sector == 0 {
        if read.len() < length {
            Err(CacheError::Corrupt)
        } else {
            Ok(read)
        }
    } else if sector * 520 > dat.len() {
        Err(CacheError::EndOfInput)
    } else {
        let block = block_at(dat, (sector * 520) as int);
        let h = header_len_spec(archive_id);
        let take = take_len(archive_id, length, read.len());
        if block.len() < h {
            Err(CacheError::EndOfInput)
        } else if echo_archive(block, archive_id) != archive_id || echo_part(block, archive_id)
            != part || part >= 0x1_0000 {
            Err(CacheError::Corrupt)
        } else if block.len() < h + take {
            Err(CacheError::EndOfInput)
        } else {
            chain_spec(
                dat,
                archive_id,
                length,
                next_sector(block, archive_id),
                part + 1,
                read + block.subrange(h as int, (h + take) as int),
            )
        }
    }
}

/// What reading archive `archive_id` of index `index_id` gives: its idx entry,
/// then its sector chain.
pub open spec fn read_archive_spec(dat: Seq<u8>, idx: Seq<u8>, index_id: u32, archive_id: u32) -> Result<
    Seq<u8>,
    CacheError,
> {
    if archive_id * 6 + 6 > idx.len() {
        Err(CacheError::EndOfInput)
    } else if be_at(idx, archive_id * 6 + 3, 3) == 0 {
        Err(CacheError::ArchiveNotFound(index_id, archive_id))
    } else {
        chain_spec(
            dat,
            archive_id,
            be_at(idx, archive_id * 6, 3),
            be_at(idx, archive_id * 6 + 3, 3),
            0,
            Seq::empty(),
        )
    }
}

/// The body bytes that a chain yields add up to the length that the idx entry
/// declares: each sector adds at most what is left, and a chain that ends short
/// is `Corrupt`.
pub proof fn lemma_chain_length(
    dat: Seq<u8>,
    archive_id: u32,
    length: nat,
    sector: nat,
    part: nat,
    read: Seq<u8>,
)
    requires
        read.len() <= length,
    ensures
        chain_spec(dat, archive_id, length, sector, part, read) matches Ok(v) ==> v.len() == length,
    decreases 0x1_0000 - part,
{
    if sector != 0 && sector * 520 <= dat.len() {
        let block = block_at(dat, (sector * 520) as int);
        let h = header_len_spec(archive_id);
        let take = take_len(archive_id, length, read.len());
        if block.len() >= h && echo_archive(block, archive_id) == archive_id && echo_part(
            block,
            archive_id,
        ) == part && part < 0x1_0000 && block.len() >= h + take {
            lemma_chain_length(
                dat,
                archive_id,
                length,
                next_sector(block, archive_id),
                part + 1,
                read + block.subrange(h as int, (h + take) as int),
            );
        }
    }
}

/// A legacy archive that reads without error has exactly the length that its
/// idx entry declares.
pub proof fn lemma_read_archive_length(dat: Seq<u8>, idx: Seq<u8>, index_id: u32, archive_id: u32)
    ensures
        read_archive_spec(dat, idx, index_id, archive_id) matches Ok(v) ==> v.len() == be_at(
            idx,
            archive_id * 6,
            3,
        ),
{
    if archive_id * 6 + 6 <= idx.len() && be_at(idx, archive_id * 6 + 3, 3) != 0 {
        lemma_chain_length(
            dat,
            archive_id,
            be_at(idx, archive_id * 6, 3),
            be_at(idx, archive_id * 6 + 3, 3),
            0,
            Seq::empty(),
        );
    }
}

/// Reads archive `archive_id` of index `index_id` from an idx file and a data
/// file held in memory, following its sector chain to the end.
pub fn read_archive(dat: &[u8], idx: &[u8], index_id: u32, archive_id: u32) -> (r: Result<
    Vec<u8>,
    CacheError,
>)
    ensures
        match read_archive_spec(dat@, idx@, index_id, archive_id) {
            Ok(v) => r matches Ok(w) && w@ == v,
            Err(e) => r == Err::<Vec<u8>, CacheError>(e),
        },
{
    let (length, first) = idx_entry(idx, archive_id)?;
    proof {
        crate::buf::lemma_be_value_bound(idx@.subrange(archive_id * 6 + 3, archive_id * 6 + 6));
        crate::buf::lemma_be_value_bound(idx@.subrange(archive_id * 6, archive_id * 6 + 3));
        reveal_with_fuel(crate::buf::pow256, 4);
    }
    let mut chain = SectorChain::start(index_id, archive_id, length, first)?;
    while !chain.is_done()
        invariant
            chain.wf(),
            chain.archive_id == archive_id,
            chain.length == length,
            archive_id * 6 + 6 <= idx@.len(),
            length == be_at(idx@, archive_id * 6, 3),
            be_at(idx@, archive_id * 6 + 3, 3) != 0,
            chain_spec(
                dat@,
                archive_id,
                length as nat,
                chain.sector as nat,
                chain.part as nat,
                chain.data@,
            ) == read_archive_spec(dat@, idx@, index_id, archive_id),
        decreases 0x1_0000 - chain.part,
    {
        let block = sector_block(dat, chain.offset())?;
        let ghost p = chain.part;
        let ghost h = header_len_spec(archive_id);
        proof {
            crate::buf::lemma_be_value_bound(block@.subrange(h - 6, h - 4));
            reveal_with_fuel(crate::buf::pow256, 3);
        }
        chain.feed(block.as_slice())?;
        assert(p < 0x1_0000);
    }
    chain.finish()
}

/// What the map catalog records of one map square.
#[derive(Copy, Clone, Debug)]
pub struct MapsquareMeta {
    pub mapsquare: u16,
    pub mapfile: u16,
    pub locfile: u16,
    pub f2p: bool,
}

/// The record at position `t` of a map catalog: `u16` square, `u16` map file,
/// `u16` location file, and a free-to-play byte.
pub open spec fn catalog_record(d: Seq<u8>, t: int) -> MapsquareMeta {
    MapsquareMeta {
        mapsquare: be_at(d, 7 * t, 2) as u16,
        mapfile: be_at(d, 7 * t + 2, 2) as u16,
        locfile: be_at(d, 7 * t + 4, 2) as u16,
        f2p: d[7 * t + 6] != 0,
    }
}

/// The coordinates of a map square: its high byte is `i`, its low byte `j`.
pub open spec fn square_key(mapsquare: u16) -> (u8, u8) {
    ((mapsquare / 256) as u8, (mapsquare % 256) as u8)
}

/// The catalog built from the first `n` records, later records replacing
/// earlier ones with the same coordinates.
pub open spec fn catalog_spec(d: Seq<u8>, n: nat) -> Map<(u8, u8), MapsquareMeta>
    decreases n,
{
    if n == 0 {
        Map::empty()
    } else {
        let rec = catalog_record(d, n - 1);
        catalog_spec(d, (n - 1) as nat).insert(square_key(rec.mapsquare), rec)
    }
}

/// Decodes a map catalog: a flat array of 7-byte records (a trailing partial
/// record is ignored), keyed by the coordinates of each square.
pub fn decode_map_index(data: &[u8]) -> (r: BTreeMap<(u8, u8), MapsquareMeta>)
    ensures
        r@ == catalog_spec(data@, data@.len() / 7),
{
    let n = data.len() / 7;
    assert(7 * n <= data@.len());
    let mut map: BTreeMap<(u8, u8), MapsquareMeta> = BTreeMap::new();
    let mut t: usize = 0;
    while t < n
        invariant
            n == data@.len() / 7,
            7 * n <= data@.len(),
            data@.len() <= usize::MAX,
            t <= n,
            map@ == catalog_spec(data@, t as nat),
        decreases n - t,
    {
        assert(7 * t + 7 <= 7 * n);
        let off = 7 * t;
        let mapsquare = read_u16_at(data, off);
        let meta = MapsquareMeta {
            mapsquare,
            mapfile: read_u16_at(data, off + 2),
            locfile: read_u16_at(data, off + 4),
            f2p: data[off + 6] != 0,
        };
        let key = ((mapsquare / 256) as u8, (mapsquare % 256) as u8);
        map.insert(key, meta);
        t = t + 1;
    }
    map
}

/// Every key of a catalog is the coordinate pair of the record stored under
/// it, so `i` is the high byte of the square number; where every square number
/// is below `0x8000`, every key has `i < 128`.
pub proof fn lemma_catalog_keys(d: Seq<u8>, n: nat)
    requires
        7 * n <= d.len(),
        forall|t: int| 0 <= t < n ==> #[trigger] catalog_record(d, t).mapsquare < 0x8000,
    ensures
        forall|k: (u8, u8)| #[trigger]
            catalog_spec(d, n).contains_key(k) ==> k == square_key(
                catalog_spec(d, n)[k].mapsquare,
            ) && k.0 < 128,
    decreases n,
{
    if n > 0 {
        lemma_catalog_keys(d, (n - 1) as nat);
        let rec = catalog_record(d, n - 1);
        assert(rec.mapsquare < 0x8000);
        assert(rec.mapsquare / 256 < 128);
        assert forall|k: (u8, u8)| #[trigger]
            catalog_spec(d, n).contains_key(k) implies k == square_key(
                catalog_spec(d, n)[k].mapsquare,
            ) && k.0 < 128 by {
            if k != square_key(rec.mapsquare) {
                assert(catalog_spec(d, (n - 1) as nat).contains_key(k));
            }
        }
    }
}

} // verus!
