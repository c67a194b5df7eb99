use vstd::prelude::*;
use crate::buf::{be_at, Buffer};
use crate::error::CacheError;

verus! {

/// Whether a sequence of ids is strictly increasing.
pub open spec fn strictly_increasing(s: Seq<u32>) -> bool {
    forall|a: int, b: int| 0 <= a < b < s.len() ==> s[a] < s[b]
}

/// What the metadata of an index records of one archive.
#[derive(Debug)]
pub struct Metadata {
    pub index_id: u32,
    pub archive_id: u32,
    /// The archive's name hash, where the index names its archives.
    pub name_hash: Option<u32>,
    pub crc: u32,
    pub version: u32,
    pub child_count: u32,
    /// The ids of the files in the archive, strictly increasing.
    pub child_ids: Vec<u32>,
    /// The name hash of each file, in the order of `child_ids`, where the index
    /// names its archives.
    pub child_name_hashes: Option<Vec<u32>>,
}

impl Metadata {
    /// The record is consistent: one child id per child, strictly increasing,
    /// and one child name hash per child where there are any.
    pub open spec fn wf(&self) -> bool {
        &&& self.child_ids@.len() == self.child_count
        &&& strictly_increasing(self.child_ids@)
        &&& (self.child_name_hashes matches Some(h) ==> h@.len() == self.child_count)
        &&& (self.name_hash is Some <==> self.child_name_hashes is Some)
    }

    /// The two records hold the same values.
    pub open spec fn equiv(&self, o: &Metadata) -> bool {
        &&& self.index_id == o.index_id
        &&& self.archive_id == o.archive_id
        &&& self.name_hash == o.name_hash
        &&& self.crc == o.crc
        &&& self.version == o.version
        &&& self.child_count == o.child_count
        &&& self.child_ids@ == o.child_ids@
        &&& match (self.child_name_hashes, o.child_name_hashes) {
            (Some(a), Some(b)) => a@ == b@,
            (None, None) => true,
            _ => false,
        }
    }

    /// A copy of the record.
    pub fn copy(&self) -> (r: Metadata)
        ensures
            r.equiv(self),
            self.wf() ==> r.wf(),
    {
        let child_name_hashes = match &self.child_name_hashes {
            Some(h) => Some(copy_ids(h.as_slice())),
            None => None,
        };
        Metadata {
            index_id: self.index_id,
            archive_id: self.archive_id,
            name_hash: self.name_hash,
            crc: self.crc,
            version: self.version,
            child_count: self.child_count,
            child_ids: copy_ids(self.child_ids.as_slice()),
            child_name_hashes,
        }
    }

    pub fn index_id(&self) -> (r: u32)
        ensures
            r == self.index_id,
    {
        self.index_id
    }

    pub fn archive_id(&self) -> (r: u32)
        ensures
            r == self.archive_id,
    {
        self.archive_id
    }

    /// The name hash of the archive, if the index names its archives.
    pub fn name(&self) -> (r: Option<u32>)
        ensures
            r == self.name_hash,
    {
        self.name_hash
    }

    pub fn crc(&self) -> (r: u32)
        ensures
            r == self.crc,
    {
        self.crc
    }

    pub fn version(&self) -> (r: u32)
        ensures
            r == self.version,
    {
        self.version
    }

    pub fn child_count(&self) -> (r: u32)
        ensures
            r == self.child_count,
    {
        self.child_count
    }
}

/// The metadata of one index: a record per archive, ordered by archive id.
#[derive(Debug)]
pub struct IndexMetadata {
    pub metadatas: Vec<Metadata>,
}

impl IndexMetadata {
    /// Every record is consistent, belongs to `index_id`, and the archive ids
    /// are strictly increasing.
    pub open spec fn wf_for(&self, index_id: u32) -> bool {
        &&& forall|a: int, b: int|
            0 <= a < b < self.metadatas@.len() ==> (#[trigger] self.metadatas@[a]).archive_id
                < (#[trigger] self.metadatas@[b]).archive_id
        &&& forall|k: int|
            0 <= k < self.metadatas@.len() ==> (#[trigger] self.metadatas@[k]).wf()
                && self.metadatas@[k].index_id == index_id
    }

    /// Metadata with no archive.
    pub fn empty() -> (r: IndexMetadata)
        ensures
            r.metadatas@.len() == 0,
    {
        IndexMetadata { metadatas: Vec::new() }
    }

    /// The number of archives.
    pub fn len(&self) -> (r: usize)
        ensures
            r == self.metadatas@.len(),
    {
        self.metadatas.len()
    }

    /// The record of archive `archive_id`, if there is one.
    pub fn get(&self, archive_id: u32) -> (r: Option<&Metadata>)
        ensures
            match r {
                Some(m) => exists|k: int|
                    0 <= k < self.metadatas@.len() && self.metadatas@[k] == *m
                        && m.archive_id == archive_id,
                None => forall|k: int|
                    0 <= k < self.metadatas@.len() ==> self.metadatas@[k].archive_id
                        != archive_id,
            },
    {
        let mut k: usize = 0;
        while k < self.metadatas.len()
            invariant
                k <= self.metadatas@.len(),
                forall|t: int| 0 <= t < k ==> self.metadatas@[t].archive_id != archive_id,
            decreases self.metadatas@.len() - k,
        {
            if self.metadatas[k].archive_id == archive_id {
                return Some(&self.metadatas[k]);
            }
            k = k + 1;
        }
        None
    }

    /// The first record, in archive-id order, whose name hash is `hash`.
    pub fn find_by_name_hash(&self, hash: u32) -> (r: Option<&Metadata>)
        ensures
            match r {
                Some(m) => exists|k: int|
                    0 <= k < self.metadatas@.len() && self.metadatas@[k] == *m
                        && m.name_hash == Some(hash)
                        && forall|t: int| 0 <= t < k ==> self.metadatas@[t].name_hash != Some(hash),
                None => forall|k: int|
                    0 <= k < self.metadatas@.len() ==> self.metadatas@[k].name_hash != Some(
                        hash,
                    ),
            },
    {
        let mut k: usize = 0;
        while k < self.metadatas.len()
            invariant
                k <= self.metadatas@.len(),
                forall|t: int| 0 <= t < k ==> self.metadatas@[t].name_hash != Some(hash),
            decreases self.metadatas@.len() - k,
        {
            if self.metadatas[k].name_hash == Some(hash) {
                return Some(&self.metadatas[k]);
            }
            k = k + 1;
        }
        None
    }

    /// Decodes the metadata blob of index `index_id`. Any fault in the layout,
    /// running out of bytes included, is `Corrupt`.
    pub fn deserialize(index_id: u32, data: Vec<u8>) -> (r: Result<IndexMetadata, CacheError>)
        ensures
            match r {
                Ok(m) => {
                    &&& m.wf_for(index_id)
                    &&& data@.len() >= 4
                    &&& (data@[0] == 5 || data@[0] == 6)
                    &&& m.metadatas@.len() == header_count(data@)
                    &&& forall|k: int|
                        0 <= k < m.metadatas@.len() ==> decoded(
                            data@,
                            index_id,
                            k,
                            #[trigger] m.metadatas@[k],
                        )
                },
                Err(e) => e is Corrupt,
            },
            r is Ok <==> meta_fits(data@),
    {
        match decode(index_id, data) {
            Ok(m) => Ok(m),
            Err(_) => Err(CacheError::Corrupt),
        }
    }
}

/// Where the flags byte stands: after the protocol byte, and after the
/// version field that protocol 6 adds.
pub open spec fn flags_at(data: Seq<u8>) -> int {
    if data[0] == 6 {
        5
    } else {
        1
    }
}

/// Whether the index names its archives.
pub open spec fn is_named(data: Seq<u8>) -> bool {
    data[flags_at(data)] % 2 == 1
}

/// Whether the index writes its ids and counts on four bytes.
pub open spec fn is_large(data: Seq<u8>) -> bool {
    data[flags_at(data)] >= 0x80
}

/// The bytes that `i` ids or counts take.
pub open spec fn span(large: bool, i: int) -> int {
    if large {
        4 * i
    } else {
        2 * i
    }
}

/// The id delta or count at `p`.
pub open spec fn field(d: Seq<u8>, large: bool, p: int) -> nat {
    be_at(d, p, span(large, 1))
}

/// The `t`-th id of the delta-coded run at `p`: the sum of its first `t + 1`
/// deltas.
pub open spec fn delta_id(d: Seq<u8>, large: bool, p: int, t: int) -> int
    decreases t,
{
    if t <= 0 {
        field(d, large, p) as int
    } else {
        delta_id(d, large, p, t - 1) + field(d, large, p + span(large, t))
    }
}

/// The archive count that the header declares.
pub open spec fn header_count(data: Seq<u8>) -> nat {
    field(data, is_large(data), flags_at(data) + 1)
}

/// Where the archive ids start.
pub open spec fn ids_at(d: Seq<u8>) -> int {
    flags_at(d) + 1 + span(is_large(d), 1)
}

/// Where the archive name hashes start, if the index names its archives.
pub open spec fn names_at(d: Seq<u8>) -> int {
    ids_at(d) + span(is_large(d), header_count(d) as int)
}

/// Where the archive CRCs start.
pub open spec fn crcs_at(d: Seq<u8>) -> int {
    names_at(d) + if is_named(d) {
        4 * header_count(d)
    } else {
        0
    }
}

/// Where the archive versions start.
pub open spec fn versions_at(d: Seq<u8>) -> int {
    crcs_at(d) + 4 * header_count(d)
}

/// Where the child counts start.
pub open spec fn counts_at(d: Seq<u8>) -> int {
    versions_at(d) + 4 * header_count(d)
}

/// The child count of the `k`-th archive.
pub open spec fn child_count_of(d: Seq<u8>, k: int) -> nat {
    field(d, is_large(d), counts_at(d) + span(is_large(d), k))
}

/// The number of children of the archives before the `k`-th.
pub open spec fn children_before(d: Seq<u8>, k: int) -> int
    decreases k,
{
    if k <= 0 {
        0
    } else {
        children_before(d, k - 1) + child_count_of(d, k - 1)
    }
}

/// Where the child id runs start.
pub open spec fn children_at(d: Seq<u8>) -> int {
    counts_at(d) + span(is_large(d), header_count(d) as int)
}

/// Where the child name hashes start, if the index names its archives.
pub open spec fn child_names_at(d: Seq<u8>) -> int {
    children_at(d) + span(is_large(d), children_before(d, header_count(d) as int))
}

/// `m` is what the metadata blob `d` records of its `k`-th archive.
pub open spec fn decoded(d: Seq<u8>, index_id: u32, k: int, m: Metadata) -> bool {
    let large = is_large(d);
    let first_child = children_before(d, k);
    &&& m.index_id == index_id
    &&& m.archive_id as int == delta_id(d, large, ids_at(d), k)
    &&& m.name_hash == if is_named(d) {
        Some(be_at(d, names_at(d) + 4 * k, 4) as u32)
    } else {
        None
    }
    &&& m.crc as nat == be_at(d, crcs_at(d) + 4 * k, 4)
    &&& m.version as nat == be_at(d, versions_at(d) + 4 * k, 4)
    &&& m.child_count as nat == child_count_of(d, k)
    &&& forall|c: int|
        0 <= c < m.child_ids@.len() ==> #[trigger] m.child_ids@[c] as int == delta_id(
            d,
            large,
            children_at(d) + span(large, first_child),
            c,
        )
    &&& forall|c: int|
        0 <= c < m.child_count && m.child_name_hashes is Some
            ==> #[trigger] m.child_name_hashes->Some_0@[c] as nat == be_at(
            d,
            child_names_at(d) + 4 * (first_child + c),
            4,
        )
}

/// Copies a slice of ids into a new vector.
pub fn copy_ids(s: &[u32]) -> (r: Vec<u32>)
    ensures
        r@ == s@,
{
    let mut v: Vec<u32> = Vec::new();
    let mut i: usize = 0;
    while i < s.len()
        invariant
            i <= s@.len(),
            v@ == s@.subrange(0, i as int),
        decreases s@.len() - i,
    {
        v.push(s[i]);
        i = i + 1;
        assert(v@ =~= s@.subrange(0, i as int));
    }
    assert(v@ =~= s@);
    v
}

/// The delta-coded run of `n` ids at `p` strictly increases and stays within
/// `u32`: every delta after the first is positive.
pub open spec fn run_ok(d: Seq<u8>, large: bool, p: int, n: int) -> bool {
    forall|t: int| 1 <= t < n ==> #[trigger] step_ok(d, large, p, t)
}

/// The `t`-th delta of the run at `p` is positive and the id it makes fits in
/// `u32`.
pub open spec fn step_ok(d: Seq<u8>, large: bool, p: int, t: int) -> bool {
    field(d, large, p + span(large, t)) > 0 && delta_id(d, large, p, t) <= u32::MAX
}

/// Where the metadata blob ends.
pub open spec fn meta_end(d: Seq<u8>) -> int {
    child_names_at(d) + if is_named(d) {
        4 * children_before(d, header_count(d) as int)
    } else {
        0
    }
}

/// The blob holds well-formed metadata: a known protocol, every section within
/// the bytes, and id runs that strictly increase.
pub open spec fn meta_fits(d: Seq<u8>) -> bool {
    &&& d.len() > 0
    &&& (d[0] == 5 || d[0] == 6)
    &&& flags_at(d) < d.len()
    &&& meta_end(d) <= d.len()
    &&& run_ok(d, is_large(d), ids_at(d), header_count(d) as int)
    &&& forall|k: int|
        0 <= k < header_count(d) ==> run_ok(
            d,
            is_large(d),
            children_at(d) + span(is_large(d), #[trigger] children_before(d, k)),
            child_count_of(d, k) as int,
        )
}

proof fn lemma_run_ok_extend(d: Seq<u8>, large: bool, p: int, n: int)
    requires
        0 <= n,
        run_ok(d, large, p, n),
        n >= 1 ==> field(d, large, p + span(large, n)) > 0,
        delta_id(d, large, p, n) <= u32::MAX,
    ensures
        run_ok(d, large, p, n + 1),
{
    assert forall|t: int| 1 <= t < n + 1 implies #[trigger] step_ok(d, large, p, t) by {
        if t < n {
            assert(step_ok(d, large, p, t));
        }
    }
}

proof fn lemma_sections_ordered(d: Seq<u8>)
    ensures
        flags_at(d) + 1 + span(is_large(d), 1) == ids_at(d),
        ids_at(d) + span(is_large(d), header_count(d) as int) == names_at(d),
        names_at(d) <= crcs_at(d),
        is_named(d) ==> names_at(d) + 4 * header_count(d) == crcs_at(d),
        crcs_at(d) + 4 * header_count(d) == versions_at(d),
        versions_at(d) + 4 * header_count(d) == counts_at(d),
        counts_at(d) + span(is_large(d), header_count(d) as int) == children_at(d),
        children_at(d) <= child_names_at(d),
        child_names_at(d) <= meta_end(d),
{
    lemma_children_before_nonneg(d, header_count(d) as int);
}

proof fn lemma_children_before_nonneg(d: Seq<u8>, b: int)
    ensures
        0 <= children_before(d, b),
    decreases b,
{
    if b > 0 {
        lemma_children_before_nonneg(d, b - 1);
    }
}

proof fn lemma_children_before_mono(d: Seq<u8>, a: int, b: int)
    requires
        0 <= a <= b,
    ensures
        0 <= children_before(d, a) <= children_before(d, b),
    decreases b - a,
{
    lemma_children_before_nonneg(d, a);
    if a < b {
        lemma_children_before_mono(d, a, b - 1);
    }
}

/// Reads a count or a delta: a `u32` where ids are large, else a `u16`.
fn read_width(buf: &mut Buffer, large: bool) -> (r: Result<u32, CacheError>)
    requires
        old(buf).wf(),
    ensures
        final(buf).wf(),
        final(buf).data@ == old(buf).data@,
        r is Ok ==> r->Ok_0 as nat == field(old(buf).data@, large, old(buf).pos as int)
            && final(buf).pos == old(buf).pos + span(large, 1),
        r is Err ==> r->Err_0 is EndOfInput && old(buf).pos + span(large, 1) > old(
            buf,
        ).data@.len(),
{
    if large {
        buf.try_get_u32()
    } else {
        let v = buf.try_get_u16()?;
        Ok(v as u32)
    }
}

/// Reads `n` delta-coded ids: the first is absolute, each next one adds a
/// delta. Fails with `Corrupt` where the ids do not strictly increase or
/// overflow.
fn read_deltas(buf: &mut Buffer, n: u32, large: bool) -> (r: Result<Vec<u32>, CacheError>)
    requires
        old(buf).wf(),
    ensures
        final(buf).wf(),
        final(buf).data@ == old(buf).data@,
        r matches Ok(v) ==> {
            &&& v@.len() == n
            &&& strictly_increasing(v@)
            &&& final(buf).pos == old(buf).pos + span(large, n as int)
            &&& forall|t: int|
                0 <= t < n ==> #[trigger] v@[t] as int == delta_id(
                    old(buf).data@,
                    large,
                    old(buf).pos as int,
                    t,
                )
            &&& run_ok(old(buf).data@, large, old(buf).pos as int, n as int)
        },
        r matches Err(e) ==> (e is EndOfInput && old(buf).pos + span(large, n as int) > old(
            buf,
        ).data@.len()) || (e is Corrupt && !run_ok(
            old(buf).data@,
            large,
            old(buf).pos as int,
            n as int,
        )),
{
    let ghost d = buf.data@;
    let ghost p0 = buf.pos as int;
    let mut ids: Vec<u32> = Vec::new();
    let mut i: u32 = 0;
    while i < n
        invariant
            buf.wf(),
            buf.data@ == d,
            d == old(buf).data@,
            p0 == old(buf).pos,
            buf.pos == p0 + span(large, i as int),
            i <= n,
            ids@.len() == i,
            strictly_increasing(ids@),
            forall|t: int| 0 <= t < i ==> #[trigger] ids@[t] as int == delta_id(d, large, p0, t),
            run_ok(d, large, p0, i as int),
        decreases n - i,
    {
        let delta = match read_width(buf, large) {
            Ok(v) => v,
            Err(e) => {
                assert(span(large, i as int + 1) <= span(large, n as int));
                return Err(e);
            },
        };
        let id = if i == 0 {
            delta
        } else {
            let prev = ids[ids.len() - 1];
            if delta == 0 || delta > u32::MAX - prev {
                assert(ids@[i - 1] as int == delta_id(d, large, p0, i - 1));
                assert(!run_ok(d, large, p0, n as int)) by {
                    let t = i as int;
                    assert(!step_ok(d, large, p0, t));
                    assert(delta_id(d, large, p0, t) == delta_id(d, large, p0, t - 1) + field(
                        d,
                        large,
                        p0 + span(large, t),
                    ));
                }
                return Err(CacheError::Corrupt);
            }
            prev + delta
        };
        proof {
            if i > 0 {
                assert(ids@[i - 1] as int == delta_id(d, large, p0, i - 1));
            }
            assert(id as int == delta_id(d, large, p0, i as int));
            if i > 0 {
                assert(delta as nat == field(d, large, p0 + span(large, i as int)));
            }
            lemma_run_ok_extend(d, large, p0, i as int);
            assert(run_ok(d, large, p0, i as int + 1));
        }
        ids.push(id);
        i = i + 1;
    }
    Ok(ids)
}

/// Reads `n` big-endian `u32`s.
fn read_u32s(buf: &mut Buffer, n: u32) -> (r: Result<Vec<u32>, CacheError>)
    requires
        old(buf).wf(),
    ensures
        final(buf).wf(),
        final(buf).data@ == old(buf).data@,
        r matches Ok(v) ==> {
            &&& v@.len() == n
            &&& final(buf).pos == old(buf).pos + 4 * n
            &&& forall|t: int|
                0 <= t < n ==> #[trigger] v@[t] as nat == be_at(
                    old(buf).data@,
                    old(buf).pos + 4 * t,
                    4,
                )
        },
        r matches Err(e) ==> e is EndOfInput && old(buf).pos + 4 * n > old(buf).data@.len(),
{
    let ghost d = buf.data@;
    let ghost p0 = buf.pos as int;
    let mut out: Vec<u32> = Vec::new();
    let mut i: u32 = 0;
    while i < n
        invariant
            buf.wf(),
            buf.data@ == d,
            d == old(buf).data@,
            p0 == old(buf).pos,
            buf.pos == p0 + 4 * i,
            i <= n,
            out@.len() == i,
            forall|t: int| 0 <= t < i ==> #[trigger] out@[t] as nat == be_at(d, p0 + 4 * t, 4),
        decreases n - i,
    {
        let v = buf.try_get_u32()?;
        out.push(v);
        i = i + 1;
    }
    Ok(out)
}

fn decode(index_id: u32, data: Vec<u8>) -> (r: Result<IndexMetadata, CacheError>)
    ensures
        match r {
            Ok(m) => {
                &&& m.wf_for(index_id)
                &&& data@.len() >= 4
                &&& (data@[0] == 5 || data@[0] == 6)
                &&& m.metadatas@.len() == header_count(data@)
                &&& forall|k: int|
                    0 <= k < m.metadatas@.len() ==> decoded(
                        data@,
                        index_id,
                        k,
                        #[trigger] m.metadatas@[k],
                    )
            },
            Err(_) => true,
        },
        r is Ok <==> meta_fits(data@),
{
    let ghost d = data@;
    let mut buf = Buffer::new(data);
    let protocol = buf.try_get_u8()?;
    if protocol != 5 && protocol != 6 {
        return Err(CacheError::Corrupt);
    }
    if protocol == 6 {
        let _version = buf.try_get_u32()?;
    }
    assert(buf.pos == flags_at(d));
    let flags = buf.try_get_u8()?;
    let named = flags % 2 == 1;
    let large = flags >= 0x80;
    assert(named == is_named(d) && large == is_large(d));
    proof {
        lemma_sections_ordered(d);
    }
    let count = read_width(&mut buf, large)?;
    assert(count == header_count(d));
    assert(buf.pos == ids_at(d));
    let ids = read_deltas(&mut buf, count, large)?;
    assert(buf.pos == names_at(d));
    let names = if named {
        Some(read_u32s(&mut buf, count)?)
    } else {
        None
    };
    assert(buf.pos == crcs_at(d));
    let crcs = read_u32s(&mut buf, count)?;
    let versions = read_u32s(&mut buf, count)?;
    assert(buf.pos == counts_at(d));
    let mut counts: Vec<u32> = Vec::new();
    let mut i: u32 = 0;
    while i < count
        invariant
            buf.wf(),
            buf.data@ == d,
            d == data@,
            large == is_large(d),
            count == header_count(d),
            buf.pos == counts_at(d) + span(large, i as int),
            counts_at(d) + span(large, count as int) == children_at(d),
            children_at(d) <= meta_end(d),
            i <= count,
            counts@.len() == i,
            forall|t: int| 0 <= t < i ==> #[trigger] counts@[t] as nat == child_count_of(d, t),
        decreases count - i,
    {
        let c = match read_width(&mut buf, large) {
            Ok(v) => v,
            Err(e) => {
                assert(span(large, i as int + 1) <= span(large, count as int));
                return Err(e);
            },
        };
        counts.push(c);
        i = i + 1;
    }
    let mut children: Vec<Vec<u32>> = Vec::new();
    i = 0;
    while i < count
        invariant
            buf.wf(),
            buf.data@ == d,
            d == data@,
            large == is_large(d),
            count == header_count(d),
            buf.pos == children_at(d) + span(large, children_before(d, i as int)),
            children_at(d) + span(large, children_before(d, count as int)) == child_names_at(d),
            child_names_at(d) <= meta_end(d),
            forall|k: int|
                0 <= k < i ==> run_ok(
                    d,
                    large,
                    children_at(d) + span(large, #[trigger] children_before(d, k)),
                    child_count_of(d, k) as int,
                ),
            i <= count,
            counts@.len() == count,
            forall|t: int| 0 <= t < count ==> #[trigger] counts@[t] as nat == child_count_of(d, t),
            children@.len() == i,
            forall|k: int|
                0 <= k < i ==> (#[trigger] children@[k])@.len() == counts@[k] && strictly_increasing(
                    children@[k]@,
                ) && forall|c: int|
                    0 <= c < counts@[k] ==> #[trigger] children@[k]@[c] as int == delta_id(
                        d,
                        large,
                        children_at(d) + span(large, children_before(d, k)),
                        c,
                    ),
        decreases count - i,
    {
        let ghost ci = counts@[i as int];
        let c = match read_deltas(&mut buf, counts[i as usize], large) {
            Ok(v) => v,
            Err(e) => {
                proof {
                    assert(children_before(d, i as int + 1) == children_before(d, i as int) + ci);
                    lemma_children_before_mono(d, i as int + 1, count as int);
                    if e is Corrupt {
                        assert(!run_ok(
                            d,
                            large,
                            children_at(d) + span(large, children_before(d, i as int)),
                            child_count_of(d, i as int) as int,
                        ));
                    }
                }
                return Err(e);
            },
        };
        children.push(c);
        i = i + 1;
    }
    assert(buf.pos == child_names_at(d));
    let mut child_names: Vec<Option<Vec<u32>>> = Vec::new();
    i = 0;
    while i < count
        invariant
            buf.wf(),
            buf.data@ == d,
            d == data@,
            large == is_large(d),
            count == header_count(d),
            named ==> buf.pos == child_names_at(d) + 4 * children_before(d, i as int),
            !named ==> buf.pos == child_names_at(d),
            named ==> meta_end(d) == child_names_at(d) + 4 * children_before(d, count as int),
            !named ==> meta_end(d) == child_names_at(d),
            run_ok(d, large, ids_at(d), count as int),
            forall|k: int|
                0 <= k < count ==> run_ok(
                    d,
                    large,
                    children_at(d) + span(large, #[trigger] children_before(d, k)),
                    child_count_of(d, k) as int,
                ),
            d.len() > 0,
            d[0] == 5 || d[0] == 6,
            flags_at(d) < d.len(),
            i <= count,
            counts@.len() == count,
            forall|t: int| 0 <= t < count ==> #[trigger] counts@[t] as nat == child_count_of(d, t),
            child_names@.len() == i,
            forall|k: int|
                0 <= k < i ==> (#[trigger] child_names@[k] is Some ==> child_names@[k]->Some_0@.len()
                    == counts@[k] && forall|c: int|
                    0 <= c < counts@[k] ==> #[trigger] child_names@[k]->Some_0@[c] as nat == be_at(
                        d,
                        child_names_at(d) + 4 * (children_before(d, k) + c),
                        4,
                    )) && (child_names@[k] is Some == named),
        decreases count - i,
    {
        if named {
            let ghost ci = counts@[i as int];
            let h = match read_u32s(&mut buf, counts[i as usize]) {
                Ok(v) => v,
                Err(e) => {
                    proof {
                        assert(children_before(d, i as int + 1) == children_before(d, i as int)
                            + ci);
                        lemma_children_before_mono(d, i as int + 1, count as int);
                    }
                    return Err(e);
                },
            };
            child_names.push(Some(h));
        } else {
            child_names.push(None);
        }
        i = i + 1;
    }
    assert(meta_fits(d));
    let mut metadatas: Vec<Metadata> = Vec::new();
    let mut rest_children = children;
    let mut rest_names = child_names;
    // Builds the records from the last one back, taking each child table out.
    let mut k: usize = count as usize;
    let ghost children0 = rest_children@;
    let ghost names0 = rest_names@;
    while k > 0
        invariant
            meta_fits(d),
            k <= count,
            large == is_large(d),
            named == is_named(d),
            count == header_count(d),
            ids@.len() == count,
            strictly_increasing(ids@),
            forall|t: int| 0 <= t < count ==> #[trigger] ids@[t] as int == delta_id(d, large, ids_at(d), t),
            crcs@.len() == count,
            forall|t: int| 0 <= t < count ==> #[trigger] crcs@[t] as nat == be_at(d, crcs_at(d) + 4 * t, 4),
            versions@.len() == count,
            forall|t: int|
                0 <= t < count ==> #[trigger] versions@[t] as nat == be_at(d, versions_at(d) + 4 * t, 4),
            counts@.len() == count,
            forall|t: int| 0 <= t < count ==> #[trigger] counts@[t] as nat == child_count_of(d, t),
            names is Some ==> names->Some_0@.len() == count && forall|t: int|
                0 <= t < count ==> #[trigger] names->Some_0@[t] as nat == be_at(d, names_at(d) + 4 * t, 4),
            names is Some == named,
            rest_children@.len() == k,
            rest_names@.len() == k,
            rest_children@ == children0.subrange(0, k as int),
            rest_names@ == names0.subrange(0, k as int),
            children0.len() == count,
            names0.len() == count,
            forall|t: int|
                0 <= t < count ==> (#[trigger] children0[t])@.len() == counts@[t]
                    && strictly_increasing(children0[t]@) && forall|c: int|
                    0 <= c < counts@[t] ==> #[trigger] children0[t]@[c] as int == delta_id(
                        d,
                        large,
                        children_at(d) + span(large, children_before(d, t)),
                        c,
                    ),
            forall|t: int|
                0 <= t < count ==> (#[trigger] names0[t] is Some ==> names0[t]->Some_0@.len()
                    == counts@[t] && forall|c: int|
                    0 <= c < counts@[t] ==> #[trigger] names0[t]->Some_0@[c] as nat == be_at(
                        d,
                        child_names_at(d) + 4 * (children_before(d, t) + c),
                        4,
                    )) && (names0[t] is Some == named),
            metadatas@.len() == count - k,
            forall|t: int|
                0 <= t < count - k ==> {
                    let m = #[trigger] metadatas@[t];
                    &&& m.wf()
                    &&& m.archive_id == ids@[count - 1 - t]
                    &&& decoded(d, index_id, count - 1 - t, m)
                },
        decreases k,
    {
        k = k - 1;
        let child_ids = rest_children.pop().unwrap();
        let child_name_hashes = rest_names.pop().unwrap();
        assert(child_ids == children0[k as int]);
        assert(child_name_hashes == names0[k as int]);
        let name_hash = match &names {
            Some(n) => Some(n[k]),
            None => None,
        };
        let m = Metadata {
            index_id,
            archive_id: ids[k],
            name_hash,
            crc: crcs[k],
            version: versions[k],
            child_count: counts[k],
            child_ids,
            child_name_hashes,
        };
        proof {
            assert(counts@[k as int] as nat == child_count_of(d, k as int));
            if named {
                let n = names->Some_0;
                assert(n@[k as int] as nat == be_at(d, names_at(d) + 4 * k, 4));
            }
            assert(decoded(d, index_id, k as int, m));
        }
        metadatas.push(m);
    }
    let ordered = reverse(metadatas);
    proof {
        assert forall|a: int, b: int|
            0 <= a < b < ordered@.len() implies (#[trigger] ordered@[a]).archive_id < (
            #[trigger] ordered@[b]).archive_id by {
            assert(ordered@[a] == metadatas@[count - 1 - a]);
            assert(ordered@[b] == metadatas@[count - 1 - b]);
        }
        assert forall|t: int| 0 <= t < ordered@.len() implies (#[trigger] ordered@[t]).wf()
            && ordered@[t].index_id == index_id && decoded(d, index_id, t, ordered@[t]) by {
            assert(ordered@[t] == metadatas@[count - 1 - t]);
        }
    }
    Ok(IndexMetadata { metadatas: ordered })
}

/// The records in the opposite order.
fn reverse(v: Vec<Metadata>) -> (r: Vec<Metadata>)
    ensures
        r@.len() == v@.len(),
        forall|t: int| 0 <= t < v@.len() ==> #[trigger] r@[t] == v@[v@.len() - 1 - t],
{
    let ghost v0 = v@;
    let mut rest = v;
    let mut out: Vec<Metadata> = Vec::new();
    while rest.len() > 0
        invariant
            rest@ == v0.subrange(0, rest@.len() as int),
            out@.len() + rest@.len() == v0.len(),
            forall|t: int| 0 <= t < out@.len() ==> #[trigger] out@[t] == v0[v0.len() - 1 - t],
        decreases rest@.len(),
    {
        let m = rest.pop().unwrap();
        out.push(m);
    }
    out
}

} // verus!
