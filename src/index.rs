use vstd::prelude::*;
use std::collections::BTreeMap;
use vstd::string::StringSliceAdditionalSpecFns;
use crate::arc::{split_fits, split_of, Archive};
use crate::dat::{catalog_spec, decode_map_index, MapsquareMeta};
use crate::decoder::{decompress, decompress_spec};
use crate::error::CacheError;
use crate::hash::{hash_archive, name_hash_spec};
use crate::meta::{decoded, header_count, meta_fits, IndexMetadata, Metadata};
use crate::sqlite::{check_stamp, check_stamp_spec, coherence_spec, Stamp};

verus! {

/// What a back-end hands over for one archive: the bytes of a legacy sector
/// chain, a jcache row (data, CRC, version), or the news that the jcache has
/// no row for it.
#[derive(Debug)]
pub enum Stored {
    Sectors(Vec<u8>),
    Row(Vec<u8>, i64, i64),
    NoRow,
}

/// A result with its bytes seen as a sequence.
pub open spec fn view_result(r: Result<Vec<u8>, CacheError>) -> Result<Seq<u8>, CacheError> {
    match r {
        Ok(v) => Ok(v@),
        Err(e) => Err(e),
    }
}

/// The decompressed payload of a stored container.
pub open spec fn decompressed(d: Seq<u8>) -> Result<Seq<u8>, CacheError> {
    match decompress_spec(d) {
        Some(o) => Ok(o),
        None => Err(CacheError::Decompression),
    }
}

/// The payload of archive `meta` in index `index_id`, from what the back-end
/// stored. Legacy index 0 keeps its nested container as it is; every other
/// legacy archive is decompressed. A jcache row is checked against the
/// metadata first.
pub open spec fn get_file_spec(index_id: u32, meta: Metadata, stored: Stored) -> Result<
    Seq<u8>,
    CacheError,
> {
    match stored {
        Stored::Sectors(d) => if meta.index_id == 0 {
            Ok(d@)
        } else {
            decompressed(d@)
        },
        Stored::NoRow => Err(CacheError::ArchiveNotFound(index_id, meta.archive_id)),
        Stored::Row(d, crc, version) => match check_stamp_spec(index_id, meta, crc, version) {
            Err(e) => Err(e),
            Ok(_) => decompressed(d@),
        },
    }
}

/// `k` is the first archive whose name hash is `hash`.
pub open spec fn first_named(metas: Seq<Metadata>, hash: u32, k: int) -> bool {
    &&& 0 <= k < metas.len()
    &&& metas[k].name_hash == Some(hash)
    &&& forall|t: int| 0 <= t < k ==> metas[t].name_hash != Some(hash)
}

/// An archive whose jcache row holds the stamp that its metadata implies, in a
/// slot that is not empty, and whose data decodes to a non-empty payload,
/// reads as that payload.
pub proof fn lemma_faithful_row_reads(
    index_id: u32,
    meta: Metadata,
    data: Vec<u8>,
    crc: i64,
    version: i64,
)
    requires
        (crc, version) == crate::sqlite::faithful_stamp(index_id, meta),
        !(crc == 0 && version == 0),
        decompress_spec(data@) is Some,
        decompress_spec(data@)->Some_0.len() > 0,
    ensures
        get_file_spec(index_id, meta, Stored::Row(data, crc, version)) == Ok::<Seq<u8>, CacheError>(
            decompress_spec(data@)->Some_0,
        ),
        get_file_spec(index_id, meta, Stored::Row(data, crc, version))->Ok_0.len() > 0,
{
}

/// The archive has a file whose name hash is that of `name`.
pub open spec fn names_file(a: Archive, name: Seq<u8>) -> bool {
    a.meta.child_name_hashes matches Some(h) && h@.contains(name_hash_spec(name))
}

/// The error for a file of the archive named `name` that is not there.
pub open spec fn missing_file(a: Archive, name: Seq<u8>) -> CacheError {
    CacheError::FileNotFound(a.meta.index_id, a.meta.archive_id, name_hash_spec(name))
}

/// The record `m` is that of archive `archive_id`.
pub open spec fn archive_in(m: Metadata, archive_id: u32) -> bool {
    m.archive_id == archive_id
}

/// One index of the cache, with its metadata.
#[derive(Debug)]
pub struct CacheIndex {
    pub index_id: u32,
    pub metadatas: IndexMetadata,
}

impl CacheIndex {
    pub open spec fn wf(&self) -> bool {
        self.metadatas.wf_for(self.index_id)
    }

    /// Opens index `index_id` from its stored metadata container: decompresses
    /// and decodes it.
    pub fn new(index_id: u32, metadata_blob: &[u8]) -> (r: Result<CacheIndex, CacheError>)
        ensures
            decompress_spec(metadata_blob@) is None ==> r == Err::<CacheIndex, CacheError>(
                CacheError::Decompression,
            ),
            decompress_spec(metadata_blob@) matches Some(raw) ==> match r {
                Ok(c) => {
                    &&& c.wf()
                    &&& c.index_id == index_id
                    &&& c.metadatas.metadatas@.len() == header_count(raw)
                    &&& forall|k: int|
                        0 <= k < c.metadatas.metadatas@.len() ==> decoded(
                            raw,
                            index_id,
                            k,
                            #[trigger] c.metadatas.metadatas@[k],
                        )
                },
                Err(e) => e is Corrupt,
            },
            decompress_spec(metadata_blob@) matches Some(raw) ==> (r is Ok <==> meta_fits(raw)),
    {
        let raw = decompress(metadata_blob)?;
        let metadatas = IndexMetadata::deserialize(index_id, raw)?;
        Ok(CacheIndex { index_id, metadatas })
    }

    pub fn index_id(&self) -> (r: u32)
        ensures
            r == self.index_id,
    {
        self.index_id
    }

    pub fn metadatas(&self) -> (r: &IndexMetadata)
        ensures
            r == &self.metadatas,
    {
        &self.metadatas
    }

    /// The payload of archive `meta` from what the back-end stored for it.
    pub fn get_file(&self, meta: &Metadata, stored: Stored) -> (r: Result<Vec<u8>, CacheError>)
        ensures
            view_result(r) == get_file_spec(self.index_id, *meta, stored),
    {
        match stored {
            Stored::Sectors(d) => {
                if meta.index_id == 0 {
                    Ok(d)
                } else {
                    decompress(d.as_slice())
                }
            },
            Stored::NoRow => Err(CacheError::ArchiveNotFound(self.index_id, meta.archive_id)),
            Stored::Row(d, crc, version) => {
                check_stamp(self.index_id, meta, crc, version)?;
                decompress(d.as_slice())
            },
        }
    }

    /// Archive `archive_id`, split into its files, from what the back-end
    /// stored for it.
    pub fn archive(&self, archive_id: u32, stored: Stored) -> (r: Result<Archive, CacheError>)
        requires
            self.wf(),
        ensures
            (forall|k: int|
                0 <= k < self.metadatas.metadatas@.len()
                    ==> self.metadatas.metadatas@[k].archive_id != archive_id) ==> r == Err::<
                Archive,
                CacheError,
            >(CacheError::ArchiveNotFound(self.index_id, archive_id)),
            r is Ok ==> exists|k: int|
                0 <= k < self.metadatas.metadatas@.len() && #[trigger] archive_in(
                    self.metadatas.metadatas@[k],
                    archive_id,
                ) && {
                    let m = self.metadatas.metadatas@[k];
                    &&& get_file_spec(self.index_id, m, stored) is Ok
                    &&& r->Ok_0.meta.equiv(&m)
                    &&& split_of(r->Ok_0, get_file_spec(self.index_id, m, stored)->Ok_0)
                },
            forall|k: int|
                0 <= k < self.metadatas.metadatas@.len() && #[trigger] archive_in(
                    self.metadatas.metadatas@[k],
                    archive_id,
                ) ==> match get_file_spec(self.index_id, self.metadatas.metadatas@[k], stored) {
                    Err(e) => r == Err::<Archive, CacheError>(e),
                    Ok(p) => if self.metadatas.metadatas@[k].child_count > 1 {
                        r is Ok <==> p.len() > 0 && split_fits(
                            p,
                            self.metadatas.metadatas@[k].child_count as int,
                        )
                    } else {
                        r is Ok
                    },
                },
    {
        let meta = match self.metadatas.get(archive_id) {
            Some(m) => m,
            None => return Err(CacheError::ArchiveNotFound(self.index_id, archive_id)),
        };
        let ghost metas = self.metadatas.metadatas@;
        proof {
            let k = choose|k: int|
                0 <= k < metas.len() && metas[k] == *meta && meta.archive_id == archive_id;
            assert(archive_in(metas[k], archive_id));
            assert forall|j: int| 0 <= j < metas.len() && #[trigger] archive_in(metas[j], archive_id)
                implies metas[j] == *meta by {
                if j < k {
                    assert(metas[j].archive_id < metas[k].archive_id);
                } else if j > k {
                    assert(metas[k].archive_id < metas[j].archive_id);
                }
            }
        }
        let data = self.get_file(meta, stored)?;
        Archive::new(meta.copy(), data)
    }

    /// The id of the first archive, in id order, whose name hash is the hash
    /// of `name`.
    pub fn archive_id_by_name(&self, name: &str) -> (r: Option<u32>)
        ensures
            match r {
                Some(id) => exists|k: int|
                    first_named(self.metadatas.metadatas@, name_hash_spec(name.spec_bytes()), k)
                        && self.metadatas.metadatas@[k].archive_id == id,
                None => forall|k: int|
                    0 <= k < self.metadatas.metadatas@.len()
                        ==> self.metadatas.metadatas@[k].name_hash != Some(
                        name_hash_spec(name.spec_bytes()),
                    ),
            },
    {
        let hash = hash_archive(name);
        match self.metadatas.find_by_name_hash(hash) {
            Some(m) => {
                proof {
                    let k = choose|k: int|
                        0 <= k < self.metadatas.metadatas@.len() && self.metadatas.metadatas@[k]
                            == *m && m.name_hash == Some(hash) && forall|t: int|
                            0 <= t < k ==> self.metadatas.metadatas@[t].name_hash != Some(hash);
                    assert(first_named(self.metadatas.metadatas@, hash, k));
                }
                Some(m.archive_id)
            },
            None => None,
        }
    }

    /// The payload of the first archive whose name hash is the hash of `name`,
    /// from what the back-end stored for it (see `archive_id_by_name`).
    pub fn archive_by_name(&self, name: &str, stored: Stored) -> (r: Result<Vec<u8>, CacheError>)
        ensures
            (forall|k: int|
                0 <= k < self.metadatas.metadatas@.len()
                    ==> self.metadatas.metadatas@[k].name_hash != Some(
                    name_hash_spec(name.spec_bytes()),
                )) ==> r == Err::<Vec<u8>, CacheError>(CacheError::ArchiveNotFound(0, 0)),
            (exists|k: int|
                0 <= k < self.metadatas.metadatas@.len()
                    && self.metadatas.metadatas@[k].name_hash == Some(
                    name_hash_spec(name.spec_bytes()),
                )) ==> exists|k: int|
                first_named(self.metadatas.metadatas@, name_hash_spec(name.spec_bytes()), k)
                    && view_result(r) == get_file_spec(
                    self.index_id,
                    self.metadatas.metadatas@[k],
                    stored,
                ),
    {
        let hash = hash_archive(name);
        match self.metadatas.find_by_name_hash(hash) {
            Some(m) => {
                let r = self.get_file(m, stored);
                proof {
                    let k = choose|k: int|
                        0 <= k < self.metadatas.metadatas@.len() && self.metadatas.metadatas@[k]
                            == *m && m.name_hash == Some(hash) && forall|t: int|
                            0 <= t < k ==> self.metadatas.metadatas@[t].name_hash != Some(hash);
                    assert(first_named(self.metadatas.metadatas@, hash, k));
                }
                r
            },
            None => Err(CacheError::ArchiveNotFound(0, 0)),
        }
    }

    /// Checks the stored stamp of every archive, in id order, against the
    /// metadata; `rows[k]` is the jcache row of the `k`-th archive. Gives the
    /// first mismatch.
    pub fn assert_coherence(&self, rows: &Vec<Option<Stamp>>) -> (r: Result<(), CacheError>)
        requires
            rows@.len() == self.metadatas.metadatas@.len(),
        ensures
            r == coherence_spec(self.index_id, self.metadatas.metadatas@, rows@, 0),
    {
        let n = self.metadatas.metadatas.len();
        let mut k: usize = 0;
        while k < n
            invariant
                n == self.metadatas.metadatas@.len(),
                rows@.len() == n,
                k <= n,
                coherence_spec(self.index_id, self.metadatas.metadatas@, rows@, 0)
                    == coherence_spec(self.index_id, self.metadatas.metadatas@, rows@, k as int),
            decreases n - k,
        {
            let meta = &self.metadatas.metadatas[k];
            match rows[k] {
                None => {
                    return Err(CacheError::ArchiveNotFound(meta.index_id, meta.archive_id));
                },
                Some((crc, version)) => {
                    check_stamp(self.index_id, meta, crc, version)?;
                },
            }
            k = k + 1;
        }
        Ok(())
    }

    /// The map catalog of this index (the map index, 4), read from the catalog
    /// archive (archive 5 of index 0): its file named `"map_index"`, decoded.
    /// The files `"map_version"` and `"map_crc"` must be present too.
    pub fn get_index(&self, catalog: &Archive) -> (r: Result<BTreeMap<(u8, u8), MapsquareMeta>, CacheError>)
        requires
            self.index_id == 4,
            catalog.wf(),
        ensures
            r is Ok <==> names_file(*catalog, "map_index".spec_bytes()) && names_file(
                *catalog,
                "map_version".spec_bytes(),
            ) && names_file(*catalog, "map_crc".spec_bytes()),
            !names_file(*catalog, "map_index".spec_bytes()) ==> r == Err::<
                BTreeMap<(u8, u8), MapsquareMeta>,
                CacheError,
            >(missing_file(*catalog, "map_index".spec_bytes())),
            names_file(*catalog, "map_index".spec_bytes()) && !names_file(
                *catalog,
                "map_version".spec_bytes(),
            ) ==> r == Err::<BTreeMap<(u8, u8), MapsquareMeta>, CacheError>(
                missing_file(*catalog, "map_version".spec_bytes()),
            ),
            names_file(*catalog, "map_index".spec_bytes()) && names_file(
                *catalog,
                "map_version".spec_bytes(),
            ) && !names_file(*catalog, "map_crc".spec_bytes()) ==> r == Err::<
                BTreeMap<(u8, u8), MapsquareMeta>,
                CacheError,
            >(missing_file(*catalog, "map_crc".spec_bytes())),
            r is Ok ==> exists|t: int|
                0 <= t < catalog.files@.len() && (catalog.meta.child_name_hashes matches Some(h)
                    && h@[t] == name_hash_spec("map_index".spec_bytes()))
                    && r->Ok_0@ == catalog_spec(
                    catalog.files@[t]@,
                    catalog.files@[t]@.len() / 7,
                ),
    {
        let index = catalog.file_named("map_index")?;
        let _versions = catalog.file_named("map_version")?;
        let _crcs = catalog.file_named("map_crc")?;
        Ok(decode_map_index(index.as_slice()))
    }
}

} // verus!
