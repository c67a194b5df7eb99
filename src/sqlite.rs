use vstd::prelude::*;
use crate::error::CacheError;
use crate::meta::Metadata;

verus! {

/// What a jcache stores beside an archive's data, as the
/// `(CRC, VERSION)` pair of its row.
pub type Stamp = (i64, i64);

/// The offset that a jcache adds to an index's metadata CRC.
pub open spec fn crc_offset_spec(index_id: u32) -> i64 {
    if index_id == 8 || index_id == 47 {
        2
    } else {
        1
    }
}

/// The offset that a jcache adds to the metadata CRC of index `index_id`
/// before it stores it.
pub fn crc_offset(index_id: u32) -> (r: i64)
    ensures
        r == crc_offset_spec(index_id),
{
    match index_id {
        8 | 47 => 2,
        _ => 1,
    }
}

/// The verdict on a stored stamp of archive `meta` in index `index_id`: an
/// empty slot (CRC and version both 0) is missing, then the CRC (with its
/// offset) and the version must match.
pub open spec fn check_stamp_spec(index_id: u32, meta: Metadata, crc: i64, version: i64) -> Result<
    (),
    CacheError,
> {
    let expected = (meta.crc as i64 + crc_offset_spec(index_id)) as i64;
    if crc == 0 && version == 0 {
        Err(CacheError::ArchiveNotFound(meta.index_id, meta.archive_id))
    } else if expected != crc {
        Err(CacheError::Crc(meta.index_id, meta.archive_id, expected, crc))
    } else if meta.version as i64 != version {
        Err(CacheError::Version(meta.index_id, meta.archive_id, meta.version as i64, version))
    } else {
        Ok(())
    }
}

/// Checks the stamp that a jcache row holds for archive `meta` against the
/// metadata.
pub fn check_stamp(index_id: u32, meta: &Metadata, crc: i64, version: i64) -> (r: Result<
    (),
    CacheError,
>)
    ensures
        r == check_stamp_spec(index_id, *meta, crc, version),
{
    let expected = meta.crc as i64 + crc_offset(index_id);
    if crc == 0 && version == 0 {
        Err(CacheError::ArchiveNotFound(meta.index_id, meta.archive_id))
    } else if expected != crc {
        Err(CacheError::Crc(meta.index_id, meta.archive_id, expected, crc))
    } else if meta.version as i64 != version {
        Err(CacheError::Version(meta.index_id, meta.archive_id, meta.version as i64, version))
    } else {
        Ok(())
    }
}

/// The verdict on a possibly absent row: no row is a missing archive.
pub open spec fn check_row_spec(index_id: u32, meta: Metadata, row: Option<Stamp>) -> Result<
    (),
    CacheError,
> {
    match row {
        None => Err(CacheError::ArchiveNotFound(meta.index_id, meta.archive_id)),
        Some((crc, version)) => check_stamp_spec(index_id, meta, crc, version),
    }
}

/// The verdict on the rows of the archives from position `k` on: the first
/// failure, or success.
pub open spec fn coherence_spec(
    index_id: u32,
    metas: Seq<Metadata>,
    rows: Seq<Option<Stamp>>,
    k: int,
) -> Result<(), CacheError>
    decreases metas.len() - k,
{
    if k < 0 || k >= metas.len() || k >= rows.len() {
        Ok(())
    } else {
        match check_row_spec(index_id, metas[k], rows[k]) {
            Err(e) => Err(e),
            Ok(()) => coherence_spec(index_id, metas, rows, k + 1),
        }
    }
}

/// The stamp that an untampered jcache stores for `meta`.
pub open spec fn faithful_stamp(index_id: u32, meta: Metadata) -> Stamp {
    ((meta.crc as i64 + crc_offset_spec(index_id)) as i64, meta.version as i64)
}

/// Where every row holds the stamp that the metadata implies and no slot is
/// empty, the rows are coherent.
pub proof fn lemma_untampered_is_coherent(
    index_id: u32,
    metas: Seq<Metadata>,
    rows: Seq<Option<Stamp>>,
    k: int,
)
    requires
        0 <= k,
        rows.len() == metas.len(),
        forall|t: int|
            0 <= t < metas.len() ==> rows[t] == Some(#[trigger] faithful_stamp(index_id, metas[t])),
        forall|t: int|
            0 <= t < metas.len() ==> !(#[trigger] metas[t].crc as i64 + crc_offset_spec(index_id)
                == 0 && metas[t].version == 0),
    ensures
        coherence_spec(index_id, metas, rows, k) is Ok,
    decreases metas.len() - k,
{
    if k < metas.len() {
        assert(rows[k] == Some(faithful_stamp(index_id, metas[k])));
        assert(!(metas[k].crc as i64 + crc_offset_spec(index_id) == 0 && metas[k].version == 0));
        lemma_untampered_is_coherent(index_id, metas, rows, k + 1);
    }
}

/// Where the rows are faithful but the version of archive `t` was raised by
/// one, the verdict is the version mismatch of that archive, with the expected
/// and the stored version.
pub proof fn lemma_tampered_version(
    index_id: u32,
    metas: Seq<Metadata>,
    rows: Seq<Option<Stamp>>,
    t: int,
)
    requires
        0 <= t < metas.len(),
        rows.len() == metas.len(),
        forall|u: int|
            0 <= u < metas.len() && u != t ==> rows[u] == Some(
                #[trigger] faithful_stamp(index_id, metas[u]),
            ),
        rows[t] == Some(
            (
                (metas[t].crc as i64 + crc_offset_spec(index_id)) as i64,
                (metas[t].version as i64 + 1) as i64,
            ),
        ),
        forall|u: int|
            0 <= u < metas.len() ==> !(#[trigger] metas[u].crc as i64 + crc_offset_spec(index_id)
                == 0 && metas[u].version == 0),
    ensures
        coherence_spec(index_id, metas, rows, 0) == Err::<(), CacheError>(
            CacheError::Version(
                metas[t].index_id,
                metas[t].archive_id,
                metas[t].version as i64,
                (metas[t].version as i64 + 1) as i64,
            ),
        ),
{
    lemma_prefix_passes(index_id, metas, rows, t, 0);
}

proof fn lemma_prefix_passes(
    index_id: u32,
    metas: Seq<Metadata>,
    rows: Seq<Option<Stamp>>,
    t: int,
    k: int,
)
    requires
        0 <= k <= t < metas.len(),
        rows.len() == metas.len(),
        forall|u: int|
            0 <= u < metas.len() && u != t ==> rows[u] == Some(
                #[trigger] faithful_stamp(index_id, metas[u]),
            ),
        rows[t] == Some(
            (
                (metas[t].crc as i64 + crc_offset_spec(index_id)) as i64,
                (metas[t].version as i64 + 1) as i64,
            ),
        ),
        forall|u: int|
            0 <= u < metas.len() ==> !(#[trigger] metas[u].crc as i64 + crc_offset_spec(index_id)
                == 0 && metas[u].version == 0),
    ensures
        coherence_spec(index_id, metas, rows, k) == coherence_spec(index_id, metas, rows, t),
        coherence_spec(index_id, metas, rows, t) == Err::<(), CacheError>(
            CacheError::Version(
                metas[t].index_id,
                metas[t].archive_id,
                metas[t].version as i64,
                (metas[t].version as i64 + 1) as i64,
            ),
        ),
    decreases t - k,
{
    assert(!(metas[t].crc as i64 + crc_offset_spec(index_id) == 0 && metas[t].version == 0));
    if k < t {
        assert(rows[k] == Some(faithful_stamp(index_id, metas[k])));
        assert(!(metas[k].crc as i64 + crc_offset_spec(index_id) == 0 && metas[k].version == 0));
        lemma_prefix_passes(index_id, metas, rows, t, k + 1);
    }
}

} // verus!
