use vstd::prelude::*;
use crate::buf::{read_u32_at, slice_to_vec, be_at, signed32};
use crate::error::CacheError;
use crate::hash::{hash_archive, name_hash_spec};
use crate::meta::Metadata;
use vstd::string::StringSliceAdditionalSpecFns;

verus! {

/// The total length of a sequence of byte vectors.
pub open spec fn sum_lens(s: Seq<Vec<u8>>) -> nat
    decreases s.len(),
{
    if s.len() == 0 {
        0
    } else {
        sum_lens(s.drop_last()) + s.last()@.len()
    }
}

/// Replacing one element changes the total length by the difference.
proof fn lemma_sum_lens_update(s: Seq<Vec<u8>>, f: int, v: Vec<u8>)
    requires
        0 <= f < s.len(),
    ensures
        sum_lens(s.update(f, v)) + s[f]@.len() == sum_lens(s) + v@.len(),
    decreases s.len(),
{
    let u = s.update(f, v);
    if f == s.len() - 1 {
        assert(u.drop_last() =~= s.drop_last());
    } else {
        assert(u.drop_last() =~= s.drop_last().update(f, v));
        lemma_sum_lens_update(s.drop_last(), f, v);
    }
}

/// A run of empty vectors has no length.
proof fn lemma_sum_lens_empty(s: Seq<Vec<u8>>)
    requires
        forall|t: int| 0 <= t < s.len() ==> (#[trigger] s[t])@.len() == 0,
    ensures
        sum_lens(s) == 0,
    decreases s.len(),
{
    if s.len() > 0 {
        lemma_sum_lens_empty(s.drop_last());
    }
}

/// The bytes after the file bodies when an archive holds several files: the
/// size table of `chunks * count` four-byte deltas and the chunk-count byte.
pub open spec fn trailer_len(data: Seq<u8>, count: nat) -> int {
    1 + 4 * count * data.last() as int
}

/// The size delta of entry `e` of the size table at `table_at`.
pub open spec fn table_delta(d: Seq<u8>, table_at: int, e: int) -> int {
    signed32(be_at(d, table_at + 4 * e, 4))
}

/// The size of the slice of entry `e` (chunk `e / k`, child `e % k`): the
/// running sum of the deltas of its chunk up to it.
pub open spec fn slice_size(d: Seq<u8>, table_at: int, k: int, e: int) -> int
    decreases e,
{
    if e < 0 {
        0
    } else if e == 0 || e % k == 0 {
        table_delta(d, table_at, e)
    } else {
        slice_size(d, table_at, k, e - 1) + table_delta(d, table_at, e)
    }
}

/// Where the slice of entry `e` starts: after the slices of all entries before it.
pub open spec fn slice_start(d: Seq<u8>, table_at: int, k: int, e: int) -> int
    decreases e,
{
    if e <= 0 {
        0
    } else {
        slice_start(d, table_at, k, e - 1) + slice_size(d, table_at, k, e - 1)
    }
}

/// The bytes of file `f` that the entries before `e` contribute: its slice of
/// each chunk, in chunk order.
pub open spec fn file_upto(d: Seq<u8>, table_at: int, k: int, f: int, e: int) -> Seq<u8>
    decreases e,
{
    if e <= 0 {
        Seq::empty()
    } else {
        file_upto(d, table_at, k, f, e - 1) + if (e - 1) % k == f {
            d.subrange(
                slice_start(d, table_at, k, e - 1),
                slice_start(d, table_at, k, e - 1) + slice_size(d, table_at, k, e - 1),
            )
        } else {
            Seq::empty()
        }
    }
}

/// The size table of a payload of `k` files describes slices that fit: the
/// table lies within the payload, no running size is negative, every slice
/// ends within the bodies, and the slices fill the bodies exactly.
pub open spec fn split_fits(d: Seq<u8>, k: int) -> bool {
    let chunks = d.last() as int;
    let table_at = d.len() - trailer_len(d, k as nat);
    &&& table_at >= 0
    &&& forall|e: int|
        0 <= e < chunks * k ==> 0 <= #[trigger] slice_size(d, table_at, k, e) && slice_start(
            d,
            table_at,
            k,
            e,
        ) + slice_size(d, table_at, k, e) <= table_at
    &&& slice_start(d, table_at, k, chunks * k) == table_at
}

/// `a` is the payload `p` split into files as its record describes: with one
/// child the whole payload, with several each file's slices in chunk order,
/// with none no file.
pub open spec fn split_of(a: Archive, p: Seq<u8>) -> bool {
    let k = a.meta.child_count;
    &&& a.wf()
    &&& k == 0 ==> a.files@.len() == 0
    &&& k == 1 ==> a.files@.len() == 1 && a.files@[0]@ == p
    &&& k > 1 ==> p.len() > 0 && sum_lens(a.files@) == p.len() - trailer_len(p, k as nat)
        && forall|f: int|
        0 <= f < k ==> (#[trigger] a.files@[f])@ == file_upto(
            p,
            p.len() - trailer_len(p, k as nat),
            k as int,
            f,
            k * p.last(),
        )
}

/// A decompressed archive together with its record, split into its files.
#[derive(Debug)]
pub struct Archive {
    pub meta: Metadata,
    /// The child id of each file.
    pub ids: Vec<u32>,
    /// The bytes of each file, in the order of `ids`.
    pub files: Vec<Vec<u8>>,
}

/// An archive with a single child holds one file, under child id 0: `file(0)`
/// finds it and every other child id is not found.
pub proof fn lemma_single_child(a: &Archive)
    requires
        a.wf(),
        a.meta.child_count == 1,
    ensures
        a.ids@ == seq![0u32],
        a.files@.len() == 1,
        forall|c: u32| c != 0 ==> !a.ids@.contains(c),
{
    assert forall|c: u32| c != 0 implies !a.ids@.contains(c) by {
        if a.ids@.contains(c) {
            let t = choose|t: int| 0 <= t < a.ids@.len() && a.ids@[t] == c;
            assert(a.ids@[t] == 0);
        }
    }
}

/// Appends `src[start..end]` to `dst`.
fn append_range(dst: &mut Vec<u8>, src: &[u8], start: usize, end: usize)
    requires
        start <= end <= src@.len(),
    ensures
        final(dst)@ == old(dst)@ + src@.subrange(start as int, end as int),
{
    let mut i: usize = start;
    while i < end
        invariant
            start <= i <= end <= src@.len(),
            dst@ == old(dst)@ + src@.subrange(start as int, i as int),
        decreases end - i,
    {
        dst.push(src[i]);
        i = i + 1;
        assert(dst@ =~= old(dst)@ + src@.subrange(start as int, i as int));
    }
}

impl Archive {
    pub open spec fn wf(&self) -> bool {
        &&& self.meta.wf()
        &&& self.ids@.len() == self.files@.len()
        &&& self.meta.child_count == 1 ==> self.ids@ == seq![0u32]
        &&& self.meta.child_count != 1 ==> self.ids@ == self.meta.child_ids@
    }

    /// Splits the decompressed payload `data` of the archive that `meta`
    /// describes into its files.
    ///
    /// With one child the whole payload is file 0. With several, the last byte
    /// counts the chunks; before it, a table of `chunks * count` signed deltas,
    /// chunk by chunk and child by child, whose running sums within a chunk are
    /// the sizes of that chunk's slice of each file; the bodies fill the rest in
    /// the same order. A negative size, or slices that do not fill the bodies
    /// exactly, is `Corrupt`.
    #[verifier::rlimit(60)]
    pub fn new(meta: Metadata, data: Vec<u8>) -> (r: Result<Archive, CacheError>)
        requires
            meta.wf(),
        ensures
            match r {
                Ok(a) => a.meta == meta && split_of(a, data@),
                Err(e) => e is Corrupt && meta.child_count > 1,
            },
            meta.child_count > 1 ==> (r is Ok <==> data@.len() > 0 && split_fits(
                data@,
                meta.child_count as int,
            )),
    {
        let k = meta.child_count;
        if k == 1 {
            let ids: Vec<u32> = vec![0u32];
            let ghost d = data@;
            let mut files: Vec<Vec<u8>> = Vec::new();
            files.push(data);
            assert(ids@ =~= seq![0u32]);
            assert(files@[0]@ == d);
            return Ok(Archive { meta, ids, files });
        }
        let ids = crate::meta::copy_ids(meta.child_ids.as_slice());
        let mut files: Vec<Vec<u8>> = Vec::new();
        let mut f: u32 = 0;
        while f < k
            invariant
                f <= k,
                k == meta.child_count,
                k != 1,
                meta.wf(),
                ids@ == meta.child_ids@,
                files@.len() == f,
                forall|t: int| 0 <= t < f ==> (#[trigger] files@[t])@.len() == 0,
            decreases k - f,
        {
            files.push(Vec::new());
            f = f + 1;
        }
        proof {
            lemma_sum_lens_empty(files@);
        }
        if k == 0 {
            return Ok(Archive { meta, ids, files });
        }
        let n = data.len();
        if n == 0 {
            return Err(CacheError::Corrupt);
        }
        let chunks = data[n - 1];
        assert((chunks as u64) * (k as u64) * 4 <= 255 * 0xFFFF_FFFF * 4) by (nonlinear_arith)
            requires
                chunks <= 255,
                k <= 0xFFFF_FFFF,
        ;
        let table = (chunks as u64) * (k as u64) * 4;
        proof {
            assert(4 * (k as int) * (chunks as int) == (chunks as int) * (k as int) * 4)
                by (nonlinear_arith);
        }
        if table > (n - 1) as u64 {
            return Err(CacheError::Corrupt);
        }
        let body_end = n - 1 - table as usize;
        proof {
            assert(4 * (k as int) * (chunks as int) == (chunks as int) * (k as int) * 4)
                by (nonlinear_arith);
            assert forall|t: int| 0 <= t < k implies (#[trigger] files@[t])@ == file_upto(
                data@,
                body_end as int,
                k as int,
                t,
                0,
            ) by {
                assert(files@[t]@ =~= Seq::<u8>::empty());
            }
        }
        let mut offset: usize = 0;
        let mut pos: usize = body_end;
        let mut c: u8 = 0;
        let ghost mut e: int = 0;
        while c < chunks
            invariant
                c <= chunks,
                files@.len() == k,
                k == meta.child_count,
                k > 1,
                meta.wf(),
                ids@ == meta.child_ids@,
                n == data@.len(),
                chunks == data@.last(),
                n - 1 - body_end == table,
                table == (chunks as int) * (k as int) * 4,
                body_end == data@.len() - trailer_len(data@, k as nat),
                body_end < n,
                offset <= body_end,
                e == (c as int) * (k as int),
                pos == body_end + 4 * e,
                forall|x: int|
                    0 <= x < e ==> 0 <= #[trigger] slice_size(data@, body_end as int, k as int, x)
                        && slice_start(data@, body_end as int, k as int, x) + slice_size(
                        data@,
                        body_end as int,
                        k as int,
                        x,
                    ) <= body_end,
                offset == slice_start(data@, body_end as int, k as int, e),
                sum_lens(files@) == offset,
                forall|t: int|
                    0 <= t < k ==> (#[trigger] files@[t])@ == file_upto(
                        data@,
                        body_end as int,
                        k as int,
                        t,
                        e,
                    ),
            decreases chunks - c,
        {
            let mut size: i128 = 0;
            let mut g: u32 = 0;
            while g < k
                invariant
                    g <= k,
                    files@.len() == k,
                    k == meta.child_count,
                    k > 1,
                    n == data@.len(),
                    body_end < n,
                    offset <= body_end,
                    c < chunks,
                    chunks == data@.last(),
                    table == (chunks as int) * (k as int) * 4,
                    n - 1 - body_end == table,
                    e == (c as int) * (k as int) + g,
                    pos == body_end + 4 * e,
                    body_end == data@.len() - trailer_len(data@, k as nat),
                    forall|x: int|
                        0 <= x < e ==> 0 <= #[trigger] slice_size(data@, body_end as int, k as int, x)
                            && slice_start(data@, body_end as int, k as int, x) + slice_size(
                            data@,
                            body_end as int,
                            k as int,
                            x,
                        ) <= body_end,
                    size == if g == 0 {
                        0
                    } else {
                        slice_size(data@, body_end as int, k as int, e - 1)
                    },
                    0 <= size <= n,
                    offset == slice_start(data@, body_end as int, k as int, e),
                    sum_lens(files@) == offset,
                    forall|t: int|
                        0 <= t < k ==> (#[trigger] files@[t])@ == file_upto(
                            data@,
                            body_end as int,
                            k as int,
                            t,
                            e,
                        ),
                decreases k - g,
            {
                assert((c as int) * (k as int) + g < (chunks as int) * (k as int))
                    by (nonlinear_arith)
                    requires
                        c < chunks,
                        g < k,
                ;
                let raw = read_u32_at(data.as_slice(), pos);
                let delta: i128 = if raw < 0x8000_0000 {
                    raw as i128
                } else {
                    raw as i128 - 0x1_0000_0000
                };
                proof {
                    vstd::arithmetic::div_mod::lemma_mod_multiples_vanish(c as int, g as int, k as int);
                    vstd::arithmetic::div_mod::lemma_small_mod(g as nat, k as nat);
                    assert(e % (k as int) == g);
                }
                pos = pos + 4;
                size = size + delta;
                if size < 0 || size > (body_end - offset) as i128 {
                    proof {
                        assert(size == slice_size(data@, body_end as int, k as int, e));
                        assert(!split_fits(data@, k as int));
                    }
                    return Err(CacheError::Corrupt);
                }
                let len = size as usize;
                let ghost files_before = files@;
                let mut cur = files.remove(g as usize);
                let ghost old_files = files@.insert(g as int, cur);
                assert(old_files =~= files_before);
                append_range(&mut cur, data.as_slice(), offset, offset + len);
                files.insert(g as usize, cur);
                proof {
                    assert(files@ =~= old_files.update(g as int, cur));
                    lemma_sum_lens_update(old_files, g as int, cur);
                    assert forall|t: int| 0 <= t < k implies (#[trigger] files@[t])@ == file_upto(
                        data@,
                        body_end as int,
                        k as int,
                        t,
                        e + 1,
                    ) by {
                        if t != g {
                            assert(files@[t] == files_before[t]);
                        }
                    }
                    e = e + 1;
                }
                offset = offset + len;
                g = g + 1;
            }
            assert((c as int) * (k as int) + k == (c as int + 1) * (k as int)) by (nonlinear_arith);
            c = c + 1;
        }
        if offset != body_end {
            proof {
                assert((chunks as int) * (k as int) == data@.last() as int * (k as int));
            }
            return Err(CacheError::Corrupt);
        }
        assert((chunks as int) * (k as int) == (k as int) * (chunks as int)) by (nonlinear_arith);
        Ok(Archive { meta, ids, files })
    }

    /// The id of the archive.
    pub fn archive_id(&self) -> (r: u32)
        ensures
            r == self.meta.archive_id,
    {
        self.meta.archive_id
    }

    /// The bytes of the file with child id `child_id`.
    pub fn file(&self, child_id: u32) -> (r: Result<Vec<u8>, CacheError>)
        requires
            self.wf(),
        ensures
            match r {
                Ok(v) => exists|t: int|
                    0 <= t < self.ids@.len() && self.ids@[t] == child_id && v@
                        == self.files@[t]@,
                Err(e) => e == CacheError::FileNotFound(
                    self.meta.index_id,
                    self.meta.archive_id,
                    child_id,
                ) && !self.ids@.contains(child_id),
            },
    {
        let mut t: usize = 0;
        while t < self.ids.len()
            invariant
                self.wf(),
                t <= self.ids@.len(),
                forall|u: int| 0 <= u < t ==> self.ids@[u] != child_id,
            decreases self.ids@.len() - t,
        {
            if self.ids[t] == child_id {
                return Ok(slice_to_vec(self.files[t].as_slice()));
            }
            t = t + 1;
        }
        Err(CacheError::FileNotFound(self.meta.index_id, self.meta.archive_id, child_id))
    }

    /// The bytes of the file whose child name hash is the hash of `name`.
    pub fn file_named(&self, name: &str) -> (r: Result<Vec<u8>, CacheError>)
        requires
            self.wf(),
        ensures
            match r {
                Ok(v) => exists|t: int|
                    0 <= t < self.files@.len() && v@ == self.files@[t]@ && (
                    self.meta.child_name_hashes matches Some(h) && h@[t] == name_hash_spec(
                        name.spec_bytes(),
                    )),
                Err(e) => e == CacheError::FileNotFound(
                    self.meta.index_id,
                    self.meta.archive_id,
                    name_hash_spec(name.spec_bytes()),
                ) && (self.meta.child_name_hashes matches Some(h) ==> !h@.contains(
                    name_hash_spec(name.spec_bytes()),
                )),
            },
    {
        let hash = hash_archive(name);
        let missing = CacheError::FileNotFound(self.meta.index_id, self.meta.archive_id, hash);
        match &self.meta.child_name_hashes {
            None => Err(missing),
            Some(h) => {
                let mut t: usize = 0;
                while t < h.len()
                    invariant
                        self.wf(),
                        self.meta.child_name_hashes == Some(*h),
                        hash == name_hash_spec(name.spec_bytes()),
                        t <= h@.len(),
                        forall|u: int| 0 <= u < t ==> h@[u] != hash,
                    decreases h@.len() - t,
                {
                    if h[t] == hash {
                        assert(self.ids@.len() == self.meta.child_count);
                        let v = slice_to_vec(self.files[t].as_slice());
                        assert(v@ == self.files@[t as int]@);
                        assert(0 <= t < self.files@.len() && v@ == self.files@[t as int]@ && (
                        self.meta.child_name_hashes matches Some(hh) && hh@[t as int]
                            == name_hash_spec(name.spec_bytes())));
                        return Ok(v);
                    }
                    t = t + 1;
                }
                Err(missing)
            },
        }
    }

    /// Gives up the files, each with its child id.
    pub fn take_files(self) -> (r: (Vec<u32>, Vec<Vec<u8>>))
        ensures
            r.0 == self.ids,
            r.1 == self.files,
    {
        (self.ids, self.files)
    }
}

} // verus!
