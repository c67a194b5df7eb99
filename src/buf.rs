use vstd::prelude::*;
use crate::error::CacheError;

verus! {

/// The unsigned big-endian value of a byte string.
pub open spec fn be_value(s: Seq<u8>) -> nat
    decreases s.len(),
{
    if s.len() == 0 {
        0
    } else {
        be_value(s.drop_last()) * 256 + s.last() as nat
    }
}

/// `256` to the power `n`.
pub open spec fn pow256(n: nat) -> nat
    decreases n,
{
    if n == 0 {
        1
    } else {
        256 * pow256((n - 1) as nat)
    }
}

/// A big-endian value of `n` bytes is below `256^n`.
pub(crate) proof fn lemma_be_value_bound(s: Seq<u8>)
    ensures
        be_value(s) < pow256(s.len()),
    decreases s.len(),
{
    if s.len() > 0 {
        lemma_be_value_bound(s.drop_last());
    }
}

/// `256^n` grows with `n`.
proof fn lemma_pow256_mono(a: nat, b: nat)
    requires
        a <= b,
    ensures
        pow256(a) <= pow256(b),
    decreases b,
{
    if a < b {
        lemma_pow256_mono(a, (b - 1) as nat);
    }
}

/// An in-memory byte sequence with a read cursor.
pub struct Buffer {
    pub data: Vec<u8>,
    pub pos: usize,
}

impl Buffer {
    /// The bytes from `pos` on, the part that is left to read.
    pub open spec fn remaining_spec(&self) -> Seq<u8> {
        self.data@.subrange(self.pos as int, self.data@.len() as int)
    }

    pub open spec fn wf(&self) -> bool {
        self.pos <= self.data@.len()
    }

    /// The `n` bytes at the cursor.
    pub open spec fn ahead(&self, n: nat) -> Seq<u8> {
        self.data@.subrange(self.pos as int, self.pos + n)
    }

    /// A reader at the start of `data`.
    pub fn new(data: Vec<u8>) -> (r: Buffer)
        ensures
            r.data@ == data@,
            r.pos == 0,
            r.wf(),
    {
        Buffer { data, pos: 0 }
    }

    /// The number of bytes left to read.
    pub fn remaining(&self) -> (r: usize)
        requires
            self.wf(),
        ensures
            r == self.data@.len() - self.pos,
    {
        self.data.len() - self.pos
    }

    /// Reads `n` bytes (1 to 8) as a zero-extended big-endian integer.
    /// Fails with `EndOfInput`, and moves nothing, when fewer than `n` bytes are left.
    pub fn try_get_uint(&mut self, n: usize) -> (r: Result<u64, CacheError>)
        requires
            old(self).wf(),
            1 <= n <= 8,
        ensures
            final(self).wf(),
            final(self).data@ == old(self).data@,
            old(self).pos + n <= old(self).data@.len() ==> {
                &&& r is Ok
                &&& r->Ok_0 as nat == be_value(old(self).ahead(n as nat))
                &&& final(self).pos == old(self).pos + n
            },
            old(self).pos + n > old(self).data@.len() ==> {
                &&& r is Err
                &&& r->Err_0 is EndOfInput
                &&& final(self).pos == old(self).pos
            },
    {
        if n > self.data.len() - self.pos {
            return Err(CacheError::EndOfInput);
        }
        let start = self.pos;
        let mut v: u64 = 0;
        let mut i: usize = 0;
        while i < n
            invariant
                self.wf(),
                self.pos == start,
                start + n <= self.data@.len(),
                self.data@.len() <= usize::MAX,
                n <= 8,
                i <= n,
                v as nat == be_value(self.data@.subrange(start as int, start + i)),
            decreases n - i,
        {
            let b = self.data[start + i];
            proof {
                let s = self.data@.subrange(start as int, start + i + 1);
                assert(s.drop_last() =~= self.data@.subrange(start as int, start + i));
                lemma_be_value_bound(self.data@.subrange(start as int, start + i));
                lemma_pow256_mono(i as nat, 7);
                reveal_with_fuel(pow256, 9);
                assert(pow256(7) == 0x100_0000_0000_0000);
            }
            v = v * 256 + b as u64;
            i = i + 1;
        }
        self.pos = start + n;
        Ok(v)
    }

    /// Reads one byte.
    pub fn try_get_u8(&mut self) -> (r: Result<u8, CacheError>)
        requires
            old(self).wf(),
        ensures
            final(self).wf(),
            final(self).data@ == old(self).data@,
            old(self).pos < old(self).data@.len() ==> r == Ok::<u8, CacheError>(
                old(self).data@[old(self).pos as int],
            ) && final(self).pos == old(self).pos + 1,
            old(self).pos >= old(self).data@.len() ==> r is Err && r->Err_0 is EndOfInput
                && final(self).pos == old(self).pos,
    {
        if self.pos >= self.data.len() {
            return Err(CacheError::EndOfInput);
        }
        let b = self.data[self.pos];
        self.pos = self.pos + 1;
        Ok(b)
    }

    /// Reads a big-endian `u16`.
    pub fn try_get_u16(&mut self) -> (r: Result<u16, CacheError>)
        requires
            old(self).wf(),
        ensures
            final(self).wf(),
            final(self).data@ == old(self).data@,
            old(self).pos + 2 <= old(self).data@.len() ==> r is Ok && r->Ok_0 as nat == be_value(
                old(self).ahead(2),
            ) && final(self).pos == old(self).pos + 2,
            old(self).pos + 2 > old(self).data@.len() ==> r is Err && r->Err_0 is EndOfInput
                && final(self).pos == old(self).pos,
    {
        let v = self.try_get_uint(2)?;
        proof {
            lemma_be_value_bound(old(self).ahead(2));
            reveal_with_fuel(pow256, 9);
                assert(pow256(2) == 0x1_0000);
        }
        Ok(v as u16)
    }

    /// Reads a big-endian `u32`.
    pub fn try_get_u32(&mut self) -> (r: Result<u32, CacheError>)
        requires
            old(self).wf(),
        ensures
            final(self).wf(),
            final(self).data@ == old(self).data@,
            old(self).pos + 4 <= old(self).data@.len() ==> r is Ok && r->Ok_0 as nat == be_value(
                old(self).ahead(4),
            ) && final(self).pos == old(self).pos + 4,
            old(self).pos + 4 > old(self).data@.len() ==> r is Err && r->Err_0 is EndOfInput
                && final(self).pos == old(self).pos,
    {
        let v = self.try_get_uint(4)?;
        proof {
            lemma_be_value_bound(old(self).ahead(4));
            reveal_with_fuel(pow256, 9);
                assert(pow256(4) == 0x1_0000_0000);
        }
        Ok(v as u32)
    }

    /// Reads a big-endian two's-complement `i32`.
    pub fn try_get_i32(&mut self) -> (r: Result<i32, CacheError>)
        requires
            old(self).wf(),
        ensures
            final(self).wf(),
            final(self).data@ == old(self).data@,
            old(self).pos + 4 <= old(self).data@.len() ==> r is Ok && r->Ok_0 as int == signed32(
                be_value(old(self).ahead(4)),
            ) && final(self).pos == old(self).pos + 4,
            old(self).pos + 4 > old(self).data@.len() ==> r is Err && r->Err_0 is EndOfInput
                && final(self).pos == old(self).pos,
    {
        let v = self.try_get_u32()?;
        if v < 0x8000_0000 {
            Ok(v as i32)
        } else {
            Ok(((v - 0x8000_0000) as i32) + i32::MIN)
        }
    }

    /// Reads a big-endian `u64`.
    pub fn try_get_u64(&mut self) -> (r: Result<u64, CacheError>)
        requires
            old(self).wf(),
        ensures
            final(self).wf(),
            final(self).data@ == old(self).data@,
            old(self).pos + 8 <= old(self).data@.len() ==> r is Ok && r->Ok_0 as nat == be_value(
                old(self).ahead(8),
            ) && final(self).pos == old(self).pos + 8,
            old(self).pos + 8 > old(self).data@.len() ==> r is Err && r->Err_0 is EndOfInput
                && final(self).pos == old(self).pos,
    {
        self.try_get_uint(8)
    }

    /// Reads three bytes as `[r, g, b]`.
    pub fn try_get_rgb(&mut self) -> (r: Result<[u8; 3], CacheError>)
        requires
            old(self).wf(),
        ensures
            final(self).wf(),
            final(self).data@ == old(self).data@,
            old(self).pos + 3 <= old(self).data@.len() ==> r is Ok && r->Ok_0@ == old(self).ahead(3)
                && final(self).pos == old(self).pos + 3,
            old(self).pos + 3 > old(self).data@.len() ==> r is Err && r->Err_0 is EndOfInput
                && final(self).pos == old(self).pos,
    {
        if 3 > self.data.len() - self.pos {
            return Err(CacheError::EndOfInput);
        }
        let p = self.pos;
        let rgb = [self.data[p], self.data[p + 1], self.data[p + 2]];
        self.pos = p + 3;
        assert(rgb@ =~= old(self).ahead(3));
        Ok(rgb)
    }

    /// Reads the bytes up to the next `0x00` and steps over the terminator.
    /// Fails with `EndOfInput`, and moves nothing, when no `0x00` is left.
    pub fn try_get_string(&mut self) -> (r: Result<Vec<u8>, CacheError>)
        requires
            old(self).wf(),
        ensures
            final(self).wf(),
            final(self).data@ == old(self).data@,
            match r {
                Ok(s) => {
                    let end = old(self).pos + s@.len();
                    &&& end < old(self).data@.len()
                    &&& s@ == old(self).data@.subrange(old(self).pos as int, end)
                    &&& old(self).data@[end] == 0
                    &&& !s@.contains(0u8)
                    &&& final(self).pos == end + 1
                },
                Err(e) => {
                    &&& e is EndOfInput
                    &&& !old(self).remaining_spec().contains(0u8)
                    &&& final(self).pos == old(self).pos
                },
            },
    {
        let start = self.pos;
        let mut i: usize = start;
        while i < self.data.len() && self.data[i] != 0
            invariant
                self.wf(),
                self.pos == start,
                start <= i <= self.data@.len(),
                forall|k: int| start <= k < i ==> self.data@[k] != 0,
            decreases self.data@.len() - i,
        {
            i = i + 1;
        }
        if i == self.data.len() {
            proof {
                assert forall|k: int| 0 <= k < old(self).remaining_spec().len() implies
                    old(self).remaining_spec()[k] != 0 by {
                    assert(self.data@[start + k] != 0);
                }
            }
            return Err(CacheError::EndOfInput);
        }
        let s = slice_to_vec(&self.data.as_slice()[start..i]);
        self.pos = i + 1;
        proof {
            assert(s@ =~= self.data@.subrange(start as int, i as int));
            assert forall|k: int| 0 <= k < s@.len() implies s@[k] != 0u8 by {
                assert(self.data@[start + k] != 0);
            }
        }
        Ok(s)
    }
}

/// The two's-complement reading of a 32-bit unsigned value.
pub open spec fn signed32(v: nat) -> int {
    if v < 0x8000_0000 {
        v as int
    } else {
        v - 0x1_0000_0000
    }
}

/// Copies `s[start..end]` into a new vector.
pub fn copy_range(s: &[u8], start: usize, end: usize) -> (r: Vec<u8>)
    requires
        start <= end <= s@.len(),
    ensures
        r@ == s@.subrange(start as int, end as int),
{
    let mut v: Vec<u8> = Vec::new();
    let mut i: usize = start;
    while i < end
        invariant
            start <= i <= end <= s@.len(),
            v@ == s@.subrange(start as int, i as int),
        decreases end - i,
    {
        v.push(s[i]);
        i = i + 1;
        assert(v@ =~= s@.subrange(start as int, i as int));
    }
    v
}

/// The unsigned big-endian value of the `n` bytes of `s` at `off`.
pub open spec fn be_at(s: Seq<u8>, off: int, n: int) -> nat {
    be_value(s.subrange(off, off + n))
}

/// Reads the big-endian `u32` at `off`.
pub fn read_u32_at(s: &[u8], off: usize) -> (r: u32)
    requires
        off + 4 <= s@.len(),
    ensures
        r as nat == be_at(s@, off as int, 4),
{
    let v = (s[off] as u32) * 0x100_0000 + (s[off + 1] as u32) * 0x1_0000 + (s[off + 2] as u32)
        * 0x100 + s[off + 3] as u32;
    proof {
        let w = s@.subrange(off as int, off + 4);
        assert(w.drop_last().drop_last().drop_last().drop_last() =~= Seq::<u8>::empty());
        assert(w.drop_last().drop_last().drop_last() =~= seq![s@[off as int]]);
        assert(w.drop_last().drop_last() =~= seq![s@[off as int], s@[off + 1]]);
        assert(w.drop_last() =~= seq![s@[off as int], s@[off + 1], s@[off + 2]]);
        reveal_with_fuel(be_value, 5);
    }
    v
}

/// Copies a slice into a new vector.
pub fn slice_to_vec(s: &[u8]) -> (r: Vec<u8>)
    ensures
        r@ == s@,
{
    let mut v: Vec<u8> = Vec::new();
    let mut i: usize = 0;
    while i < s.len()
        invariant
            i <= s@.len(),
            v@ == s@.subrange(0, i as int),
        decreases s@.len() - i,
    {
        v.push(s[i]);
        i = i + 1;
        assert(v@ =~= s@.subrange(0, i as int));
    }
    assert(v@ =~= s@);
    v
}

} // verus!
