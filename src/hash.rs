use vstd::prelude::*;
use vstd::string::StringSliceAdditionalSpecFns;

verus! {

/// The 32-bit folded name hash of a byte string: `h = h * 31 + b`, wrapping.
pub open spec fn name_hash_spec(s: Seq<u8>) -> u32
    decreases s.len(),
{
    if s.len() == 0 {
        0
    } else {
        let h = name_hash_spec(s.drop_last()) as int;
        ((h * 31 + s.last() as int) % 0x1_0000_0000) as u32
    }
}

/// Computes the name hash of the bytes of `name`, used to find archives and
/// child files by name.
pub fn hash_archive(name: &str) -> (r: u32)
    ensures
        r == name_hash_spec(name.spec_bytes()),
{
    hash_bytes(name.as_bytes())
}

/// Computes the name hash of a byte string.
pub fn hash_bytes(name: &[u8]) -> (r: u32)
    ensures
        r == name_hash_spec(name@),
{
    let mut h: u32 = 0;
    let mut i: usize = 0;
    while i < name.len()
        invariant
            i <= name@.len(),
            h == name_hash_spec(name@.subrange(0, i as int)),
        decreases name@.len() - i,
    {
        proof {
            let s = name@.subrange(0, i as int + 1);
            assert(s.drop_last() =~= name@.subrange(0, i as int));
        }
        h = h.wrapping_mul(31).wrapping_add(name[i] as u32);
        proof {
            let s = name@.subrange(0, i as int + 1);
            let p = name_hash_spec(name@.subrange(0, i as int)) as int;
            assert(h as int == ((p * 31) % 0x1_0000_0000 + name@[i as int] as int) % 0x1_0000_0000);
            vstd::arithmetic::div_mod::lemma_add_mod_noop(p * 31, name@[i as int] as int, 0x1_0000_0000);
            vstd::arithmetic::div_mod::lemma_mod_twice(name@[i as int] as int, 0x1_0000_0000);
        }
        i = i + 1;
    }
    assert(name@.subrange(0, i as int) =~= name@);
    h
}

} // verus!
