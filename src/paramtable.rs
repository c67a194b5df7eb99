use vstd::prelude::*;
use std::collections::BTreeMap;
use crate::buf::{be_at, signed32, Buffer};
use crate::error::CacheError;

verus! {

broadcast use vstd::laws_cmp::group_laws_cmp;

/// An additional property of a location, item or npc configuration.
#[derive(Debug)]
pub enum Param {
    Integer(i32),
    /// The bytes of a string, without its terminator.
    String(Vec<u8>),
}

/// A property with its string seen as a sequence.
pub enum ParamView {
    Integer(i32),
    String(Seq<u8>),
}

impl Param {
    pub open spec fn view(&self) -> ParamView {
        match self {
            Param::Integer(v) => ParamView::Integer(*v),
            Param::String(s) => ParamView::String(s@),
        }
    }
}

/// A table of properties with their strings seen as sequences.
pub open spec fn view_params(m: Map<u32, Param>) -> Map<u32, ParamView> {
    m.map_values(|p: Param| p.view())
}

/// The position of the first `0x00` at or after `p`, or -1 when there is none.
pub open spec fn first_zero_from(s: Seq<u8>, p: int) -> int
    decreases s.len() - p,
{
    if p < 0 || p >= s.len() {
        -1
    } else if s[p] == 0 {
        p
    } else {
        first_zero_from(s, p + 1)
    }
}

/// The record at `p`: a type byte, a three-byte key, and a value (0: `i32`,
/// 1: a string up to its `0x00`), with the position after it.
pub open spec fn param_record(s: Seq<u8>, p: int) -> Option<(u32, ParamView, int)> {
    if p < 0 || p + 4 > s.len() {
        None
    } else {
        let key = be_at(s, p + 1, 3) as u32;
        if s[p] == 0 {
            if p + 8 <= s.len() {
                Some((key, ParamView::Integer(signed32(be_at(s, p + 4, 4)) as i32), p + 8))
            } else {
                None
            }
        } else if s[p] == 1 {
            let z = first_zero_from(s, p + 4);
            if z < 0 {
                None
            } else {
                Some((key, ParamView::String(s.subrange(p + 4, z)), z + 1))
            }
        } else {
            None
        }
    }
}

/// The table of the `n` records from `p` on, later keys replacing earlier
/// ones, with the position after them.
pub open spec fn params_from(s: Seq<u8>, p: int, n: nat) -> Option<(Map<u32, ParamView>, int)>
    decreases n,
{
    if n == 0 {
        Some((Map::empty(), p))
    } else {
        match params_from(s, p, (n - 1) as nat) {
            None => None,
            Some((m, q)) => match param_record(s, q) {
                None => None,
                Some((k, v, next)) => Some((m.insert(k, v), next)),
            },
        }
    }
}

proof fn lemma_params_stay_none(s: Seq<u8>, p: int, n: nat, m: nat)
    requires
        n <= m,
        params_from(s, p, n) is None,
    ensures
        params_from(s, p, m) is None,
    decreases m - n,
{
    if n < m {
        lemma_params_stay_none(s, p, n, (m - 1) as nat);
    }
}

proof fn lemma_first_zero_found(s: Seq<u8>, a: int, e: int)
    requires
        0 <= a <= e < s.len(),
        s[e] == 0,
        forall|t: int| a <= t < e ==> s[t] != 0,
    ensures
        first_zero_from(s, a) == e,
    decreases e - a,
{
    if a < e {
        lemma_first_zero_found(s, a + 1, e);
    }
}

proof fn lemma_first_zero_none(s: Seq<u8>, a: int)
    requires
        0 <= a <= s.len(),
        forall|t: int| a <= t < s.len() ==> s[t] != 0,
    ensures
        first_zero_from(s, a) == -1,
    decreases s.len() - a,
{
    if a < s.len() {
        lemma_first_zero_none(s, a + 1);
    }
}

/// Key-to-property mappings that configurations carry.
#[derive(Debug)]
pub struct ParamTable {
    pub params: BTreeMap<u32, Param>,
}

impl ParamTable {
    /// Decodes a table at the cursor: a count byte, then that many records
    /// (see `param_record`). Running out of bytes is `EndOfInput`; an unknown
    /// type byte is `Corrupt`.
    pub fn deserialize(buffer: &mut Buffer) -> (r: Result<ParamTable, CacheError>)
        requires
            old(buffer).wf(),
        ensures
            final(buffer).wf(),
            final(buffer).data@ == old(buffer).data@,
            old(buffer).pos >= old(buffer).data@.len() ==> r is Err,
            old(buffer).pos < old(buffer).data@.len() ==> match params_from(
                old(buffer).data@,
                old(buffer).pos + 1,
                old(buffer).data@[old(buffer).pos as int] as nat,
            ) {
                Some((m, next)) => r matches Ok(t) && view_params(t.params@) == m
                    && final(buffer).pos == next,
                None => r is Err,
            },
    {
        let ghost s = buffer.data@;
        let count = buffer.try_get_u8()?;
        let ghost p0 = buffer.pos as int;
        let mut params: BTreeMap<u32, Param> = BTreeMap::new();
        let mut i: u8 = 0;
        proof {
            assert(view_params(params@) =~= Map::<u32, ParamView>::empty());
        }
        while i < count
            invariant
                buffer.wf(),
                buffer.data@ == s,
                s == old(buffer).data@,
                p0 == old(buffer).pos + 1,
                old(buffer).pos < s.len(),
                count == s[old(buffer).pos as int],
                i <= count,
                params_from(s, p0, i as nat) == Some((view_params(params@), buffer.pos as int)),
            decreases count - i,
        {
            let ghost q = buffer.pos as int;
            let ghost before = params@;
            let ty = match buffer.try_get_u8() {
                Ok(t) => t,
                Err(e) => {
                    proof {
                        reveal_with_fuel(params_from, 2);
                        lemma_params_stay_none(s, p0, (i + 1) as nat, count as nat);
                    }
                    return Err(e);
                },
            };
            let key = match buffer.try_get_uint(3) {
                Ok(k) => k,
                Err(e) => {
                    proof {
                        reveal_with_fuel(params_from, 2);
                        lemma_params_stay_none(s, p0, (i + 1) as nat, count as nat);
                    }
                    return Err(e);
                },
            };
            proof {
                crate::buf::lemma_be_value_bound(s.subrange(q + 1, q + 4));
                reveal_with_fuel(crate::buf::pow256, 4);
            }
            let value = if ty == 0 {
                match buffer.try_get_i32() {
                    Ok(v) => Param::Integer(v),
                    Err(e) => {
                        proof {
                            reveal_with_fuel(params_from, 2);
                            lemma_params_stay_none(s, p0, (i + 1) as nat, count as nat);
                        }
                        return Err(e);
                    },
                }
            } else if ty == 1 {
                match buffer.try_get_string() {
                    Ok(v) => {
                        proof {
                            let end = q + 4 + v@.len();
                            assert forall|t: int| q + 4 <= t < end implies s[t] != 0 by {
                                assert(v@[t - q - 4] == s[t]);
                            }
                            lemma_first_zero_found(s, q + 4, end);
                        }
                        Param::String(v)
                    },
                    Err(e) => {
                        proof {
                            assert forall|t: int| q + 4 <= t < s.len() implies s[t] != 0 by {
                                assert(s.subrange(q + 4, s.len() as int)[t - q - 4] == s[t]);
                            }
                            lemma_first_zero_none(s, q + 4);
                            reveal_with_fuel(params_from, 2);
                            lemma_params_stay_none(s, p0, (i + 1) as nat, count as nat);
                        }
                        return Err(e);
                    },
                }
            } else {
                proof {
                    reveal_with_fuel(params_from, 2);
                    lemma_params_stay_none(s, p0, (i + 1) as nat, count as nat);
                }
                return Err(CacheError::Corrupt);
            };
            let ghost v = value.view();
            params.insert(key as u32, value);
            proof {
                assert(view_params(params@) =~= view_params(before).insert(key as u32, v));
            }
            i = i + 1;
        }
        Ok(ParamTable { params })
    }

    /// The property under `id`, if there is one.
    pub fn get(&self, id: u32) -> (r: Option<&Param>)
        ensures
            match r {
                Some(p) => self.params@.contains_key(id) && *p == self.params@[id],
                None => !self.params@.contains_key(id),
            },
    {
        self.params.get(&id)
    }
}

} // verus!
