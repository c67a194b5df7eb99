use vstd::prelude::*;
use std::collections::BTreeMap;
use crate::arc::Archive;
use crate::buf::{be_at, Buffer};
use crate::error::CacheError;

verus! {

broadcast use vstd::laws_cmp::group_laws_cmp;

/// The general ground colour of a tile type, blended with surrounding tiles.
#[derive(Debug)]
pub struct Underlay {
    /// Id of the underlay configuration.
    pub id: u32,
    /// Ground colour of this tile type.
    pub colour: Option<[u8; 3]>,
    pub op_2: Option<u16>,
    pub op_3: Option<u16>,
    pub op_4: Option<bool>,
    pub op_5: Option<bool>,
}

/// An underlay with its colour seen as a sequence.
pub struct UnderlayView {
    pub id: u32,
    pub colour: Option<Seq<u8>>,
    pub op_2: Option<u16>,
    pub op_3: Option<u16>,
    pub op_4: Option<bool>,
    pub op_5: Option<bool>,
}

impl Underlay {
    pub open spec fn view(&self) -> UnderlayView {
        UnderlayView {
            id: self.id,
            colour: match self.colour {
                Some(c) => Some(c@),
                None => None,
            },
            op_2: self.op_2,
            op_3: self.op_3,
            op_4: self.op_4,
            op_5: self.op_5,
        }
    }
}

/// What the opcodes from `p` on make of `u`: 0 ends the record and must be
/// the last byte; 1 sets the colour (three bytes); 2 and 3 set a `u16`; 4 and 5
/// set a flag. Any other opcode is unknown.
pub open spec fn underlay_ops(s: Seq<u8>, p: int, u: UnderlayView) -> Result<UnderlayView, CacheError>
    decreases s.len() - p,
{
    if p < 0 || p >= s.len() {
        Err(CacheError::EndOfInput)
    } else {
        let op = s[p];
        if op == 0 {
            if p + 1 == s.len() {
                Ok(u)
            } else {
                Err(CacheError::Corrupt)
            }
        } else if op == 1 {
            if p + 4 <= s.len() {
                underlay_ops(s, p + 4, UnderlayView { colour: Some(s.subrange(p + 1, p + 4)), ..u })
            } else {
                Err(CacheError::EndOfInput)
            }
        } else if op == 2 || op == 3 {
            if p + 3 <= s.len() {
                let v = be_at(s, p + 1, 2) as u16;
                if op == 2 {
                    underlay_ops(s, p + 3, UnderlayView { op_2: Some(v), ..u })
                } else {
                    underlay_ops(s, p + 3, UnderlayView { op_3: Some(v), ..u })
                }
            } else {
                Err(CacheError::EndOfInput)
            }
        } else if op == 4 {
            underlay_ops(s, p + 1, UnderlayView { op_4: Some(true), ..u })
        } else if op == 5 {
            underlay_ops(s, p + 1, UnderlayView { op_5: Some(true), ..u })
        } else {
            Err(CacheError::UnknownOpcode(op, u.id))
        }
    }
}

/// An underlay of id `id` with nothing set.
pub open spec fn blank_underlay(id: u32) -> UnderlayView {
    UnderlayView { id, colour: None, op_2: None, op_3: None, op_4: None, op_5: None }
}

impl Underlay {
    /// Decodes the underlay configuration `id` from its opcode stream.
    pub fn deserialize(id: u32, data: Vec<u8>) -> (r: Result<Underlay, CacheError>)
        ensures
            match underlay_ops(data@, 0, blank_underlay(id)) {
                Ok(v) => r matches Ok(u) && u.view() == v,
                Err(e) => r == Err::<Underlay, CacheError>(e),
            },
    {
        let ghost s = data@;
        let mut buffer = Buffer::new(data);
        let mut underlay = Underlay { id, colour: None, op_2: None, op_3: None, op_4: None, op_5: None };
        loop
            invariant
                buffer.wf(),
                buffer.data@ == s,
                s == data@,
                underlay.id == id,
                underlay_ops(s, buffer.pos as int, underlay.view()) == underlay_ops(
                    s,
                    0,
                    blank_underlay(id),
                ),
            decreases s.len() - buffer.pos,
        {
            let opcode = buffer.try_get_u8()?;
            if opcode == 0 {
                if buffer.remaining() != 0 {
                    return Err(CacheError::Corrupt);
                }
                return Ok(underlay);
            } else if opcode == 1 {
                let c = buffer.try_get_rgb()?;
                underlay.colour = Some(c);
            } else if opcode == 2 {
                let v = buffer.try_get_u16()?;
                underlay.op_2 = Some(v);
            } else if opcode == 3 {
                let v = buffer.try_get_u16()?;
                underlay.op_3 = Some(v);
            } else if opcode == 4 {
                underlay.op_4 = Some(true);
            } else if opcode == 5 {
                underlay.op_5 = Some(true);
            } else {
                return Err(CacheError::UnknownOpcode(opcode, id));
            }
        }
    }

    /// Decodes every file of the underlay archive, each under its child id.
    pub fn dump_all(archive: &Archive) -> (r: Result<BTreeMap<u32, Underlay>, CacheError>)
        requires
            archive.wf(),
        ensures
            r matches Ok(m) ==> forall|key: u32|
                #[trigger] m@.contains_key(key) ==> archive.ids@.contains(key),
            r matches Ok(m) ==> forall|t: int|
                0 <= t < archive.ids@.len() ==> m@.contains_key(#[trigger] archive.ids@[t])
                    && underlay_ops(archive.files@[t]@, 0, blank_underlay(archive.ids@[t]))
                    == Ok::<UnderlayView, CacheError>(m@[archive.ids@[t]].view()),
            r matches Err(e) ==> exists|t: int|
                0 <= t < archive.ids@.len() && underlay_ops(
                    archive.files@[t]@,
                    0,
                    blank_underlay(#[trigger] archive.ids@[t]),
                ) == Err::<UnderlayView, CacheError>(e),
    {
        let mut out: BTreeMap<u32, Underlay> = BTreeMap::new();
        let mut t: usize = 0;
        while t < archive.ids.len()
            invariant
                archive.wf(),
                t <= archive.ids@.len(),
                forall|key: u32|
                    #[trigger] out@.contains_key(key) ==> exists|u: int|
                        0 <= u < t && archive.ids@[u] == key,
                forall|u: int|
                    0 <= u < t ==> out@.contains_key(#[trigger] archive.ids@[u]) && underlay_ops(
                        archive.files@[u]@,
                        0,
                        blank_underlay(archive.ids@[u]),
                    ) == Ok::<UnderlayView, CacheError>(out@[archive.ids@[u]].view()),
            decreases archive.ids@.len() - t,
        {
            let id = archive.ids[t];
            let file = crate::buf::slice_to_vec(archive.files[t].as_slice());
            let underlay = match Underlay::deserialize(id, file) {
                Ok(u) => u,
                Err(e) => {
                    assert(underlay_ops(archive.files@[t as int]@, 0, blank_underlay(archive.ids@[t as int])) == Err::<UnderlayView, CacheError>(e));
                    return Err(e);
                },
            };
            proof {
                assert forall|u: int| 0 <= u < t implies archive.ids@[u] != id by {
                    if archive.meta.child_count == 1 {
                        assert(archive.ids@.len() == 1);
                    } else {
                        assert(archive.ids@[u] < archive.ids@[t as int]);
                    }
                }
            }
            out.insert(id, underlay);
            proof {
                assert forall|key: u32| #[trigger] out@.contains_key(key) implies exists|u: int|
                    0 <= u < t + 1 && archive.ids@[u] == key by {
                    if key == id {
                        assert(archive.ids@[t as int] == key);
                    }
                }
            }
            t = t + 1;
        }
        proof {
            assert forall|key: u32| #[trigger] out@.contains_key(key) implies archive.ids@.contains(key) by {
                let u = choose|u: int| 0 <= u < t && archive.ids@[u] == key;
                assert(archive.ids@[u] == key);
            }
        }
        Ok(out)
    }
}

} // verus!
