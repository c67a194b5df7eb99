use vstd::prelude::*;
use crate::arc::{split_fits, split_of, Archive};
use crate::buf::Buffer;
use crate::error::CacheError;
use crate::index::{archive_in, get_file_spec, CacheIndex, Stored};

verus! {

/// The child id of the file of locations in a map-square archive.
pub const LOCATIONS: u32 = 0;

/// The child id of the file of water locations in a map-square archive.
pub const WATER_LOCATIONS: u32 = 1;

/// The child id of the file of tiles in a map-square archive.
pub const TILES: u32 = 3;

/// An object placed on the map.
#[derive(Copy, Clone, Debug)]
pub struct Location {
    pub id: u32,
    pub plane: u8,
    /// The map square's horizontal coordinate.
    pub i: u8,
    /// The map square's vertical coordinate.
    pub j: u8,
    /// The tile's horizontal coordinate within its square.
    pub x: u8,
    /// The tile's vertical coordinate within its square.
    pub y: u8,
    pub shape: u8,
    pub rotation: u8,
}

/// A location lies in square `(i, j)`, on a tile of it, on one of four planes.
pub open spec fn placed(loc: Location, i: u8, j: u8) -> bool {
    &&& loc.i == i
    &&& loc.j == j
    &&& loc.x < 64
    &&& loc.y < 64
    &&& loc.plane < 4
    &&& loc.rotation < 4
}

/// The location at packed position `position` with shape/rotation byte `packed`.
pub open spec fn location_at(id: u32, i: u8, j: u8, position: nat, packed: u8) -> Location {
    Location {
        id,
        plane: ((position / 4096) % 4) as u8,
        i,
        j,
        x: ((position / 64) % 64) as u8,
        y: (position % 64) as u8,
        shape: packed / 4,
        rotation: packed % 4,
    }
}

/// What the location stream from `p` on adds to `acc`. Outside a run, a smart
/// id delta opens the next run (0 ends the stream). Inside a run, a smart
/// position step (0 closes the run) adds `step - 1` to the position and is
/// followed by a shape/rotation byte. A smart is one byte below `0x80`, else
/// two bytes less `0x8000`. An id or a position beyond `u32` is `Corrupt`.
pub open spec fn locations_spec(
    i: u8,
    j: u8,
    s: Seq<u8>,
    p: int,
    id_next: nat,
    in_run: bool,
    position: nat,
    acc: Seq<Location>,
) -> Result<Seq<Location>, CacheError>
    decreases s.len() - p,
{
    if p < 0 || p >= s.len() || (s[p] >= 0x80 && p + 1 >= s.len()) {
        Err(CacheError::EndOfInput)
    } else {
        let v: nat = if s[p] < 0x80 {
            s[p] as nat
        } else {
            ((s[p] - 0x80) * 256 + s[p + 1]) as nat
        };
        let q = if s[p] < 0x80 {
            p + 1
        } else {
            p + 2
        };
        if !in_run {
            if v == 0 {
                Ok(acc)
            } else if id_next + v > u32::MAX {
                Err(CacheError::Corrupt)
            } else {
                locations_spec(i, j, s, q, id_next + v, true, 0, acc)
            }
        } else {
            if v == 0 {
                locations_spec(i, j, s, q, id_next, false, 0, acc)
            } else if position + v - 1 > u32::MAX {
                Err(CacheError::Corrupt)
            } else if q >= s.len() {
                Err(CacheError::EndOfInput)
            } else {
                let next = (position + v - 1) as nat;
                locations_spec(
                    i,
                    j,
                    s,
                    q + 1,
                    id_next,
                    true,
                    next,
                    acc.push(location_at((id_next - 1) as u32, i, j, next, s[q])),
                )
            }
        }
    }
}

/// Reads an unsigned smart: one byte below `0x80`, else two bytes less `0x8000`.
fn read_smart(buf: &mut Buffer) -> (r: Result<u32, CacheError>)
    requires
        old(buf).wf(),
    ensures
        final(buf).wf(),
        final(buf).data@ == old(buf).data@,
        ({
            let s = old(buf).data@;
            let p = old(buf).pos as int;
            if p >= s.len() || (s[p] >= 0x80 && p + 1 >= s.len()) {
                r is Err && r->Err_0 is EndOfInput
            } else if s[p] < 0x80 {
                r == Ok::<u32, CacheError>(s[p] as u32) && final(buf).pos == p + 1
            } else {
                r == Ok::<u32, CacheError>(((s[p] - 0x80) * 256 + s[p + 1]) as u32)
                    && final(buf).pos == p + 2
            }
        }),
        r is Ok ==> r->Ok_0 < 0x8000,
{
    let first = buf.try_get_u8()?;
    if first < 0x80 {
        Ok(first as u32)
    } else {
        let second = buf.try_get_u8()?;
        Ok((first as u32 - 0x80) * 256 + second as u32)
    }
}

/// Decodes the locations of map square `(i, j)`: runs of id deltas, each
/// followed by position deltas of the locations with that id and their
/// shape/rotation byte; a zero delta ends a run. Locations come out in
/// ascending id order.
pub fn dump_locations(i: u8, j: u8, data: &[u8]) -> (r: Result<Vec<Location>, CacheError>)
    ensures
        match locations_spec(i, j, data@, 0, 0, false, 0, Seq::empty()) {
            Ok(v) => r matches Ok(w) && w@ == v,
            Err(e) => r == Err::<Vec<Location>, CacheError>(e),
        },
        r matches Ok(v) ==> (forall|t: int| 0 <= t < v@.len() ==> placed(#[trigger] v@[t], i, j))
            && (forall|a: int, b: int|
            0 <= a < b < v@.len() ==> (#[trigger] v@[a]).id <= (#[trigger] v@[b]).id),
{
    let ghost s = data@;
    let mut buf = Buffer::new(crate::buf::slice_to_vec(data));
    let mut out: Vec<Location> = Vec::new();
    let mut id_next: u32 = 0;
    loop
        invariant_except_break
            locations_spec(i, j, s, buf.pos as int, id_next as nat, false, 0, out@)
                == locations_spec(i, j, s, 0, 0, false, 0, Seq::empty()),
        invariant
            buf.wf(),
            buf.data@ == s,
            s == data@,
            forall|t: int| 0 <= t < out@.len() ==> placed(#[trigger] out@[t], i, j),
            forall|a: int, b: int|
                0 <= a < b < out@.len() ==> (#[trigger] out@[a]).id <= (#[trigger] out@[b]).id,
            forall|t: int| 0 <= t < out@.len() ==> (#[trigger] out@[t]).id < id_next,
        ensures
            locations_spec(i, j, s, 0, 0, false, 0, Seq::empty()) == Ok::<
                Seq<Location>,
                CacheError,
            >(out@),
        decreases buf.data@.len() - buf.pos,
    {
        let ghost start = buf.pos;
        let delta = read_smart(&mut buf)?;
        if delta == 0 {
            break ;
        }
        if delta > u32::MAX - id_next {
            return Err(CacheError::Corrupt);
        }
        id_next = id_next + delta;
        let id = id_next - 1;
        let mut position: u32 = 0;
        loop
            invariant_except_break
                locations_spec(i, j, s, buf.pos as int, id_next as nat, true, position as nat, out@)
                    == locations_spec(i, j, s, 0, 0, false, 0, Seq::empty()),
            invariant
                buf.wf(),
                buf.data@ == s,
                s == data@,
                buf.pos > start,
                id == id_next - 1,
                id < id_next,
                forall|t: int| 0 <= t < out@.len() ==> placed(#[trigger] out@[t], i, j),
                forall|a: int, b: int|
                    0 <= a < b < out@.len() ==> (#[trigger] out@[a]).id <= (#[trigger] out@[b]).id,
                forall|t: int| 0 <= t < out@.len() ==> (#[trigger] out@[t]).id <= id,
            ensures
                locations_spec(i, j, s, buf.pos as int, id_next as nat, false, 0, out@)
                    == locations_spec(i, j, s, 0, 0, false, 0, Seq::empty()),
            decreases buf.data@.len() - buf.pos,
        {
            let step = read_smart(&mut buf)?;
            if step == 0 {
                break ;
            }
            if step - 1 > u32::MAX - position {
                return Err(CacheError::Corrupt);
            }
            position = position + (step - 1);
            let packed = buf.try_get_u8()?;
            let loc = Location {
                id,
                plane: ((position / 4096) % 4) as u8,
                i,
                j,
                x: ((position / 64) % 64) as u8,
                y: (position % 64) as u8,
                shape: packed / 4,
                rotation: packed % 4,
            };
            assert(loc == location_at(id, i, j, position as nat, packed));
            out.push(loc);
        }
    }
    Ok(out)
}

/// `r` is what decoding the location file `file` of square `(i, j)` gives.
pub open spec fn locations_of(r: Result<Vec<Location>, CacheError>, i: u8, j: u8, file: Seq<u8>) -> bool {
    match locations_spec(i, j, file, 0, 0, false, 0, Seq::empty()) {
        Ok(v) => r matches Ok(w) && w@ == v,
        Err(e) => r == Err::<Vec<Location>, CacheError>(e),
    }
}

/// `r` holds the decoded file `child` of `archive`, or the error that it is missing.
pub open spec fn child_locations(
    r: Result<Vec<Location>, CacheError>,
    archive: Archive,
    child: u32,
    i: u8,
    j: u8,
) -> bool {
    &&& !archive.ids@.contains(child) ==> r == Err::<Vec<Location>, CacheError>(
        CacheError::FileNotFound(archive.meta.index_id, archive.meta.archive_id, child),
    )
    &&& forall|u: int|
        0 <= u < archive.ids@.len() && #[trigger] archive.ids@[u] == child ==> locations_of(
            r,
            i,
            j,
            archive.files@[u]@,
        )
}

/// `r` is the map square that `archive` holds: its coordinates come from the
/// archive id, its tiles are the tile file, and its locations and water
/// locations are the decoded location files (the locations only where the
/// tiles are present).
pub open spec fn built_from(r: MapSquare, archive: Archive) -> bool {
    &&& (r.i, r.j) == square_of(archive.meta.archive_id)
    &&& (r.tiles is Ok <==> archive.ids@.contains(TILES))
    &&& (r.tiles matches Ok(t) ==> exists|u: int|
        0 <= u < archive.ids@.len() && archive.ids@[u] == TILES && t@ == archive.files@[u]@)
    &&& (r.tiles is Err ==> r.tiles == Err::<Vec<u8>, CacheError>(
        CacheError::FileNotFound(archive.meta.index_id, archive.meta.archive_id, TILES),
    ) && r.locations == Err::<Vec<Location>, CacheError>(
        CacheError::FileNotFound(archive.meta.index_id, archive.meta.archive_id, TILES),
    ))
    &&& (r.tiles is Ok ==> child_locations(r.locations, archive, LOCATIONS, r.i, r.j))
    &&& child_locations(r.water_locations, archive, WATER_LOCATIONS, r.i, r.j)
}

/// A section of the game map: 64 by 64 tiles on four planes, with the
/// locations placed on it. Each part may be missing on its own.
#[derive(Debug)]
pub struct MapSquare {
    /// The horizontal coordinate.
    pub i: u8,
    /// The vertical coordinate.
    pub j: u8,
    /// The raw tile file.
    pub tiles: Result<Vec<u8>, CacheError>,
    pub locations: Result<Vec<Location>, CacheError>,
    pub water_locations: Result<Vec<Location>, CacheError>,
}

/// The coordinates of the map square that archive `archive_id` holds: the low
/// seven bits are `i`, the rest `j`.
pub open spec fn square_of(archive_id: u32) -> (u8, u8) {
    ((archive_id % 128) as u8, ((archive_id / 128) % 256) as u8)
}

impl MapSquare {
    /// The horizontal coordinate.
    pub fn i(&self) -> (r: u8)
        ensures
            r == self.i,
    {
        self.i
    }

    /// The vertical coordinate.
    pub fn j(&self) -> (r: u8)
        ensures
            r == self.j,
    {
        self.j
    }

    /// The map square that a map-square archive holds. Its locations are
    /// decoded only where its tiles are present; a missing tile file makes the
    /// locations missing too.
    pub fn new(archive: &Archive) -> (r: MapSquare)
        requires
            archive.wf(),
        ensures
            built_from(r, *archive),
            r.water_locations is Ok ==> archive.ids@.contains(WATER_LOCATIONS),
            r.locations matches Ok(v) ==> forall|t: int|
                0 <= t < v@.len() ==> placed(#[trigger] v@[t], r.i, r.j),
            r.water_locations matches Ok(v) ==> forall|t: int|
                0 <= t < v@.len() ==> placed(#[trigger] v@[t], r.i, r.j),
    {
        let i = (archive.meta.archive_id % 128) as u8;
        let j = ((archive.meta.archive_id / 128) % 256) as u8;
        let tiles = archive.file(TILES);
        let locations = match &tiles {
            Ok(_) => match archive.file(LOCATIONS) {
                Ok(file) => dump_locations(i, j, file.as_slice()),
                Err(e) => Err(e),
            },
            Err(_) => Err(
                CacheError::FileNotFound(archive.meta.index_id, archive.meta.archive_id, TILES),
            ),
        };
        let water_locations = match archive.file(WATER_LOCATIONS) {
            Ok(file) => dump_locations(i, j, file.as_slice()),
            Err(e) => Err(e),
        };
        proof {
            if tiles is Ok {
                let t = choose|t: int| 0 <= t < archive.ids@.len() && archive.ids@[t] == TILES;
                assert(archive.ids@[t] == TILES);
            }
        }
        MapSquare { i, j, tiles, locations, water_locations }
    }

    /// The tile file, if present.
    pub fn get_tiles(&self) -> (r: Result<&Vec<u8>, &CacheError>)
        ensures
            match (r, &self.tiles) {
                (Ok(a), Ok(b)) => a == b,
                (Err(a), Err(b)) => a == b,
                _ => false,
            },
    {
        match &self.tiles {
            Ok(t) => Ok(t),
            Err(e) => Err(e),
        }
    }

    /// Takes the tile file, consuming `self`.
    pub fn take_tiles(self) -> (r: Result<Vec<u8>, CacheError>)
        ensures
            r == self.tiles,
    {
        self.tiles
    }

    /// The locations, if present.
    pub fn get_locations(&self) -> (r: Result<&Vec<Location>, &CacheError>)
        ensures
            match (r, &self.locations) {
                (Ok(a), Ok(b)) => a == b,
                (Err(a), Err(b)) => a == b,
                _ => false,
            },
    {
        match &self.locations {
            Ok(t) => Ok(t),
            Err(e) => Err(e),
        }
    }

    /// Takes the locations, consuming `self`.
    pub fn take_locations(self) -> (r: Result<Vec<Location>, CacheError>)
        ensures
            r == self.locations,
    {
        self.locations
    }

    /// The water locations, if present.
    pub fn get_water_locations(&self) -> (r: Result<&Vec<Location>, &CacheError>)
        ensures
            match (r, &self.water_locations) {
                (Ok(a), Ok(b)) => a == b,
                (Err(a), Err(b)) => a == b,
                _ => false,
            },
    {
        match &self.water_locations {
            Ok(t) => Ok(t),
            Err(e) => Err(e),
        }
    }

    /// Takes the water locations, consuming `self`.
    pub fn take_water_locations(self) -> (r: Result<Vec<Location>, CacheError>)
        ensures
            r == self.water_locations,
    {
        self.water_locations
    }
}

/// The map squares of a map-square index: one archive per square, whose id
/// packs the square's coordinates.
#[derive(Debug)]
pub struct MapSquares {
    pub index: CacheIndex,
}

impl MapSquares {
    pub fn new(index: CacheIndex) -> (r: MapSquares)
        ensures
            r.index == index,
    {
        MapSquares { index }
    }

    /// The coordinates of every square of the index, in archive-id order.
    pub fn coordinates(&self) -> (r: Vec<(u8, u8)>)
        ensures
            r@.len() == self.index.metadatas.metadatas@.len(),
            forall|k: int|
                0 <= k < r@.len() ==> #[trigger] r@[k] == square_of(
                    self.index.metadatas.metadatas@[k].archive_id,
                ),
    {
        let metas = &self.index.metadatas.metadatas;
        let mut out: Vec<(u8, u8)> = Vec::new();
        let mut k: usize = 0;
        while k < metas.len()
            invariant
                k <= metas@.len(),
                out@.len() == k,
                forall|t: int| 0 <= t < k ==> #[trigger] out@[t] == square_of(metas@[t].archive_id),
            decreases metas@.len() - k,
        {
            let id = metas[k].archive_id;
            out.push(((id % 128) as u8, ((id / 128) % 256) as u8));
            k = k + 1;
        }
        out
    }

    /// The square `(i, j)`, from what the back-end stored for its archive
    /// `i | j << 7`.
    pub fn square(&self, i: u8, j: u8, stored: Stored) -> (r: Result<MapSquare, CacheError>)
        requires
            self.index.wf(),
            i < 128,
        ensures
            r matches Ok(sq) ==> sq.i == i && sq.j == j,
            forall|k: int|
                0 <= k < self.index.metadatas.metadatas@.len() && #[trigger] archive_in(
                    self.index.metadatas.metadatas@[k],
                    (i + 128 * j) as u32,
                ) ==> {
                    let m = self.index.metadatas.metadatas@[k];
                    match get_file_spec(self.index.index_id, m, stored) {
                        Err(e) => r == Err::<MapSquare, CacheError>(e),
                        Ok(p) => {
                            &&& (r is Ok <==> m.child_count <= 1 || (p.len() > 0 && split_fits(
                                p,
                                m.child_count as int,
                            )))
                            &&& r is Ok ==> exists|a: Archive|
                                a.meta.equiv(&m) && split_of(a, p) && built_from(
                                    r->Ok_0,
                                    a,
                                )
                        },
                    }
                },
            (forall|k: int|
                0 <= k < self.index.metadatas.metadatas@.len()
                    ==> self.index.metadatas.metadatas@[k].archive_id != i + 128 * j) ==> r
                == Err::<MapSquare, CacheError>(
                CacheError::ArchiveNotFound(self.index.index_id, (i + 128 * j) as u32),
            ),
    {
        let archive_id = i as u32 + 128 * j as u32;
        let archive = self.index.archive(archive_id, stored)?;
        let sq = MapSquare::new(&archive);
        proof {
            let metas = self.index.metadatas.metadatas@;
            assert forall|k: int|
                0 <= k < metas.len() && #[trigger] archive_in(metas[k], archive_id) implies split_of(
                archive,
                get_file_spec(self.index.index_id, metas[k], stored)->Ok_0,
            ) && archive.meta.equiv(&metas[k]) by {
                let k0 = choose|k0: int|
                    0 <= k0 < metas.len() && #[trigger] archive_in(metas[k0], archive_id)
                        && get_file_spec(self.index.index_id, metas[k0], stored) is Ok
                        && archive.meta.equiv(&metas[k0]) && split_of(
                        archive,
                        get_file_spec(self.index.index_id, metas[k0], stored)->Ok_0,
                    );
                if k < k0 {
                    assert(metas[k].archive_id < metas[k0].archive_id);
                } else if k > k0 {
                    assert(metas[k0].archive_id < metas[k].archive_id);
                }
            }
        }
        Ok(sq)
    }
}

/// The locations of the squares that have them, square after square.
pub open spec fn all_locations(s: Seq<MapSquare>) -> Seq<Location>
    decreases s.len(),
{
    if s.len() == 0 {
        Seq::empty()
    } else {
        all_locations(s.drop_last()) + match s.last().locations {
            Ok(v) => v@,
            Err(_) => Seq::empty(),
        }
    }
}

/// Some square of `s` has the coordinates of `sq`.
pub open spec fn has_place(s: Seq<MapSquare>, sq: MapSquare) -> bool {
    exists|t: int| 0 <= t < s.len() && same_place(#[trigger] s[t], sq)
}

/// No square after position `u` of `s` has the coordinates of `s[u]`.
pub open spec fn last_at(s: Seq<MapSquare>, u: int) -> bool {
    forall|w: int| u < w < s.len() ==> !same_place(#[trigger] s[w], s[u])
}

/// `sq` is a square of `s` at or after position `lo` that no later square
/// shares coordinates with.
pub open spec fn last_of(s: Seq<MapSquare>, sq: MapSquare, lo: int) -> bool {
    exists|u: int| lo <= u < s.len() && s[u] == sq && last_at(s, u)
}

/// Two squares have the same coordinates.
pub open spec fn same_place(a: MapSquare, b: MapSquare) -> bool {
    a.i == b.i && a.j == b.j
}

/// A group of adjacent map squares around a central one.
#[derive(Debug)]
pub struct GroupMapSquare {
    pub core_i: u8,
    pub core_j: u8,
    pub mapsquares: Vec<MapSquare>,
}

impl GroupMapSquare {
    /// No two squares of the group share their coordinates.
    pub open spec fn wf(&self) -> bool {
        forall|a: int, b: int|
            0 <= a < b < self.mapsquares@.len() ==> !same_place(
                #[trigger] self.mapsquares@[a],
                #[trigger] self.mapsquares@[b],
            )
    }

    /// A group around `(core_i, core_j)` of the given squares. Where several
    /// share their coordinates, the last of them stays.
    #[verifier::rlimit(50)]
    pub fn new(core_i: u8, core_j: u8, mapsquares: Vec<MapSquare>) -> (r: GroupMapSquare)
        ensures
            r.core_i == core_i,
            r.core_j == core_j,
            r.wf(),
            forall|u: int|
                0 <= u < mapsquares@.len() ==> has_place(r.mapsquares@, #[trigger] mapsquares@[u]),
            forall|t: int|
                0 <= t < r.mapsquares@.len() ==> last_of(mapsquares@, #[trigger] r.mapsquares@[t], 0),
    {
        let ghost input = mapsquares@;
        let mut rest = mapsquares;
        let mut kept: Vec<MapSquare> = Vec::new();
        while rest.len() > 0
            invariant
                input == mapsquares@,
                rest@.len() <= input.len(),
                rest@ == input.subrange(0, rest@.len() as int),
                forall|a: int, b: int|
                    0 <= a < b < kept@.len() ==> !same_place(
                        #[trigger] kept@[a],
                        #[trigger] kept@[b],
                    ),
                forall|u: int|
                    rest@.len() <= u < input.len() ==> has_place(kept@, #[trigger] input[u]),
                forall|t: int|
                    0 <= t < kept@.len() ==> last_of(input, #[trigger] kept@[t], rest@.len() as int),
            decreases rest@.len(),
        {
            let ghost n = rest@.len() - 1;
            let ghost rest0 = rest@;
            let sq = rest.pop().unwrap();
            assert(sq == rest0[n]);
            assert(sq == input[n]);
            let mut seen = false;
            let mut t: usize = 0;
            while t < kept.len()
                invariant
                    t <= kept@.len(),
                    seen == exists|x: int| 0 <= x < t && same_place(#[trigger] kept@[x], sq),
                decreases kept@.len() - t,
            {
                if kept[t].i == sq.i && kept[t].j == sq.j {
                    seen = true;
                }
                t = t + 1;
            }
            if !seen {
                let ghost before = kept@;
                proof {
                    assert forall|w: int| n < w < input.len() implies !same_place(
                        #[trigger] input[w],
                        input[n],
                    ) by {
                        if same_place(input[w], input[n]) {
                            assert(has_place(before, input[w]));
                            let x = choose|x: int|
                                0 <= x < before.len() && same_place(#[trigger] before[x], input[w]);
                            assert(same_place(before[x], sq));
                        }
                    }
                    assert(last_at(input, n));
                }
                kept.push(sq);
                proof {
                    assert(kept@[before.len() as int] == input[n]);
                    assert forall|u: int| n <= u < input.len() implies has_place(
                        kept@,
                        #[trigger] input[u],
                    ) by {
                        if u == n {
                            assert(same_place(kept@[before.len() as int], input[u]));
                        } else {
                            assert(has_place(before, input[u]));
                            let x = choose|x: int|
                                0 <= x < before.len() && same_place(#[trigger] before[x], input[u]);
                            assert(same_place(kept@[x], input[u]));
                        }
                    }
                    assert forall|t: int| 0 <= t < kept@.len() implies last_of(
                        input,
                        #[trigger] kept@[t],
                        n,
                    ) by {
                        if t == before.len() {
                            assert(input[n] == kept@[t] && last_at(input, n));
                        } else {
                            assert(kept@[t] == before[t]);
                            assert(last_of(input, before[t], n + 1));
                            let u = choose|u: int|
                                n + 1 <= u < input.len() && input[u] == before[t] && last_at(
                                    input,
                                    u,
                                );
                            assert(n <= u);
                        }
                    }
                }
            } else {
                proof {
                    let x = choose|x: int| 0 <= x < kept@.len() && same_place(#[trigger] kept@[x], sq);
                    assert(same_place(kept@[x], input[n]));
                    assert(has_place(kept@, input[n]));
                }
            }
        }
        GroupMapSquare { core_i, core_j, mapsquares: kept }
    }

    /// The horizontal coordinate of the central square.
    pub fn core_i(&self) -> (r: u8)
        ensures
            r == self.core_i,
    {
        self.core_i
    }

    /// The vertical coordinate of the central square.
    pub fn core_j(&self) -> (r: u8)
        ensures
            r == self.core_j,
    {
        self.core_j
    }

    /// The first square at `key`, if the group has one.
    pub fn get(&self, key: &(u8, u8)) -> (r: Option<&MapSquare>)
        ensures
            match r {
                Some(sq) => exists|t: int|
                    0 <= t < self.mapsquares@.len() && self.mapsquares@[t] == *sq && sq.i == key.0
                        && sq.j == key.1 && forall|u: int|
                        0 <= u < t ==> !(self.mapsquares@[u].i == key.0
                            && self.mapsquares@[u].j == key.1),
                None => forall|u: int|
                    0 <= u < self.mapsquares@.len() ==> !(self.mapsquares@[u].i == key.0
                        && self.mapsquares@[u].j == key.1),
            },
    {
        let mut t: usize = 0;
        while t < self.mapsquares.len()
            invariant
                t <= self.mapsquares@.len(),
                forall|u: int|
                    0 <= u < t ==> !(self.mapsquares@[u].i == key.0 && self.mapsquares@[u].j
                        == key.1),
            decreases self.mapsquares@.len() - t,
        {
            let sq = &self.mapsquares[t];
            if sq.i == key.0 && sq.j == key.1 {
                return Some(sq);
            }
            t = t + 1;
        }
        None
    }

    /// The central square, if the group has it: the first square at the core
    /// coordinates, as `get` finds it.
    pub fn core_square(&self) -> (r: Option<&MapSquare>)
        ensures
            match r {
                Some(sq) => exists|t: int|
                    0 <= t < self.mapsquares@.len() && self.mapsquares@[t] == *sq && sq.i
                        == self.core_i && sq.j == self.core_j && forall|u: int|
                        0 <= u < t ==> !(self.mapsquares@[u].i == self.core_i
                            && self.mapsquares@[u].j == self.core_j),
                None => forall|u: int|
                    0 <= u < self.mapsquares@.len() ==> !(self.mapsquares@[u].i == self.core_i
                        && self.mapsquares@[u].j == self.core_j),
            },
    {
        self.get(&(self.core_i, self.core_j))
    }

    /// All squares of the group.
    pub fn iter(&self) -> (r: &[MapSquare])
        ensures
            r@ == self.mapsquares@,
    {
        self.mapsquares.as_slice()
    }

    /// All locations of all squares of the group, square after square.
    pub fn all_locations_iter(&self) -> (r: Vec<Location>)
        ensures
            r@ == all_locations(self.mapsquares@),
    {
        let mut out: Vec<Location> = Vec::new();
        let mut t: usize = 0;
        while t < self.mapsquares.len()
            invariant
                t <= self.mapsquares@.len(),
                out@ == all_locations(self.mapsquares@.subrange(0, t as int)),
            decreases self.mapsquares@.len() - t,
        {
            let ghost before = out@;
            if let Ok(locs) = &self.mapsquares[t].locations {
                let mut u: usize = 0;
                while u < locs.len()
                    invariant
                        u <= locs@.len(),
                        out@ == before + locs@.subrange(0, u as int),
                    decreases locs@.len() - u,
                {
                    out.push(locs[u]);
                    u = u + 1;
                    assert(out@ =~= before + locs@.subrange(0, u as int));
                }
                assert(locs@.subrange(0, u as int) =~= locs@);
            }
            proof {
                let s = self.mapsquares@.subrange(0, t as int + 1);
                assert(s.drop_last() =~= self.mapsquares@.subrange(0, t as int));
                if self.mapsquares@[t as int].locations is Err {
                    assert(out@ =~= before + Seq::<Location>::empty());
                }
            }
            t = t + 1;
        }
        assert(self.mapsquares@.subrange(0, t as int) =~= self.mapsquares@);
        out
    }
}

} // verus!
