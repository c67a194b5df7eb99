use std::io::Write;

use rs3cache_backend::arc::Archive;
use rs3cache_backend::buf::Buffer;
use rs3cache_backend::dat::{decode_map_index, header_len, idx_entry, read_archive, SectorChain};
use rs3cache_backend::decoder::decompress;
use rs3cache_backend::error::CacheError;
use rs3cache_backend::hash::{hash_archive, hash_bytes};
use rs3cache_backend::index::{CacheIndex, Stored};
use rs3cache_backend::mapsquares::{dump_locations, GroupMapSquare, MapSquare, MapSquares};
use rs3cache_backend::meta::{IndexMetadata, Metadata};
use rs3cache_backend::sqlite::{check_stamp, crc_offset};

/// One archive of a synthetic index: id, name, crc, version, children.
struct Entry {
    id: u32,
    name: Option<&'static str>,
    crc: u32,
    version: u32,
    children: Vec<u32>,
    child_names: Vec<&'static str>,
}

fn entry(id: u32, crc: u32, version: u32, children: Vec<u32>) -> Entry {
    Entry { id, name: None, crc, version, children, child_names: vec![] }
}

fn push_u16(v: &mut Vec<u8>, x: u32) {
    v.extend_from_slice(&(x as u16).to_be_bytes());
}

fn push_u32(v: &mut Vec<u8>, x: u32) {
    v.extend_from_slice(&x.to_be_bytes());
}

/// An uncompressed container around `raw`.
fn container(raw: &[u8]) -> Vec<u8> {
    let mut v = vec![0u8];
    push_u32(&mut v, raw.len() as u32);
    v.extend_from_slice(raw);
    v
}

fn gzip_container(raw: &[u8]) -> Vec<u8> {
    let mut enc = flate2::write::GzEncoder::new(Vec::new(), flate2::Compression::default());
    enc.write_all(raw).unwrap();
    let body = enc.finish().unwrap();
    let mut v = vec![2u8];
    push_u32(&mut v, body.len() as u32);
    push_u32(&mut v, raw.len() as u32);
    v.extend_from_slice(&body);
    v
}

/// The metadata blob (protocol 6) of the given archives.
fn metadata_blob(entries: &[Entry], named: bool) -> Vec<u8> {
    let mut v = vec![6u8];
    push_u32(&mut v, 1);
    v.push(if named { 1 } else { 0 });
    push_u16(&mut v, entries.len() as u32);
    let mut prev = 0;
    for e in entries {
        push_u16(&mut v, e.id - prev);
        prev = e.id;
    }
    if named {
        for e in entries {
            push_u32(&mut v, hash_archive(e.name.unwrap_or("")));
        }
    }
    for e in entries {
        push_u32(&mut v, e.crc);
    }
    for e in entries {
        push_u32(&mut v, e.version);
    }
    for e in entries {
        push_u16(&mut v, e.children.len() as u32);
    }
    for e in entries {
        let mut prev = 0;
        for c in &e.children {
            push_u16(&mut v, c - prev);
            prev = *c;
        }
    }
    if named {
        for e in entries {
            for n in &e.child_names {
                push_u32(&mut v, hash_archive(n));
            }
        }
    }
    v
}

/// The payload of an archive of several files, written in one chunk.
fn multi_file(files: &[Vec<u8>]) -> Vec<u8> {
    let mut v = Vec::new();
    for f in files {
        v.extend_from_slice(f);
    }
    let mut prev: i32 = 0;
    for f in files {
        let size = f.len() as i32;
        v.extend_from_slice(&(size - prev).to_be_bytes());
        prev = size;
    }
    v.push(1);
    v
}

/// Writes `payload` as the sector chain of `archive_id` at the end of `dat`,
/// and its entry into `idx`.
fn write_chain(dat: &mut Vec<u8>, idx: &mut Vec<u8>, index_id: u8, archive_id: u32, payload: &[u8]) {
    if dat.is_empty() {
        dat.resize(520, 0);
    }
    let large = archive_id >= 0xFFFF;
    let body = if large { 510 } else { 512 };
    let first = (dat.len() / 520) as u32;
    let parts: Vec<&[u8]> = if payload.is_empty() { vec![&payload[..]] } else { payload.chunks(body).collect() };
    for (part, chunk) in parts.iter().enumerate() {
        let sector = first + part as u32;
        let next = if part + 1 == parts.len() { 0 } else { sector + 1 };
        let mut block = Vec::new();
        if large {
            push_u32(&mut block, archive_id);
        } else {
            push_u16(&mut block, archive_id);
        }
        push_u16(&mut block, part as u32);
        block.extend_from_slice(&next.to_be_bytes()[1..]);
        block.push(index_id);
        block.extend_from_slice(chunk);
        block.resize(520, 0);
        dat.extend_from_slice(&block);
    }
    let at = archive_id as usize * 6;
    if idx.len() < at + 6 {
        idx.resize(at + 6, 0);
    }
    idx[at..at + 3].copy_from_slice(&(payload.len() as u32).to_be_bytes()[1..]);
    idx[at + 3..at + 6].copy_from_slice(&first.to_be_bytes()[1..]);
}

/// The legacy catalog archive (archive 5 of index 0) naming the map files.
fn catalog(map_index: Vec<u8>) -> Archive {
    let mut e = entry(5, 0, 0, vec![0, 1, 2]);
    e.name = Some("catalog");
    e.child_names = vec!["map_index", "map_version", "map_crc"];
    let index0 = CacheIndex::new(0, &container(&metadata_blob(&[e], true))).unwrap();
    let payload = multi_file(&[map_index, vec![0, 1], vec![0, 0, 0, 7]]);
    index0.archive(5, Stored::Sectors(payload)).unwrap()
}

fn map_record(i: u8, j: u8, mapfile: u16, locfile: u16, f2p: bool) -> Vec<u8> {
    let mut v = Vec::new();
    v.extend_from_slice(&((i as u16) << 8 | j as u16).to_be_bytes());
    v.extend_from_slice(&mapfile.to_be_bytes());
    v.extend_from_slice(&locfile.to_be_bytes());
    v.push(f2p as u8);
    v
}

/// A locations file with one location of id 36687 at plane 0, x 9, y 16.
fn trapdoor_locations() -> Vec<u8> {
    // An empty run up to id 32766, then a run of id 36687 with one location.
    vec![0xFF, 0xFF, 0x00, 0x8F, 0x51, 0x82, 0x51, 40, 0x00, 0x00]
}

/// A map-square archive of index 5 holding locations, water locations and tiles.
fn mapsquare_archive(i: u32, j: u32, locations: Vec<u8>) -> Archive {
    let id = i | j << 7;
    let index5 = CacheIndex::new(5, &container(&metadata_blob(&[entry(id, 10, 20, vec![0, 1, 3])], false))).unwrap();
    let payload = multi_file(&[locations, vec![0], vec![7; 12]]);
    index5.archive(id, Stored::Row(gzip_container(&payload), 11, 20)).unwrap()
}

#[test]
fn decode_50_50() {
    let mut records = map_record(50, 49, 300, 301, false);
    records.extend(map_record(50, 50, 100, 101, true));
    let catalog = catalog(records);

    let meta_blob = metadata_blob(&[entry(100, 1, 1, vec![0]), entry(101, 2, 2, vec![0])], false);
    let cache = CacheIndex::new(4, &container(&meta_blob)).unwrap();
    let (mut dat, mut idx) = (Vec::new(), Vec::new());
    write_chain(&mut dat, &mut idx, 4, 100, &container(&[1, 2, 3]));
    write_chain(&mut dat, &mut idx, 4, 101, &container(&trapdoor_locations()));

    let index = cache.get_index(&catalog).unwrap();
    let meta = index[&(50, 50)];
    assert_eq!((meta.mapfile, meta.locfile, meta.f2p), (100, 101, true));
    let raw = read_archive(&dat, &idx, 4, meta.locfile as u32).unwrap();
    let locs = cache.archive(meta.locfile as u32, Stored::Sectors(raw)).unwrap().file(0).unwrap();
    assert_eq!(locs, trapdoor_locations());
    let raw = read_archive(&dat, &idx, 4, meta.mapfile as u32).unwrap();
    let map = cache.archive(meta.mapfile as u32, Stored::Sectors(raw)).unwrap().file(0).unwrap();
    assert_eq!(map, vec![1, 2, 3]);
}

#[test]
fn loc_0_50_50_9_16_is_trapdoor() {
    let id = 36687_u32;
    let archive = mapsquare_archive(50, 50, trapdoor_locations());
    assert_eq!(archive.archive_id(), 6450);
    let square = MapSquare::new(&archive);
    assert_eq!((square.i(), square.j()), (50, 50));
    assert!(square
        .get_locations()
        .unwrap()
        .iter()
        .any(|loc| loc.id == id && loc.plane == 0 && loc.x == 9 && loc.y == 16));
}

#[test]
fn get_tile() {
    let square = MapSquare::new(&mapsquare_archive(49, 54, vec![0]));
    assert_eq!((square.i(), square.j()), (49, 54));
    let tiles = square.get_tiles().unwrap();
    assert_eq!(tiles, &vec![7; 12]);
}

#[test]
fn catalog_is_keyed_by_square_and_sorted() {
    let mut records = map_record(60, 2, 1, 2, false);
    records.extend(map_record(3, 200, 3, 4, true));
    records.extend(map_record(60, 2, 5, 6, false));
    records.extend(vec![9, 9]);
    let map = decode_map_index(&records);
    let keys: Vec<(u8, u8)> = map.keys().copied().collect();
    assert_eq!(keys, vec![(3, 200), (60, 2)]);
    assert!(keys.iter().all(|k| k.0 < 128));
    assert_eq!(map[&(60, 2)].mapfile, 5);
}

#[test]
fn get_index_without_map_index_fails() {
    let mut e = entry(5, 0, 0, vec![0]);
    e.name = Some("catalog");
    e.child_names = vec!["other"];
    let index0 = CacheIndex::new(0, &container(&metadata_blob(&[e], true))).unwrap();
    let catalog = index0.archive(5, Stored::Sectors(vec![1, 2])).unwrap();
    let cache = CacheIndex::new(4, &container(&metadata_blob(&[], false))).unwrap();
    assert!(matches!(cache.get_index(&catalog), Err(CacheError::FileNotFound(0, 5, _))));
}

#[test]
fn name_hash_values() {
    assert_eq!(hash_archive(""), 0);
    assert_eq!(hash_archive("a"), 97);
    assert_eq!(hash_archive("ab"), 97 * 31 + 98);
    assert_eq!(hash_archive("huffman"), 0x4AFC_73AD);
    assert_eq!(hash_bytes(&[0xFF; 8]), (0..8).fold(0u32, |h, _| h.wrapping_mul(31).wrapping_add(0xFF)));
}

#[test]
fn archive_by_name_matches_metadata_scan() {
    let mut a = entry(3, 0, 0, vec![0]);
    a.name = Some("huffman");
    a.child_names = vec![""];
    let mut b = entry(9, 0, 0, vec![0]);
    b.name = Some("other");
    b.child_names = vec![""];
    let cache = CacheIndex::new(10, &container(&metadata_blob(&[b, a].into_iter().rev().collect::<Vec<_>>(), true))).unwrap();
    let id = cache.archive_id_by_name("huffman").unwrap();
    assert_eq!(id, 3);
    let hash = hash_archive("huffman");
    let scanned = cache.metadatas().find_by_name_hash(hash).unwrap();
    assert_eq!(scanned.archive_id(), 3);
    let payload = container(&[4, 5, 6]);
    let by_name = cache.archive_by_name("huffman", Stored::Sectors(payload.clone())).unwrap();
    let by_scan = cache.get_file(scanned, Stored::Sectors(payload)).unwrap();
    assert_eq!(by_name, by_scan);
    assert_eq!(by_name, vec![4, 5, 6]);
    assert!(matches!(cache.archive_by_name("nothing", Stored::NoRow), Err(CacheError::ArchiveNotFound(0, 0))));
}

#[test]
fn crc_offsets() {
    assert_eq!(crc_offset(8), 2);
    assert_eq!(crc_offset(47), 2);
    assert_eq!(crc_offset(0), 1);
    assert_eq!(crc_offset(2), 1);
    assert_eq!(crc_offset(48), 1);
}

fn jcache_index(index_id: u32) -> CacheIndex {
    let entries = [entry(0, 100, 7, vec![0]), entry(4, 200, 8, vec![0]), entry(5, 300, 9, vec![0])];
    CacheIndex::new(index_id, &container(&metadata_blob(&entries, false))).unwrap()
}

#[test]
fn coherence_untampered() {
    let cache = jcache_index(2);
    let rows = vec![Some((101, 7)), Some((201, 8)), Some((301, 9))];
    assert!(cache.assert_coherence(&rows).is_ok());
    let cache = jcache_index(47);
    let rows = vec![Some((102, 7)), Some((202, 8)), Some((302, 9))];
    assert!(cache.assert_coherence(&rows).is_ok());
}

#[test]
fn coherence_tampered_version() {
    let cache = jcache_index(2);
    let rows = vec![Some((101, 7)), Some((201, 9)), Some((301, 10))];
    match cache.assert_coherence(&rows) {
        Err(CacheError::Version(2, 4, 8, 9)) => {}
        other => panic!("unexpected {:?}", other),
    }
}

#[test]
fn coherence_errors() {
    let cache = jcache_index(2);
    let rows = vec![Some((101, 7)), Some((0, 0)), Some((1, 1))];
    assert!(matches!(cache.assert_coherence(&rows), Err(CacheError::ArchiveNotFound(2, 4))));
    let rows = vec![Some((100, 7)), Some((201, 8)), Some((301, 9))];
    assert!(matches!(cache.assert_coherence(&rows), Err(CacheError::Crc(2, 0, 101, 100))));
    let rows = vec![Some((101, 7)), Some((201, 8)), None];
    assert!(matches!(cache.assert_coherence(&rows), Err(CacheError::ArchiveNotFound(2, 5))));
}

#[test]
fn jcache_rows() {
    let cache = jcache_index(8);
    let meta = cache.metadatas().get(4).unwrap();
    let data = gzip_container(b"payload");
    assert_eq!(cache.get_file(meta, Stored::Row(data.clone(), 202, 8)).unwrap(), b"payload".to_vec());
    assert!(matches!(cache.get_file(meta, Stored::Row(data.clone(), 201, 8)), Err(CacheError::Crc(8, 4, 202, 201))));
    assert!(matches!(cache.get_file(meta, Stored::Row(data.clone(), 202, 9)), Err(CacheError::Version(8, 4, 8, 9))));
    assert!(matches!(cache.get_file(meta, Stored::Row(data, 0, 0)), Err(CacheError::ArchiveNotFound(8, 4))));
    assert!(matches!(cache.get_file(meta, Stored::NoRow), Err(CacheError::ArchiveNotFound(8, 4))));
    assert!(matches!(check_stamp(8, meta, 202, 8), Ok(())));
}

#[test]
fn jcache_mutated_payload_fails() {
    let cache = jcache_index(2);
    let meta = cache.metadatas().get(0).unwrap();
    let mut data = gzip_container(b"some archive bytes");
    let last = data.len() - 6;
    data[last] ^= 0x55;
    assert!(matches!(cache.get_file(meta, Stored::Row(data, 101, 7)), Err(CacheError::Decompression)));
}

#[test]
fn archive_missing_from_metadata() {
    let cache = jcache_index(2);
    assert!(matches!(cache.archive(1, Stored::NoRow), Err(CacheError::ArchiveNotFound(2, 1))));
}

#[test]
fn sector_chain_round_trip() {
    let payload: Vec<u8> = (0..1500u32).map(|x| (x % 251) as u8).collect();
    let (mut dat, mut idx) = (Vec::new(), Vec::new());
    write_chain(&mut dat, &mut idx, 7, 12, &payload);
    assert_eq!(idx_entry(&idx, 12).unwrap(), (1500, 1));
    let raw = read_archive(&dat, &idx, 7, 12).unwrap();
    assert_eq!(raw, payload);
}

#[test]
fn sector_chain_large_id() {
    assert_eq!(header_len(0xFFFF), 10);
    assert_eq!(header_len(0xFFFE), 8);
    assert_eq!(header_len(0), 8);
    let payload: Vec<u8> = (0..1100u32).map(|x| (x % 13) as u8).collect();
    let (mut dat, mut idx) = (Vec::new(), Vec::new());
    write_chain(&mut dat, &mut idx, 7, 0x1_0000, &payload);
    assert_eq!(read_archive(&dat, &idx, 7, 0x1_0000).unwrap(), payload);
    // The small header read at a large id reads a wrong echo.
    let (mut dat2, mut idx2) = (Vec::new(), Vec::new());
    write_chain(&mut dat2, &mut idx2, 7, 0xFFFE, &payload);
    assert_eq!(read_archive(&dat2, &idx2, 7, 0xFFFE).unwrap(), payload);
}

#[test]
fn sector_chain_parts_start_at_zero() {
    let mut chain = SectorChain::start(3, 2, 600, 1).unwrap();
    assert_eq!((chain.part, chain.offset()), (0, 520));
    let mut block = vec![0, 2, 0, 0, 0, 0, 2, 3];
    block.extend(vec![1u8; 512]);
    chain.feed(&block).unwrap();
    assert_eq!((chain.part, chain.sector, chain.data.len()), (1, 2, 512));
    let mut wrong = vec![0, 2, 0, 0, 0, 0, 0, 3];
    wrong.extend(vec![2u8; 88]);
    assert!(matches!(chain.feed(&wrong), Err(CacheError::Corrupt)));
    let mut next = vec![0, 2, 0, 1, 0, 0, 0, 3];
    next.extend(vec![2u8; 88]);
    chain.feed(&next).unwrap();
    assert!(chain.is_done());
    assert_eq!(chain.finish().unwrap().len(), 600);
}

#[test]
fn sector_chain_errors() {
    let (mut dat, mut idx) = (Vec::new(), Vec::new());
    write_chain(&mut dat, &mut idx, 7, 1, &[1, 2, 3]);
    idx.extend(vec![0u8; 6]);
    assert!(matches!(read_archive(&dat, &idx, 7, 2), Err(CacheError::ArchiveNotFound(7, 2))));
    assert!(matches!(read_archive(&dat, &idx, 7, 40), Err(CacheError::EndOfInput)));
    // An entry that declares more than the chain holds.
    idx[6..9].copy_from_slice(&[0, 0x02, 0x58]);
    assert!(matches!(read_archive(&dat, &idx, 7, 1), Err(CacheError::Corrupt)));
    let mut short = SectorChain::start(7, 1, 10, 1).unwrap();
    assert!(matches!(short.feed(&[0, 1, 0]), Err(CacheError::EndOfInput)));
    assert!(matches!(SectorChain::start(7, 1, 10, 0), Err(CacheError::ArchiveNotFound(7, 1))));
}

#[test]
fn single_child_file() {
    let meta_blob = metadata_blob(&[entry(3, 0, 0, vec![0])], false);
    let cache = CacheIndex::new(2, &container(&meta_blob)).unwrap();
    let archive = cache.archive(3, Stored::Sectors(container(&[9, 8, 7]))).unwrap();
    assert_eq!(archive.file(0).unwrap(), vec![9, 8, 7]);
    assert!(matches!(archive.file(1), Err(CacheError::FileNotFound(2, 3, 1))));
}

#[test]
fn split_two_chunks() {
    // Two files, two chunks: file 0 = "ab" + "c", file 1 = "xyz" + "".
    let mut payload = b"abxyzc".to_vec();
    for d in [2i32, 1, 1, -1] {
        payload.extend_from_slice(&d.to_be_bytes());
    }
    payload.push(2);
    let meta_blob = metadata_blob(&[entry(1, 0, 0, vec![4, 6])], false);
    let index = IndexMetadata::deserialize(3, meta_blob).unwrap();
    let meta = index.get(1).unwrap().copy();
    let len = payload.len();
    let archive = Archive::new(meta, payload).unwrap();
    assert_eq!(archive.file(4).unwrap(), b"abc".to_vec());
    assert_eq!(archive.file(6).unwrap(), b"xyz".to_vec());
    let (ids, files) = archive.take_files();
    assert_eq!(ids, vec![4, 6]);
    assert_eq!(files.iter().map(|f| f.len()).sum::<usize>(), len - (1 + 4 * 2 * 2));
}

#[test]
fn split_errors() {
    let meta_blob = metadata_blob(&[entry(1, 0, 0, vec![0, 1])], false);
    let index = IndexMetadata::deserialize(3, meta_blob).unwrap();
    let mut negative = vec![1u8, 2];
    for d in [3i32, -5] {
        negative.extend_from_slice(&d.to_be_bytes());
    }
    negative.push(1);
    assert!(matches!(Archive::new(index.get(1).unwrap().copy(), negative), Err(CacheError::Corrupt)));
    assert!(matches!(Archive::new(index.get(1).unwrap().copy(), vec![]), Err(CacheError::Corrupt)));
    assert!(matches!(Archive::new(index.get(1).unwrap().copy(), vec![5, 9]), Err(CacheError::Corrupt)));
}

#[test]
fn metadata_decoding() {
    let mut a = entry(2, 11, 12, vec![0, 3, 4]);
    a.name = Some("first");
    a.child_names = vec!["x", "y", "z"];
    let mut b = entry(70000 - 60000, 21, 22, vec![1]);
    b.name = Some("second");
    b.child_names = vec!["w"];
    let index = IndexMetadata::deserialize(9, metadata_blob(&[a, b], true)).unwrap();
    assert_eq!(index.len(), 2);
    let m = index.get(10000).unwrap();
    assert_eq!((m.index_id(), m.crc(), m.version(), m.child_count()), (9, 21, 22, 1));
    assert_eq!(m.name(), Some(hash_archive("second")));
    let m = index.get(2).unwrap();
    assert_eq!(m.child_ids, vec![0, 3, 4]);
    assert_eq!(m.child_name_hashes, Some(vec![hash_archive("x"), hash_archive("y"), hash_archive("z")]));
    assert!(index.get(3).is_none());
}

#[test]
fn metadata_protocol_5_and_large_ids() {
    // protocol 5, large ids, not named, one archive 70000 with children 0 and 100000.
    let mut v = vec![5u8, 0x80];
    push_u32(&mut v, 1);
    push_u32(&mut v, 70000);
    push_u32(&mut v, 5);
    push_u32(&mut v, 6);
    push_u32(&mut v, 2);
    push_u32(&mut v, 0);
    push_u32(&mut v, 100000);
    let index = IndexMetadata::deserialize(1, v).unwrap();
    let m = index.get(70000).unwrap();
    assert_eq!(m.child_ids, vec![0, 100000]);
    assert_eq!(m.name(), None);
}

#[test]
fn metadata_errors() {
    assert!(matches!(IndexMetadata::deserialize(1, vec![]), Err(CacheError::Corrupt)));
    assert!(matches!(IndexMetadata::deserialize(1, vec![7, 0, 0, 0]), Err(CacheError::Corrupt)));
    // Truncated.
    assert!(matches!(IndexMetadata::deserialize(1, vec![5, 0, 0, 2, 0, 1]), Err(CacheError::Corrupt)));
    // Ids that do not increase.
    let mut v = vec![5u8, 0, 0, 2, 0, 1, 0, 0];
    v.extend(vec![0u8; 20]);
    assert!(matches!(IndexMetadata::deserialize(1, v), Err(CacheError::Corrupt)));
    assert!(matches!(CacheIndex::new(1, &[9, 0, 0, 0, 0]), Err(CacheError::Decompression)));
    assert!(matches!(CacheIndex::new(1, &container(&[7])), Err(CacheError::Corrupt)));
    assert!(IndexMetadata::empty().len() == 0);
}

#[test]
fn decompress_containers() {
    let raw = b"the quick brown fox jumps over the lazy dog".to_vec();
    assert_eq!(decompress(&container(&raw)).unwrap(), raw);
    assert_eq!(decompress(&gzip_container(&raw)).unwrap(), raw);

    let mut bz = bzip2::write::BzEncoder::new(Vec::new(), bzip2::Compression::best());
    bz.write_all(&raw).unwrap();
    let stream = bz.finish().unwrap();
    let mut v = vec![1u8];
    push_u32(&mut v, (stream.len() - 4) as u32);
    push_u32(&mut v, raw.len() as u32);
    v.extend_from_slice(&stream[4..]);
    assert_eq!(decompress(&v).unwrap(), raw);

    let mut z = flate2::write::ZlibEncoder::new(Vec::new(), flate2::Compression::default());
    z.write_all(&raw).unwrap();
    let mut v = b"ZLB\x01".to_vec();
    push_u32(&mut v, raw.len() as u32);
    v.extend_from_slice(&z.finish().unwrap());
    assert_eq!(decompress(&v).unwrap(), raw);

    let mut lz = Vec::new();
    lzma_rs::lzma_compress(&mut &raw[..], &mut lz).unwrap();
    let mut body = lz[..5].to_vec();
    body.extend_from_slice(&lz[13..]);
    let mut v = vec![3u8];
    push_u32(&mut v, body.len() as u32);
    push_u32(&mut v, raw.len() as u32);
    v.extend_from_slice(&body);
    assert_eq!(decompress(&v).unwrap(), raw);
}

#[test]
fn decompress_errors() {
    assert!(matches!(decompress(&[]), Err(CacheError::Decompression)));
    assert!(matches!(decompress(&[0, 0, 0, 0, 9, 1]), Err(CacheError::Decompression)));
    assert!(matches!(decompress(&[4, 0, 0, 0, 0, 0, 0, 0, 0]), Err(CacheError::Decompression)));
    assert!(matches!(decompress(&[2, 0, 0, 0, 2, 0, 0, 0, 1, 7, 7]), Err(CacheError::Decompression)));
    // A declared size that the stream does not have.
    let mut g = gzip_container(b"abc");
    g[8] = 4;
    assert!(matches!(decompress(&g), Err(CacheError::Decompression)));
}

#[test]
fn buffer_reads() {
    let mut b = Buffer::new(vec![0x12, 0x34, 0x56, 0x78, 0x9A, 0xFF, 0xFF, 0xFF, 0xFE, b'h', b'i', 0, 1, 2, 3]);
    assert_eq!(b.try_get_uint(3).unwrap(), 0x123456);
    assert_eq!(b.try_get_u16().unwrap(), 0x789A);
    assert_eq!(b.try_get_i32().unwrap(), -2);
    assert_eq!(b.try_get_string().unwrap(), b"hi".to_vec());
    assert_eq!(b.try_get_rgb().unwrap(), [1, 2, 3]);
    assert!(matches!(b.try_get_u8(), Err(CacheError::EndOfInput)));
    let mut c = Buffer::new(vec![1, 2, 3, 4, 5, 6, 7, 8, 9]);
    assert_eq!(c.try_get_u64().unwrap(), 0x0102030405060708);
    assert!(matches!(c.try_get_u32(), Err(CacheError::EndOfInput)));
    assert_eq!(c.remaining(), 1);
    let mut d = Buffer::new(vec![b'a']);
    assert!(matches!(d.try_get_string(), Err(CacheError::EndOfInput)));
    assert_eq!(d.pos, 0);
}

#[test]
fn locations_decoding() {
    let locs = dump_locations(3, 4, &[0x01, 0x02, 0x05, 0x00, 0x02, 0x81, 0x00, 0x07, 0x00, 0x00]).unwrap();
    assert_eq!(locs.len(), 2);
    assert_eq!((locs[0].id, locs[0].x, locs[0].y, locs[0].shape, locs[0].rotation), (0, 0, 1, 1, 1));
    assert_eq!((locs[1].id, locs[1].plane, locs[1].x, locs[1].y), (2, 0, 3, 63));
    assert!(locs.iter().all(|l| l.i == 3 && l.j == 4));
    assert!(matches!(dump_locations(0, 0, &[0x01, 0x02]), Err(CacheError::EndOfInput)));
}

#[test]
fn group_of_squares() {
    let a = MapSquare::new(&mapsquare_archive(50, 50, trapdoor_locations()));
    let b = MapSquare::new(&mapsquare_archive(51, 50, vec![0x01, 0x02, 0x05, 0x00, 0x00]));
    let group = GroupMapSquare::new(50, 50, vec![b, a]);
    assert_eq!((group.core_i(), group.core_j()), (50, 50));
    assert_eq!(group.core_square().unwrap().i(), 50);
    assert!(group.get(&(51, 50)).is_some());
    assert!(group.get(&(52, 50)).is_none());
    assert_eq!(group.iter().len(), 2);
    let mut ids: Vec<u32> = group.all_locations_iter().iter().map(|l| l.id).collect();
    ids.sort();
    assert_eq!(ids, vec![0, 36687]);
}

#[test]
fn square_parts_missing() {
    let meta_blob = metadata_blob(&[entry(7, 0, 0, vec![0, 1])], false);
    let index5 = CacheIndex::new(5, &container(&meta_blob)).unwrap();
    let archive = index5.archive(7, Stored::Sectors(container(&multi_file(&[vec![0], vec![0]])))).unwrap();
    let square = MapSquare::new(&archive);
    assert!(matches!(square.get_tiles(), Err(CacheError::FileNotFound(5, 7, 3))));
    assert!(square.get_locations().is_err());
    assert_eq!(square.get_water_locations().unwrap().len(), 0);
    assert!(square.take_water_locations().unwrap().is_empty());
    let square = MapSquare::new(&archive);
    assert!(square.take_tiles().is_err());
    let square = MapSquare::new(&archive);
    assert!(square.take_locations().is_err());
}

#[test]
fn mapsquares_of_an_index() {
    let entries = [entry(6450, 10, 20, vec![0, 1, 3]), entry(6961, 1, 1, vec![0])];
    let index5 = CacheIndex::new(5, &container(&metadata_blob(&entries, false))).unwrap();
    let squares = MapSquares::new(index5);
    assert_eq!(squares.coordinates(), vec![(50, 50), (49, 54)]);
    let payload = multi_file(&[trapdoor_locations(), vec![0], vec![7; 12]]);
    let sq = squares.square(50, 50, Stored::Row(gzip_container(&payload), 11, 20)).unwrap();
    assert_eq!((sq.i(), sq.j()), (50, 50));
    assert_eq!(sq.take_locations().unwrap()[0].id, 36687);
    assert!(matches!(squares.square(1, 1, Stored::NoRow), Err(CacheError::ArchiveNotFound(5, 129))));
}

/// An index of map squares, each with locations, water locations and tiles.
fn squares_index(squares: &[(u32, u32, Vec<u8>)]) -> (MapSquares, Vec<Vec<u8>>) {
    let entries: Vec<Entry> = squares.iter().map(|(i, j, _)| entry(i | j << 7, 10, 20, vec![0, 1, 3])).collect();
    let index5 = CacheIndex::new(5, &container(&metadata_blob(&entries, false))).unwrap();
    let payloads = squares
        .iter()
        .map(|(i, _, locs)| gzip_container(&multi_file(&[locs.clone(), vec![0], vec![*i as u8; 64]])))
        .collect();
    (MapSquares::new(index5), payloads)
}

#[test]
fn water() {
    let (squares, payloads) = squares_index(&[(39, 62, vec![0]), (40, 62, vec![0]), (41, 62, vec![0])]);
    for (k, (i, j)) in squares.coordinates().into_iter().enumerate() {
        let square = squares.square(i, j, Stored::Row(payloads[k].clone(), 11, 20)).unwrap();
        if square.i() == 40 && square.j() == 62 {
            for _ in 0..4 {
                let tile = square.get_tiles().unwrap().get(10);
                assert_eq!(tile, Some(&40));
                return;
            }
        }
    }
    panic!("Unable to get some water");
}

#[test]
fn traverse() {
    // Location 3263 at x 62, y 53 of square (56, 54).
    let swamp = vec![0x8C, 0xC0, 0x8F, 0xB6, 40, 0x00, 0x00];
    let (squares, payloads) = squares_index(&[(50, 50, trapdoor_locations()), (56, 54, swamp)]);
    for (k, (i, j)) in squares.coordinates().into_iter().enumerate() {
        let sq = squares.square(i, j, Stored::Row(payloads[k].clone(), 11, 20)).expect("error deserializing mapsquare");
        if let Ok(locations) = sq.get_locations() {
            for loc in locations {
                if loc.id == 3263 {
                    println!("{} {} {} {}", loc.i, loc.i, loc.x, loc.y);
                    if loc.i == 56 && loc.j == 54 && loc.x == 62 && loc.y == 53 {
                        return;
                    }
                }
            }
        }
    }
    panic!("swamp not found");
}

#[test]
fn group_keeps_last_square_per_coordinates() {
    let first = MapSquare::new(&mapsquare_archive(50, 50, vec![0]));
    let other = MapSquare::new(&mapsquare_archive(51, 50, vec![0]));
    let last = MapSquare::new(&mapsquare_archive(50, 50, trapdoor_locations()));
    let group = GroupMapSquare::new(50, 50, vec![first, other, last]);
    assert_eq!(group.iter().len(), 2);
    let core = group.core_square().unwrap();
    assert_eq!(core.get_locations().unwrap()[0].id, 36687);
    assert!(group.get(&(51, 50)).is_some());
}

#[test]
fn get_index_reports_first_missing_name() {
    let cache = CacheIndex::new(4, &container(&metadata_blob(&[], false))).unwrap();
    let with_names = |names: Vec<&'static str>| {
        let mut e = entry(5, 0, 0, (0..names.len() as u32).collect());
        e.name = Some("catalog");
        e.child_names = names.clone();
        let index0 = CacheIndex::new(0, &container(&metadata_blob(&[e], true))).unwrap();
        let files: Vec<Vec<u8>> = names.iter().map(|_| map_record(1, 2, 3, 4, false)).collect();
        let payload = if files.len() == 1 { files[0].clone() } else { multi_file(&files) };
        index0.archive(5, Stored::Sectors(payload)).unwrap()
    };
    let only_index = with_names(vec!["map_index", "map_crc"]);
    match cache.get_index(&only_index) {
        Err(CacheError::FileNotFound(0, 5, h)) => assert_eq!(h, hash_archive("map_version")),
        other => panic!("unexpected {:?}", other.map(|m| m.len())),
    }
    let none = with_names(vec!["map_crc"]);
    match cache.get_index(&none) {
        Err(CacheError::FileNotFound(0, 5, h)) => assert_eq!(h, hash_archive("map_index")),
        other => panic!("unexpected {:?}", other.map(|m| m.len())),
    }
    let all = with_names(vec!["map_index", "map_version", "map_crc"]);
    let map = cache.get_index(&all).unwrap();
    assert_eq!(map[&(1, 2)].locfile, 4);
}

#[test]
fn square_errors_follow_the_archive() {
    let entries = [entry(6450, 10, 20, vec![0, 1, 3])];
    let squares = MapSquares::new(CacheIndex::new(5, &container(&metadata_blob(&entries, false))).unwrap());
    let payload = gzip_container(&multi_file(&[vec![0], vec![0], vec![1]]));
    assert!(matches!(squares.square(50, 50, Stored::Row(payload.clone(), 12, 20)), Err(CacheError::Crc(5, 6450, 11, 12))));
    assert!(matches!(squares.square(50, 50, Stored::Row(vec![9], 11, 20)), Err(CacheError::Decompression)));
    assert!(matches!(squares.square(50, 50, Stored::Row(gzip_container(&[5, 1]), 11, 20)), Err(CacheError::Corrupt)));
    assert!(squares.square(50, 50, Stored::Row(payload, 11, 20)).is_ok());
}
