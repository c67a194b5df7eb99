use rs3cache_backend::buf::Buffer;
use rs3cache_backend::meta::Metadata;
use rs3cache_backend::error::CacheError;
use rs3cache_backend::paramtable::{Param, ParamTable};
use rs3cache_backend::underlays::Underlay;

#[test]
fn param_table_values() {
    let mut buffer = Buffer::new(vec![
        2, 0, 0, 0, 5, 0xFF, 0xFF, 0xFF, 0xFE, 1, 0, 1, 0, b'h', b'i', 0, 77,
    ]);
    let table = ParamTable::deserialize(&mut buffer).unwrap();
    assert_eq!(buffer.pos, 16);
    assert!(matches!(table.get(5), Some(Param::Integer(-2))));
    match table.get(256) {
        Some(Param::String(s)) => assert_eq!(s, &b"hi".to_vec()),
        other => panic!("unexpected {:?}", other),
    }
    assert!(table.get(6).is_none());
}

#[test]
fn param_table_later_key_wins() {
    let mut buffer = Buffer::new(vec![2, 0, 0, 0, 9, 0, 0, 0, 1, 0, 0, 0, 9, 0, 0, 0, 2]);
    let table = ParamTable::deserialize(&mut buffer).unwrap();
    assert_eq!(table.params.len(), 1);
    assert!(matches!(table.get(9), Some(Param::Integer(2))));
}

#[test]
fn param_table_errors() {
    let mut unknown = Buffer::new(vec![1, 7, 0, 0, 1, 0]);
    assert!(matches!(ParamTable::deserialize(&mut unknown), Err(CacheError::Corrupt)));
    let mut short = Buffer::new(vec![1, 0, 0, 0, 1, 0, 0]);
    assert!(matches!(ParamTable::deserialize(&mut short), Err(CacheError::EndOfInput)));
    let mut unterminated = Buffer::new(vec![1, 1, 0, 0, 1, b'a']);
    assert!(matches!(ParamTable::deserialize(&mut unterminated), Err(CacheError::EndOfInput)));
    let mut empty = Buffer::new(vec![]);
    assert!(matches!(ParamTable::deserialize(&mut empty), Err(CacheError::EndOfInput)));
}

#[test]
fn underlay_opcodes() {
    let u = Underlay::deserialize(12, vec![1, 10, 20, 30, 2, 0, 5, 4, 0]).unwrap();
    assert_eq!(u.id, 12);
    assert_eq!(u.colour, Some([10, 20, 30]));
    assert_eq!(u.op_2, Some(5));
    assert_eq!(u.op_3, None);
    assert_eq!(u.op_4, Some(true));
    assert_eq!(u.op_5, None);
    let plain = Underlay::deserialize(1, vec![0]).unwrap();
    assert_eq!(plain.colour, None);
}

#[test]
fn underlay_errors() {
    assert!(matches!(Underlay::deserialize(3, vec![9, 0]), Err(CacheError::UnknownOpcode(9, 3))));
    assert!(matches!(Underlay::deserialize(3, vec![0, 1]), Err(CacheError::Corrupt)));
    assert!(matches!(Underlay::deserialize(3, vec![1, 2]), Err(CacheError::EndOfInput)));
    assert!(matches!(Underlay::deserialize(3, vec![5]), Err(CacheError::EndOfInput)));
}

fn two_file_archive(a: Vec<u8>, b: Vec<u8>) -> rs3cache_backend::arc::Archive {
    let meta = Metadata {
        index_id: 2,
        archive_id: 1,
        name_hash: None,
        crc: 0,
        version: 0,
        child_count: 2,
        child_ids: vec![3, 8],
        child_name_hashes: None,
    };
    let mut payload = a.clone();
    payload.extend_from_slice(&b);
    payload.extend_from_slice(&(a.len() as i32).to_be_bytes());
    payload.extend_from_slice(&(b.len() as i32 - a.len() as i32).to_be_bytes());
    payload.push(1);
    rs3cache_backend::arc::Archive::new(meta, payload).unwrap()
}

#[test]
fn underlay_dump_all() {
    let archive = two_file_archive(vec![1, 1, 2, 3, 0], vec![5, 0]);
    let all = Underlay::dump_all(&archive).unwrap();
    assert_eq!(all.keys().copied().collect::<Vec<_>>(), vec![3, 8]);
    assert_eq!(all[&3].colour, Some([1, 2, 3]));
    assert_eq!(all[&8].id, 8);
    assert_eq!(all[&8].op_5, Some(true));
    let broken = two_file_archive(vec![0], vec![6, 0]);
    assert!(matches!(Underlay::dump_all(&broken), Err(CacheError::UnknownOpcode(6, 8))));
}
