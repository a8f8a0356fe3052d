use argus::error::Error as Kind;
use argus::layer::memory::MemoryLayer;
use argus::layer::{copy_records, flush, new, AnyLayer, Layer};
use byteorder::{ByteOrder, LittleEndian};

fn key_of(index: u32) -> Vec<u8> {
    let mut data = [0; 4];
    LittleEndian::write_u32(&mut data, index);
    data.to_vec()
}

fn check_layer_stress(layer: &mut AnyLayer, count: u32) {
    let total: u64 = layer.count();
    let mut inc_count: u64;

    for index in 0..count {
        let data = key_of(index);
        assert!(layer.set(&data, &data).is_ok());
        assert_eq!(layer.count(), (index as u64) + 1);
    }

    inc_count = 0;
    for _ in layer.keys(false) {
        inc_count += 1
    }
    assert_eq!(inc_count - total, count as u64);

    for index in 0..count {
        let key = key_of(index);

        let get_status = layer.get(&key);
        assert!(get_status.is_ok());
        assert!(get_status.unwrap().is_some());

        let mut del_status = layer.del(&key);
        assert!(del_status.is_ok());
        assert_eq!(del_status.unwrap(), true);

        del_status = layer.del(&key);
        assert!(del_status.is_ok());
        assert_eq!(del_status.unwrap(), false);
    }

    assert_eq!(layer.count(), 0);
    inc_count = 0;
    for _ in layer.keys(false) {
        inc_count += 1
    }
    assert_eq!(inc_count - total, 0);
}

fn check_layer_basic(layer: &mut AnyLayer) {
    let key: Vec<u8> = vec![1, 2, 3];
    let value: Vec<u8> = vec![0, 0, 0];

    let mut get_status = layer.get(&key);
    assert!(get_status.is_ok());
    assert!(get_status.unwrap().is_none());
    assert_eq!(layer.count(), 0);

    assert!(layer.set(&key, &value).is_ok());
    get_status = layer.get(&key);
    assert!(get_status.is_ok());
    assert!(get_status.unwrap().is_some());
    assert_eq!(layer.count(), 1);

    let mut del_status = layer.del(&key);
    assert!(del_status.is_ok());
    assert_eq!(del_status.unwrap(), true);
    assert_eq!(layer.count(), 0);

    del_status = layer.del(&key);
    assert!(del_status.is_ok());
    assert_eq!(del_status.unwrap(), false);
    assert_eq!(layer.count(), 0);

    get_status = layer.get(&key);
    assert!(get_status.is_ok());
    assert!(get_status.unwrap().is_some());
    assert_eq!(layer.count(), 0);
}

#[test]
fn test_not_exist() {
    let layer = new("not-exist");
    assert!(layer.ok().is_none());
}

#[test]
fn test_memory_layer() {
    let mut layer = new("mem").ok().unwrap();

    check_layer_basic(&mut layer);
    check_layer_stress(&mut layer, 128);
}

#[test]
fn unknown_layer_says_which() {
    let err = new("not-exist").err().unwrap();
    assert_eq!(err.kind, Kind::Unknown);
    assert_eq!(err.to_string(), "cannot create layer: not-exist");
    assert_eq!(err.kind.to_string(), "Unknown");
}

#[test]
fn memory_alias_resolves() {
    let layer = new("memory").ok().unwrap();
    assert_eq!(layer.name(), "mem");
    assert_eq!(layer.count(), 0);
    assert_eq!(layer.capacity(), 0);
}

#[test]
fn memory_open_is_unsupported() {
    let layer = MemoryLayer::new();
    let err = layer.open("file:///tmp/none").err().unwrap();
    assert_eq!(err.kind, Kind::Unsupported);
    assert_eq!(err.to_string(), "[mem] not support open");
}

#[test]
fn tombstone_keeps_payload_and_capacity() {
    let mut layer = MemoryLayer::new();
    let key: Vec<u8> = vec![9];
    assert!(layer.set(&key, &vec![7, 7]).is_ok());
    assert_eq!(layer.del(&key).ok().unwrap(), true);
    let held = layer.get(&key).ok().unwrap().unwrap();
    assert!(held.is_deleted());
    assert_eq!(held.value, vec![7, 7]);
    assert_eq!(layer.count(), 0);
    assert_eq!(layer.capacity(), 1);
}

#[test]
fn set_resurrects_a_tombstone() {
    let mut layer = MemoryLayer::new();
    let key: Vec<u8> = vec![9];
    assert!(layer.set(&key, &vec![1]).is_ok());
    assert_eq!(layer.del(&key).ok().unwrap(), true);
    assert!(layer.set(&key, &vec![2]).is_ok());
    let held = layer.get(&key).ok().unwrap().unwrap();
    assert!(!held.is_deleted());
    assert_eq!(held.value, vec![2]);
    assert_eq!(layer.count(), 1);
    assert_eq!(layer.capacity(), 1);
}

#[test]
fn del_of_absent_key_leaves_no_tombstone() {
    let mut layer = MemoryLayer::new();
    assert_eq!(layer.del(&vec![4]).ok().unwrap(), false);
    assert!(layer.get(&vec![4]).ok().unwrap().is_none());
    assert_eq!(layer.capacity(), 0);
}

#[test]
fn keys_come_in_descending_order() {
    let mut layer = MemoryLayer::new();
    for index in 0..128u32 {
        let data = key_of(index);
        assert!(layer.set(&data, &data).is_ok());
    }
    assert_eq!(layer.count(), 128);
    let keys = layer.keys(false);
    assert_eq!(keys.len(), 128);
    for i in 1..keys.len() {
        assert!(keys[i - 1] > keys[i]);
    }
}

#[test]
fn keys_and_pairs_with_tombstones() {
    let mut layer = MemoryLayer::new();
    assert!(layer.set(&vec![1], &vec![10]).is_ok());
    assert!(layer.set(&vec![3], &vec![30]).is_ok());
    assert!(layer.set(&vec![2], &vec![20]).is_ok());
    assert!(layer.set(&vec![1, 0], &vec![11]).is_ok());
    assert_eq!(layer.del(&vec![2]).ok().unwrap(), true);

    assert_eq!(layer.keys(false), vec![vec![3], vec![1, 0], vec![1]]);
    assert_eq!(layer.keys(true), vec![vec![3], vec![2], vec![1, 0], vec![1]]);

    let pairs = layer.pairs();
    assert_eq!(pairs.len(), 4);
    assert_eq!(pairs[0].0, vec![3]);
    assert_eq!(pairs[1].0, vec![2]);
    assert_eq!(pairs[1].1.value, vec![20]);
    assert!(pairs[1].1.is_deleted());
    assert_eq!(pairs[3].0, vec![1]);
    assert_eq!(pairs[3].1.value, vec![10]);
    assert!(!pairs[3].1.is_deleted());
}

#[test]
fn erase_drops_everything() {
    let mut layer = MemoryLayer::new();
    assert!(layer.set(&vec![1], &vec![10]).is_ok());
    assert!(layer.set(&vec![2], &vec![20]).is_ok());
    assert_eq!(layer.del(&vec![2]).ok().unwrap(), true);
    assert!(layer.erase().is_ok());
    assert_eq!(layer.count(), 0);
    assert_eq!(layer.capacity(), 0);
    assert!(layer.get(&vec![1]).ok().unwrap().is_none());
}

#[test]
fn flush_moves_records_and_tombstones() {
    let mut src = MemoryLayer::new();
    let mut dst = MemoryLayer::new();
    assert!(dst.set(&vec![1], &vec![100]).is_ok());
    assert!(dst.set(&vec![4], &vec![40]).is_ok());
    assert!(src.set(&vec![1], &vec![10]).is_ok());
    assert!(src.set(&vec![2], &vec![20]).is_ok());
    assert_eq!(src.del(&vec![2]).ok().unwrap(), true);

    assert!(flush(&mut src, &mut dst).is_ok());

    assert_eq!(src.capacity(), 0);
    assert_eq!(dst.capacity(), 3);
    assert_eq!(dst.count(), 2);
    assert_eq!(dst.get(&vec![1]).ok().unwrap().unwrap().value, vec![10]);
    let moved = dst.get(&vec![2]).ok().unwrap().unwrap();
    assert!(moved.is_deleted());
    assert_eq!(moved.value, vec![20]);
    assert_eq!(dst.get(&vec![4]).ok().unwrap().unwrap().value, vec![40]);
}

#[test]
fn copy_leaves_the_source_alone() {
    let mut src = MemoryLayer::new();
    let mut dst = MemoryLayer::new();
    assert!(src.set(&vec![1], &vec![10]).is_ok());
    assert!(src.set(&vec![2], &vec![20]).is_ok());
    assert_eq!(src.del(&vec![2]).ok().unwrap(), true);
    assert!(dst.set(&vec![2], &vec![200]).is_ok());

    assert!(copy_records(&src, &mut dst).is_ok());

    assert_eq!(src.capacity(), 2);
    assert_eq!(src.count(), 1);
    assert_eq!(dst.capacity(), 2);
    assert_eq!(dst.count(), 1);
    assert!(dst.get(&vec![2]).ok().unwrap().unwrap().is_deleted());
}
