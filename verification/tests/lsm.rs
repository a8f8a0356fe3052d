use argus::error::Error as Kind;
use argus::layer::memory::NAME;
use argus::lsm::LSM;
use byteorder::{ByteOrder, LittleEndian};

fn check_lsm(layer: &mut LSM) {
    let key: Vec<u8> = vec![0, 0, 0];
    let value: Vec<u8> = vec![1, 2, 3];

    let mut get_status = layer.get(&key);
    assert!(get_status.is_ok());
    assert!(get_status.unwrap().is_none());
    assert_eq!(layer.count(), 0);

    let set_status = layer.set(&key, &value);
    assert!(set_status.is_ok());
    get_status = layer.get(&key);
    assert!(get_status.is_ok());
    assert!(get_status.unwrap().is_some());
    assert_eq!(layer.count(), 1);

    let mut del_status = layer.del(&key);
    assert!(del_status.is_ok());
    assert_eq!(del_status.unwrap(), true);
    assert_eq!(layer.count(), 0);

    del_status = layer.del(&key);
    assert!(del_status.is_ok());
    assert_eq!(del_status.unwrap(), false);
    assert_eq!(layer.count(), 0);

    get_status = layer.get(&key);
    assert!(get_status.is_ok());
    assert!(get_status.unwrap().is_none());
    assert_eq!(layer.count(), 0);
}

fn check_stress_lsm(layer: &mut LSM, count: u32) {
    for c in 0..count {
        let mut data = [0; 4];
        LittleEndian::write_u32(&mut data, c);

        let resp = layer.set(&data.to_vec(), &data.to_vec());
        assert!(resp.is_ok());
    }
}

#[test]
fn test_default_lsm() {
    let mut layer: LSM = LSM::mem();
    check_lsm(&mut layer);
    check_stress_lsm(&mut layer, 1024);
}

#[test]
fn test_multi_mem_layer() {
    let mut layer: LSM = LSM::new()
        .add_layer(NAME, 2)
        .unwrap()
        .add_layer(NAME, 4)
        .unwrap()
        .add_layer(NAME, 0)
        .unwrap();

    check_lsm(&mut layer);
    check_stress_lsm(&mut layer, 1024);
}

#[test]
#[should_panic]
fn test_non_exist_layer() {
    LSM::new()
        .add_layer("NOT EXIST LAYER", 0)
        .expect("should not get the layer");
}

#[test]
fn test_empty_layer_lsm() {
    let key: Vec<u8> = vec![0, 0, 0];
    let value: Vec<u8> = vec![1, 2, 3];

    let mut layer: LSM = LSM::new();

    assert!(layer.get(&key).is_ok());
    assert!(layer.get(&key).unwrap().is_none());
    assert!(layer.set(&key, &value).is_err());
    assert!(layer.del(&key).is_ok());
    assert_eq!(layer.del(&key).unwrap(), false);
    assert_eq!(layer.count(), 0);
}

#[test]
fn set_without_layer_is_no_layer() {
    let mut layer: LSM = LSM::new();
    let err = layer.set(&vec![1], &vec![2]).err().unwrap();
    assert_eq!(err.kind, Kind::NoLayer);
}

#[test]
fn unknown_layer_fails_the_build() {
    let err = LSM::new().add_layer("not-exist", 0).err().unwrap();
    assert_eq!(err.kind, Kind::Unknown);
    assert_eq!(err.to_string(), "cannot create layer: not-exist");
}

#[test]
fn stress_keeps_every_key_readable() {
    let mut layer: LSM = LSM::new()
        .add_layer(NAME, 2)
        .unwrap()
        .add_layer(NAME, 4)
        .unwrap()
        .add_layer(NAME, 0)
        .unwrap();
    check_stress_lsm(&mut layer, 256);
    for c in 0..256u32 {
        let mut data = [0; 4];
        LittleEndian::write_u32(&mut data, c);
        assert_eq!(layer.get(&data.to_vec()).unwrap(), Some(data.to_vec()));
    }
    assert_eq!(layer.count(), 256);
}

#[test]
fn tombstone_in_top_shadows_value_below() {
    let mut layer: LSM = LSM::new()
        .add_layer(NAME, 2)
        .unwrap()
        .add_layer(NAME, 0)
        .unwrap();
    let k1: Vec<u8> = vec![1];
    let k2: Vec<u8> = vec![2];

    assert!(layer.set(&k1, &vec![10]).is_ok());
    assert!(layer.set(&k2, &vec![20]).is_ok());
    assert_eq!(layer.get(&k1).unwrap(), Some(vec![10]));
    assert_eq!(layer.get(&k2).unwrap(), Some(vec![20]));

    assert!(layer.set(&k1, &vec![11]).is_ok());
    assert_eq!(layer.get(&k1).unwrap(), Some(vec![11]));
    assert_eq!(layer.count(), 3);

    assert_eq!(layer.del(&k1).unwrap(), true);
    assert_eq!(layer.get(&k1).unwrap(), None);
    assert_eq!(layer.get(&k2).unwrap(), Some(vec![20]));
    assert_eq!(layer.del(&k1).unwrap(), false);
    assert_eq!(layer.count(), 2);
}

#[test]
fn spilled_key_is_out_of_reach_of_del() {
    let mut layer: LSM = LSM::new()
        .add_layer(NAME, 1)
        .unwrap()
        .add_layer(NAME, 0)
        .unwrap();
    let key: Vec<u8> = vec![1];
    assert!(layer.set(&key, &vec![10]).is_ok());
    assert_eq!(layer.del(&key).unwrap(), false);
    assert_eq!(layer.get(&key).unwrap(), Some(vec![10]));
}

#[test]
fn bottom_grows_when_it_overflows() {
    let mut layer: LSM = LSM::new()
        .add_layer(NAME, 1)
        .unwrap()
        .add_layer(NAME, 1)
        .unwrap();
    for c in 0..8u8 {
        assert!(layer.set(&vec![c], &vec![c]).is_ok());
    }
    for c in 0..8u8 {
        assert_eq!(layer.get(&vec![c]).unwrap(), Some(vec![c]));
    }
    assert_eq!(layer.count(), 8);
}

#[test]
fn add_layer_leaves_the_engine_alone() {
    let mut first: LSM = LSM::mem();
    assert!(first.set(&vec![1], &vec![10]).is_ok());
    assert!(first.set(&vec![2], &vec![20]).is_ok());
    assert_eq!(first.del(&vec![2]).unwrap(), true);
    let mut second = first.add_layer("memory", 0).unwrap();
    assert_eq!(first.count(), 1);
    assert_eq!(first.get(&vec![1]).unwrap(), Some(vec![10]));
    assert_eq!(second.count(), 1);
    assert_eq!(second.get(&vec![1]).unwrap(), Some(vec![10]));
    assert_eq!(second.get(&vec![2]).unwrap(), None);
    assert_eq!(second.del(&vec![2]).unwrap(), false);

    assert!(second.set(&vec![3], &vec![30]).is_ok());
    assert_eq!(second.del(&vec![1]).unwrap(), true);
    assert_eq!(first.get(&vec![3]).unwrap(), None);
    assert_eq!(first.get(&vec![1]).unwrap(), Some(vec![10]));
}

#[test]
fn layers_above_the_bottom_stay_under_their_threshold() {
    let mut layer: LSM = LSM::new()
        .add_layer(NAME, 2)
        .unwrap()
        .add_layer(NAME, 4)
        .unwrap()
        .add_layer(NAME, 0)
        .unwrap();
    for c in 0..200u32 {
        let mut data = [0; 4];
        LittleEndian::write_u32(&mut data, c);
        assert!(layer.set(&data.to_vec(), &data.to_vec()).is_ok());

        let levels = layer.profile();
        assert_eq!(levels.len(), 3);
        for (count, threshold) in &levels[..levels.len() - 1] {
            assert!(*threshold == 0 || count < threshold);
        }
        let total: u64 = levels.iter().map(|l| l.0).sum();
        assert_eq!(total, (c as u64) + 1);
        assert_eq!(layer.count(), (c as u64) + 1);
    }
}

#[test]
fn spill_moves_a_full_top_layer_down() {
    let mut layer: LSM = LSM::new()
        .add_layer(NAME, 2)
        .unwrap()
        .add_layer(NAME, 0)
        .unwrap();
    assert!(layer.set(&vec![1], &vec![10]).is_ok());
    assert_eq!(layer.profile(), vec![(1, 2), (0, 0)]);
    assert!(layer.set(&vec![2], &vec![20]).is_ok());
    assert_eq!(layer.profile(), vec![(0, 2), (2, 0)]);
    assert!(layer.set(&vec![3], &vec![30]).is_ok());
    assert_eq!(layer.profile(), vec![(1, 2), (2, 0)]);
}

#[test]
fn overfull_bottom_gets_a_layer_below() {
    let mut layer: LSM = LSM::new()
        .add_layer(NAME, 1)
        .unwrap()
        .add_layer(NAME, 1)
        .unwrap();
    assert!(layer.set(&vec![1], &vec![10]).is_ok());
    assert_eq!(layer.profile(), vec![(0, 1), (1, 1)]);
    assert!(layer.set(&vec![2], &vec![20]).is_ok());
    assert_eq!(layer.profile(), vec![(0, 1), (2, 1), (0, 1)]);
    assert!(layer.set(&vec![3], &vec![30]).is_ok());
    assert_eq!(layer.profile(), vec![(0, 1), (0, 1), (3, 1), (0, 1)]);
    assert_eq!(layer.get(&vec![1]).unwrap(), Some(vec![10]));
    assert_eq!(layer.get(&vec![2]).unwrap(), Some(vec![20]));
    assert_eq!(layer.get(&vec![3]).unwrap(), Some(vec![30]));
}

#[test]
fn flush_without_pressure_changes_nothing() {
    let mut layer: LSM = LSM::new()
        .add_layer(NAME, 4)
        .unwrap()
        .add_layer(NAME, 0)
        .unwrap();
    assert!(layer.set(&vec![1], &vec![10]).is_ok());
    assert!(layer.flush().is_ok());
    assert!(layer.flush().is_ok());
    assert_eq!(layer.profile(), vec![(1, 4), (0, 0)]);
}
