use roland::load::{
    coord_channels_exceed, load_first, load_second, map_paths, maps, MapError,
};

fn i32le(v: i32) -> Vec<u8> {
    v.to_le_bytes().to_vec()
}

fn coord_file(w: i32, h: i32, d: i32, samples: &[i16]) -> Vec<u8> {
    let mut b = Vec::new();
    b.extend(i32le(w));
    b.extend(i32le(h));
    b.extend(i32le(d));
    for s in samples {
        b.extend(s.to_le_bytes());
    }
    b
}

fn interp_file(w: i32, h: i32, samples: &[u16]) -> Vec<u8> {
    let mut b = Vec::new();
    b.extend(i32le(w));
    b.extend(i32le(h));
    for s in samples {
        b.extend(s.to_le_bytes());
    }
    b
}

#[test]
fn first_map_reads_samples_in_order() {
    let b = coord_file(2, 3, 2, &[1, -2, 3, -4, 5, -6, 7, -8, 9, -10, 32767, -32768]);
    let m = load_first(&b).unwrap();
    assert_eq!((m.width, m.height, m.channels), (2, 3, 2));
    assert_eq!(m.values, vec![1, -2, 3, -4, 5, -6, 7, -8, 9, -10, 32767, -32768]);
    // pixel (1, 2) is the sixth pixel
    assert_eq!(m.channel(1, 2, 0), 32767);
    assert_eq!(m.channel(1, 2, 1), -32768);
    assert_eq!(m.channel(0, 1, 1), -4);
}

#[test]
fn first_map_missing_channel_is_zero() {
    let b = coord_file(2, 1, 1, &[11, 22]);
    let m = load_first(&b).unwrap();
    assert_eq!(m.values, vec![11, 22]);
    assert_eq!(m.channel(1, 0, 0), 22);
    assert_eq!(m.channel(1, 0, 1), 0);
    let b = coord_file(2, 2, -3, &[]);
    let m = load_first(&b).unwrap();
    assert!(m.values.is_empty());
    assert_eq!(m.channel(1, 1, 0), 0);
}

#[test]
fn first_map_errors() {
    assert_eq!(load_first(&[0u8; 11]).err(), Some(MapError::Truncated));
    assert_eq!(load_first(&coord_file(-1, 3, 2, &[])).err(), Some(MapError::NegativeSize));
    assert_eq!(load_first(&coord_file(3, -1, 2, &[])).err(), Some(MapError::NegativeSize));
    assert_eq!(load_first(&coord_file(2, 2, 2, &[1, 2, 3, 4, 5, 6, 7])).err(), Some(MapError::Truncated));
    let mut b = coord_file(1, 1, 2, &[1, 2]);
    b.pop();
    assert_eq!(load_first(&b).err(), Some(MapError::Truncated));
}

#[test]
fn first_map_ignores_trailing_bytes() {
    let mut b = coord_file(1, 2, 1, &[7, 8]);
    let plain = load_first(&b).unwrap();
    b.extend([1, 2, 3]);
    let longer = load_first(&b).unwrap();
    assert_eq!(plain.values, longer.values);
    assert_eq!((plain.width, plain.height, plain.channels), (longer.width, longer.height, longer.channels));
}

#[test]
fn too_many_channels_detected() {
    assert!(coord_channels_exceed(&coord_file(1, 1, 3, &[1, 2, 3])));
    assert!(!coord_channels_exceed(&coord_file(1, 1, 3, &[1, 2])));
    assert!(!coord_channels_exceed(&coord_file(0, 1, 3, &[1, 2, 3])));
    assert!(!coord_channels_exceed(&coord_file(1, 1, 2, &[1, 2, 3])));
}

#[test]
fn second_map_reads_samples() {
    let b = interp_file(2, 2, &[0, 1, 1023, 65535]);
    let m = load_second(&b).unwrap();
    assert_eq!((m.width, m.height), (2, 2));
    assert_eq!(m.values, vec![0, 1, 1023, 65535]);
}

#[test]
fn second_map_errors() {
    assert_eq!(load_second(&[0u8; 7]).err(), Some(MapError::Truncated));
    assert_eq!(load_second(&interp_file(2, -2, &[])).err(), Some(MapError::NegativeSize));
    assert_eq!(load_second(&interp_file(2, 2, &[1, 2, 3])).err(), Some(MapError::Truncated));
    let m = load_second(&interp_file(0, 5, &[])).unwrap();
    assert!(m.values.is_empty());
}

#[test]
fn maps_reads_first_then_second() {
    let first = coord_file(1, 1, 2, &[3, 4]);
    let second = interp_file(1, 1, &[9]);
    let (a, b) = maps(&first, &second).unwrap();
    assert_eq!(a.values, vec![3, 4]);
    assert_eq!(b.values, vec![9]);
    assert_eq!(maps(&coord_file(-1, 1, 2, &[]), &[0u8; 2]).err(), Some(MapError::NegativeSize));
    assert_eq!(maps(&first, &interp_file(-1, 1, &[])).err(), Some(MapError::NegativeSize));
    assert_eq!(maps(&first, &[0u8; 2]).err(), Some(MapError::Truncated));
}

#[test]
fn map_paths_append_suffixes() {
    let (a, b) = map_paths("picam");
    assert_eq!(a, "picam1.sex");
    assert_eq!(b, "picam2.sex");
    let (a, b) = map_paths("");
    assert_eq!(a, "1.sex");
    assert_eq!(b, "2.sex");
}
