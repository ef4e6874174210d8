use ser_hex::path::{width_of, Path};

#[test]
fn test_path() {
    let data = vec![
        (12, 2),
        (12, 0),
        (300, 270),
        (12345, 4),
        (255, 255),
        (256, 256),
    ];
    let mut path = Path::new();
    for (max, n) in &data {
        path.push(*max, *n);
    }
    println!("{:?}", &path);

    let mut path = path.as_slice();
    let mut n;
    for (max, a) in data {
        (n, path) = path.split_next(max);
        println!("{:?}", (max, n));
        assert_eq!(a, n);
    }
}

fn bytes_of(path: &Path) -> Vec<u8> {
    let mut cursor = path.as_slice();
    let mut out = Vec::new();
    while cursor.len() > 0 {
        let (byte, rest) = cursor.split_next(0);
        out.push(byte as u8);
        cursor = rest;
    }
    out
}

#[test]
fn an_index_takes_the_fewest_bytes_that_hold_the_sibling_count() {
    assert_eq!(width_of(0), 1);
    assert_eq!(width_of(1), 1);
    assert_eq!(width_of(255), 1);
    assert_eq!(width_of(256), 2);
    assert_eq!(width_of(65535), 2);
    assert_eq!(width_of(65536), 3);
    assert_eq!(width_of(1 << 24), 4);
    assert_eq!(width_of(u32::MAX as usize), 4);
    assert_eq!(width_of(usize::MAX), (usize::BITS / 8) as usize);
    for max in [1usize, 2, 7, 255, 256, 300, 12345, 65535, 65536, 1 << 31] {
        assert_eq!(width_of(max), (max.ilog2() / 8) as usize + 1);
    }
}

#[test]
fn indices_are_written_big_endian() {
    let mut path = Path::new();
    path.push(12, 2);
    assert_eq!(bytes_of(&path), vec![2]);
    path.push(300, 270);
    assert_eq!(bytes_of(&path), vec![2, 0x01, 0x0E]);
    path.push(0x1_0000, 0x0A0B0C);
    assert_eq!(bytes_of(&path), vec![2, 0x01, 0x0E, 0x0A, 0x0B, 0x0C]);
    path.push(0, 7);
    assert_eq!(path.len(), 7);
}

#[test]
fn an_index_too_great_for_its_width_keeps_its_low_bytes() {
    let mut path = Path::new();
    path.push(12, 0x1234);
    assert_eq!(bytes_of(&path), vec![0x34]);
}

#[test]
fn pop_removes_what_push_appended() {
    let mut path = Path::new();
    path.push(12, 2);
    path.push(300, 270);
    path.push(70000, 5);
    assert_eq!(path.len(), 6);
    path.pop(70000);
    assert_eq!(bytes_of(&path), vec![2, 0x01, 0x0E]);
    path.pop(300);
    path.pop(12);
    assert_eq!(path.len(), 0);
    assert!(path.same(&Path::new()));
}

#[test]
fn decoding_gives_back_the_indices() {
    let steps: Vec<(usize, usize)> = vec![(1, 0), (3, 2), (256, 255), (257, 256), (65536, 65535), (0, 0)];
    let mut path = Path::new();
    for (max, n) in &steps {
        path.push(*max, *n);
    }
    let mut cursor = path.as_slice();
    for (max, n) in &steps {
        let (index, rest) = cursor.split_next(*max);
        assert_eq!(index, *n);
        cursor = rest;
    }
    assert_eq!(cursor.len(), 0);
}

#[test]
fn paths_sort_as_a_depth_first_walk_visits() {
    fn at(steps: &[(usize, usize)]) -> Path {
        let mut path = Path::new();
        for (max, n) in steps {
            path.push(*max, *n);
        }
        path
    }
    let walk = [
        at(&[]),
        at(&[(300, 0)]),
        at(&[(300, 0), (2, 0)]),
        at(&[(300, 0), (2, 1)]),
        at(&[(300, 1)]),
        at(&[(300, 255)]),
        at(&[(300, 256)]),
        at(&[(300, 256), (1, 0)]),
        at(&[(300, 299)]),
    ];
    for i in 0..walk.len() {
        for j in 0..walk.len() {
            assert_eq!(walk[i].precedes(&walk[j]), i < j, "{} and {}", i, j);
            assert_eq!(walk[i].same(&walk[j]), i == j);
            assert_eq!(walk[i] < walk[j], i < j);
        }
    }
    let mut sorted: Vec<Path> = walk.iter().rev().map(|p| p.copy()).collect();
    sorted.sort();
    assert!(sorted.iter().zip(walk.iter()).all(|(a, b)| a.same(b)));
}
