//! The devices puzzle over its sample networks.

use puzzles::devices::{Device, get_p1, get_p2, reverse_device};

#[test]
fn test_p1() {
    let string = "aaa: you hhh\nyou: bbb ccc\nbbb: ddd eee\nccc: ddd eee fff\nddd: ggg\neee: out\nfff: out\nggg: out\nhhh: ccc fff iii\niii: out\n"
    .to_string();

    let devices = Device::from_string(&string);
    assert_eq!(get_p1(&devices), 5);
}

#[test]
fn test_p2() {
    let string = "svr: aaa bbb\naaa: fft\nfft: ccc\nbbb: tty\ntty: ccc\nccc: ddd eee\nddd: hub\nhub: fff\neee: dac\ndac: fff\nfff: ggg hhh\nggg: out\nhhh: out\n"
    .to_string();

    let devices = Device::from_string(&string);
    assert_eq!(get_p2(&devices), 2);
}

#[test]
fn test_reverse_edges() {
    let devices = Device::from_string("aaa: bbb ccc\nbbb: ccc\n");
    let rev = reverse_device(&devices);
    let name = |s: &str| s.chars().collect::<Vec<char>>();
    let has = |list: &Vec<(Vec<char>, Device)>, from: &str, to: &str| {
        list.iter().any(|(k, d)| k == &name(from) && d.outs.iter().any(|o| o == &name(to)))
    };
    assert!(has(&rev, "bbb", "aaa"));
    assert!(has(&rev, "ccc", "aaa"));
    assert!(has(&rev, "ccc", "bbb"));
    assert!(!has(&rev, "aaa", "bbb"));
}
