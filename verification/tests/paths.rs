use conserve::apath::{is_valid_path, place_of, Apath, Place};
use conserve::bandid::{decimal_len, parse_numbers, BandId};
use conserve::blockhash::{from_hex, to_hex, BlockHash};
use conserve::blockset::place_of_bytes;

fn apath(s: &str) -> Apath {
    Apath::from_str(s).unwrap()
}

#[test]
fn valid_and_invalid_apaths() {
    for good in ["/", "/a", "/a/b", "/.a", "/..a", "/a.", "/...", "/a/.b/c..", "/\u{00e9}t\u{00e9}"] {
        assert!(Apath::is_valid(good), "{:?}", good);
        assert_eq!(Apath::from_str(good).unwrap().as_str(), good);
    }
    for bad in [
        "", "a", "a/b", "//", "/a/", "/a//b", "/.", "/..", "/a/.", "/a/..", "/./a", "/../a", "/a/./b",
        "/a/../b", "//a",
    ] {
        assert!(!Apath::is_valid(bad), "{:?}", bad);
        assert!(Apath::from_str(bad).is_none(), "{:?}", bad);
        assert!(!is_valid_path(bad.as_bytes()));
    }
    assert_eq!(Apath::root().as_str(), "/");
    assert_eq!(Apath::root().as_bytes(), b"/");
}

#[test]
fn apath_order_puts_a_directory_before_what_is_below_it() {
    // In order: each directory right before its children, the children by
    // the bytes of their names.
    let ordered = [
        "/", "/.config", "/0", "/00", "/1", "/a", "/a/b", "/a/b/c", "/a/c", "/a-b", "/a.txt", "/aa",
        "/b", "/b/a", "/c",
    ];
    for (i, a) in ordered.iter().enumerate() {
        for (j, b) in ordered.iter().enumerate() {
            let expected = if i < j {
                Place::Before
            } else if i == j {
                Place::Same
            } else {
                Place::After
            };
            assert_eq!(apath(a).place(&apath(b)), expected, "{:?} {:?}", a, b);
            assert_eq!(apath(a).precedes(&apath(b)), i < j);
            assert_eq!(apath(a).same_as(&apath(b)), i == j);
            assert_eq!(place_of(a.as_bytes(), b.as_bytes()), expected);
        }
    }
}

#[test]
fn apath_within_subtree() {
    assert!(apath("/a").is_within(&apath("/")));
    assert!(apath("/").is_within(&apath("/")));
    assert!(apath("/a").is_within(&apath("/a")));
    assert!(apath("/a/b").is_within(&apath("/a")));
    assert!(apath("/a/b/c").is_within(&apath("/a")));
    assert!(!apath("/ab").is_within(&apath("/a")));
    assert!(!apath("/a").is_within(&apath("/a/b")));
    assert!(!apath("/b/a").is_within(&apath("/a")));
    assert!(!apath("/").is_within(&apath("/a")));
}

#[test]
fn band_id_text() {
    assert_eq!(BandId::zero().to_string(), "b0000");
    assert_eq!(BandId::new(&[1]).to_string(), "b0001");
    assert_eq!(BandId::new(&[1, 1]).to_string(), "b0001.0001");
    assert_eq!(BandId::new(&[20, 3, 400]).to_string(), "b0020.0003.0400");
    assert_eq!(BandId::new(&[12345]).to_string(), "b12345");
    assert_eq!(BandId::new(&[u32::MAX, 0]).to_string(), "b4294967295.0000");
    for id in [vec![0], vec![1], vec![9999], vec![10000], vec![1, 2, 3], vec![u32::MAX]] {
        let band_id = BandId::new(&id);
        assert_eq!(BandId::from_str(&band_id.to_string()), Some(band_id));
    }
    assert_eq!(BandId::from_str("b1"), Some(BandId::new(&[1])));
    assert_eq!(BandId::from_str("b0001.2"), Some(BandId::new(&[1, 2])));
    assert_eq!(BandId::from_str("b4294967295"), Some(BandId::new(&[u32::MAX])));
    for bad in [
        "", "b", "0001", "B0001", "b-1", "b+1", "b1.", "b.1", "b1..2", "b 1", "b1 ", "bx", "b4294967296",
        "b99999999999999999999", "d", "b0001/",
    ] {
        assert_eq!(BandId::from_str(bad), None, "{:?}", bad);
    }
    assert_eq!(parse_numbers("v1.22.333", 1), Some(vec![1, 22, 333]));
    assert_eq!(parse_numbers("1.22.333", 0), Some(vec![1, 22, 333]));
    assert_eq!(parse_numbers("7", 1), None);
    assert_eq!(decimal_len(0), 1);
    assert_eq!(decimal_len(9), 1);
    assert_eq!(decimal_len(10), 2);
    assert_eq!(decimal_len(u64::MAX), 20);
}

#[test]
fn band_id_order_and_neighbours() {
    let ordered = [vec![0], vec![0, 0], vec![0, 1], vec![1], vec![1, 0, 5], vec![1, 1], vec![2], vec![10]];
    for (i, a) in ordered.iter().enumerate() {
        for (j, b) in ordered.iter().enumerate() {
            let (a, b) = (BandId::new(a), BandId::new(b));
            assert_eq!(a.precedes(&b), i < j);
            assert_eq!(a.same_as(&b), i == j);
            assert_eq!(a < b, i < j);
        }
    }
    assert_eq!(BandId::zero().previous(), None);
    assert_eq!(BandId::new(&[5]).previous(), Some(BandId::new(&[4])));
    assert_eq!(BandId::new(&[2, 1]).previous(), Some(BandId::new(&[2, 0])));
    assert_eq!(BandId::new(&[2, 0]).previous(), None);
    assert_eq!(BandId::new(&[5]).next_sibling(), Some(BandId::new(&[6])));
    assert_eq!(BandId::new(&[2, 9]).next_sibling(), Some(BandId::new(&[2, 10])));
    assert_eq!(BandId::new(&[u32::MAX]).next_sibling(), None);
    assert_eq!(BandId::new(&[3, 4]).len(), 2);
    assert_eq!(BandId::new(&[3, 4]).last(), 4);
    assert_eq!(BandId::new(&[3, 4]).get(0), 3);
}

#[test]
fn hex_text() {
    assert_eq!(to_hex(b""), "");
    assert_eq!(to_hex(&[0x00, 0x0f, 0xa0, 0xff, 0x12]), "000fa0ff12");
    assert_eq!(from_hex("000fa0ff12"), Some(vec![0x00, 0x0f, 0xa0, 0xff, 0x12]));
    assert_eq!(from_hex(""), Some(vec![]));
    for bad in ["0", "0g", "ABCD", "0x12", "12 4", "\u{00e9}\u{00e9}", "123"] {
        assert_eq!(from_hex(bad), None, "{:?}", bad);
    }
    let hash = BlockHash::hash_bytes(b"");
    assert_eq!(
        hash.to_string(),
        "786a02f742015903c6c6fd852552d272912f4740e15847618a86e217f71f5419\
         d25e1031afee585313896444934eb04b903a685b1448b755d56f701afe9be2ce"
    );
    assert_eq!(hash.len(), 64);
    assert_eq!(BlockHash::from_bytes(hash.as_bytes()), Some(hash.clone()));
    assert_eq!(BlockHash::from_bytes(&[0; 63]), None);
    assert!(hash.same_as(&hash.clone()));
    assert!(!hash.same_as(&BlockHash::hash_bytes(b"x")));
    // Names of blocks are lowercase and of the full length only.
    let text = hash.to_string();
    assert!(BlockHash::from_str(&text).is_some());
    assert!(BlockHash::from_str(&text.to_uppercase()).is_none());
    assert!(BlockHash::from_str(&text[1..]).is_none());
    assert!(BlockHash::from_str(&format!("{}00", text)).is_none());
    assert!(BlockHash::from_str("tmp123123123").is_none());
}

#[test]
fn bytes_are_ordered_as_bytes() {
    assert_eq!(place_of_bytes(b"", b""), Place::Same);
    assert_eq!(place_of_bytes(b"", b"a"), Place::Before);
    assert_eq!(place_of_bytes(b"a", b"a/"), Place::Before);
    assert_eq!(place_of_bytes(b"a/b", b"a-b"), Place::After);
    assert_eq!(place_of_bytes(b"b", b"ab"), Place::After);
    assert_eq!(place_of_bytes(&[0xff], &[0x00, 0xff]), Place::After);
}
