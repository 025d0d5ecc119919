use cdeez::ascii::to_ascii_lowercase;
use cdeez::codec::{decode, encode, Location};
use cdeez::store::{load, save};

fn loc(path: &str, count: usize) -> Location {
    Location { path: String::from(path), count }
}

#[test]
fn lowercase_bytes_exact() {
    assert_eq!(to_ascii_lowercase(b'A'), b'a');
    assert_eq!(to_ascii_lowercase(b'Z'), b'z');
    assert_eq!(to_ascii_lowercase(b'a'), b'a');
    assert_eq!(to_ascii_lowercase(b'/'), b'/');
    assert_eq!(to_ascii_lowercase(b'0'), b'0');
}

#[test]
fn encode_exact_line() {
    let line = encode(&loc("/a/b", 7));
    assert_eq!(line, "\"/a/b\" 7");
    let line = encode(&loc("\\\\?\\D:\\Desktop", 246));
    assert_eq!(line, "\"\\\\?\\D:\\Desktop\" 246");
}

#[test]
fn encode_zero_count() {
    assert_eq!(encode(&loc("/x", 0)), "\"/x\" 0");
}

#[test]
fn decode_exact_line() {
    let l = decode("\"/a/b\" 7").unwrap();
    assert_eq!(l.path, "/a/b");
    assert_eq!(l.count, 7);
}

#[test]
fn decode_accepts_leading_zeros() {
    let l = decode("\"/x\" 007").unwrap();
    assert_eq!(l.count, 7);
}

#[test]
fn decode_rejects_malformed_lines() {
    assert!(decode("").is_err());
    assert!(decode("/a/b 7").is_err());
    assert!(decode("\"/a/b").is_err());
    assert!(decode("\"/a/b\"").is_err());
    assert!(decode("\"/a/b\" ").is_err());
    assert!(decode("\"/a/b\"7").is_err());
    assert!(decode("\"/a/b\" x7").is_err());
    assert!(decode("\"/a/b\" 7x").is_err());
    assert!(decode("\"/a/b\"  7").is_err());
}

#[test]
fn decode_rejects_count_overflow() {
    // one digit beyond what a machine word can hold
    assert!(decode("\"/x\" 184467440737095516160").is_err());
}

#[test]
fn decode_encode_roundtrip_values() {
    for (p, c) in [("/a/b", 1usize), ("/", 22), ("\\\\?\\C:\\Users\\x", 113)] {
        let line = encode(&loc(p, c));
        let back = decode(&line).unwrap();
        assert_eq!(back.path, p);
        assert_eq!(back.count, c);
    }
}

#[test]
fn store_roundtrip_keeps_paths_counts_order() {
    let set = vec![loc("/a/b", 1), loc("/a/b2/b", 5), loc("\\\\?\\D:\\x", 246)];
    let text = save(&set);
    let back = load(&text).unwrap();
    assert_eq!(back.len(), 3);
    for (orig, got) in set.iter().zip(back.iter()) {
        assert_eq!(orig.path, got.path);
        assert_eq!(orig.count, got.count);
    }
}

#[test]
fn load_of_empty_text_is_fresh_install() {
    assert_eq!(load("").unwrap().len(), 0);
}

#[test]
fn load_skips_blank_lines() {
    let v = load("\n\"/a\" 1\n\n\"/b\" 2\n\n").unwrap();
    assert_eq!(v.len(), 2);
    assert_eq!(v[0].path, "/a");
    assert_eq!(v[1].path, "/b");
}

#[test]
fn load_accepts_crlf_endings() {
    let v = load("\"/a\" 1\r\n\"/b\" 2\r\n").unwrap();
    assert_eq!(v.len(), 2);
    assert_eq!(v[1].path, "/b");
    assert_eq!(v[1].count, 2);
}

#[test]
fn load_fails_fast_on_one_bad_line() {
    let err = load("\"/a\" 1\nbroken\n\"/b\" 2\n").unwrap_err();
    assert_eq!(err.line, 2);
}

#[test]
fn save_writes_one_line_per_record_in_order() {
    let text = save(&vec![loc("/a", 1), loc("/b", 2)]);
    assert_eq!(text, "\"/a\" 1\n\"/b\" 2\n");
}
