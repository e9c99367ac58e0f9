use array_vec::copy::CopyArrayVec;
use array_vec::error::{FromUtf16Error, FromUtf8Error};
use array_vec::string::{encode_char, ArrayString};

fn text<const N: usize>(s: &str) -> ArrayString<N> {
    ArrayString::try_from_str(s).unwrap()
}

fn bytes<const N: usize>(items: &[u8]) -> CopyArrayVec<u8, N> {
    CopyArrayVec::try_from_slice(items).unwrap()
}

#[test]
fn new_string_is_empty() {
    let s: ArrayString<4> = ArrayString::new();
    assert!(s.is_empty());
    assert_eq!(s.len(), 0);
    assert_eq!(s.capacity(), 4);
    assert_eq!(s.as_bytes(), Vec::<u8>::new());
    let d: ArrayString<4> = Default::default();
    assert!(d.is_empty());
}

#[test]
fn from_utf8_round_trip() {
    let input = "héllo €".as_bytes();
    let s: ArrayString<16> = ArrayString::from_utf8(bytes(input)).unwrap();
    assert_eq!(s.as_bytes(), input);
    assert_eq!(s.len(), input.len());
    let exact: ArrayString<4> = ArrayString::from_utf8(bytes("a€".as_bytes())).unwrap();
    assert_eq!(exact.as_bytes(), "a€".as_bytes());
    let empty: ArrayString<0> = ArrayString::from_utf8(bytes(&[])).unwrap();
    assert!(empty.is_empty());
    assert_eq!(s.into_bytes().to_vec(), input);
}

#[test]
fn from_utf8_rejects_invalid_bytes_with_offset() {
    let bad: Result<ArrayString<8>, _> = ArrayString::from_utf8(bytes(&[0x61, 0x62, 0xFF, 0x63]));
    match bad {
        Ok(_) => panic!("invalid bytes were accepted"),
        Err(e) => assert_eq!(e.valid_up_to(), 2),
    }
    let cut: Result<ArrayString<8>, _> = ArrayString::from_utf8(bytes(&[0xE2, 0x82]));
    match cut {
        Ok(_) => panic!("a truncated character was accepted"),
        Err(e) => assert_eq!(e.valid_up_to(), 0),
    }
    let surrogate: Result<ArrayString<8>, _> = ArrayString::from_utf8(bytes(&[0xED, 0xA0, 0x80]));
    assert!(surrogate.is_err());
    let overlong: Result<ArrayString<8>, _> = ArrayString::from_utf8(bytes(&[0xC0, 0x80]));
    assert!(overlong.is_err());
}

#[test]
fn from_utf8_unchecked_takes_the_bytes() {
    let s: ArrayString<8> = ArrayString::from_utf8_unchecked(bytes("ok".as_bytes()));
    assert_eq!(s.as_bytes(), b"ok");
}

#[test]
fn from_utf8_lossy_substitutes_invalid_runs() {
    let s: ArrayString<5> = ArrayString::from_utf8_lossy(&[0x61, 0xFF, 0x62]).unwrap();
    assert_eq!(s.as_bytes(), "a\u{FFFD}b".as_bytes());
    assert_eq!(s.len(), 5);
    let wide: ArrayString<16> = ArrayString::from_utf8_lossy(&[0x61, 0xFF, 0x62]).unwrap();
    assert_eq!(wide.as_bytes(), "a\u{FFFD}b".as_bytes());
    let tight: Result<ArrayString<4>, _> = ArrayString::from_utf8_lossy(&[0x61, 0xFF, 0x62]);
    assert!(tight.is_err());
    let clean: ArrayString<5> = ArrayString::from_utf8_lossy("a€".as_bytes()).unwrap();
    assert_eq!(clean.as_bytes(), "a€".as_bytes());
    let empty: ArrayString<0> = ArrayString::from_utf8_lossy(&[]).unwrap();
    assert!(empty.is_empty());
    let two: ArrayString<16> = ArrayString::from_utf8_lossy(&[0xFF, 0x61, 0xC0, 0xFE]).unwrap();
    assert_eq!(two.as_bytes(), "\u{FFFD}a\u{FFFD}\u{FFFD}".as_bytes());
    let too_long: Result<ArrayString<2>, _> = ArrayString::from_utf8_lossy(b"abc");
    assert!(too_long.is_err());
}

#[test]
fn from_lossy_chunks_joins_the_parts() {
    let chunks = vec![(b"ab".to_vec(), vec![0xFFu8]), (b"c".to_vec(), Vec::new())];
    let s: ArrayString<8> = ArrayString::from_lossy_chunks(&chunks).unwrap();
    assert_eq!(s.as_bytes(), "ab\u{FFFD}c".as_bytes());
    let r: Result<ArrayString<5>, _> = ArrayString::from_lossy_chunks(&chunks);
    assert!(r.is_err());
    let none: ArrayString<0> = ArrayString::from_lossy_chunks(&Vec::new()).unwrap();
    assert!(none.is_empty());
}

#[test]
fn from_utf16_decodes_pairs() {
    let units: Vec<u16> = "a€𝄞".encode_utf16().collect();
    assert_eq!(units.len(), 4);
    let s: ArrayString<8> = ArrayString::from_utf16(&units).unwrap();
    assert_eq!(s.as_bytes(), "a€𝄞".as_bytes());
    let e: ArrayString<0> = ArrayString::from_utf16(&[]).unwrap();
    assert!(e.is_empty());
}

#[test]
fn from_utf16_reports_the_first_failure() {
    let lone: Result<ArrayString<8>, _> = ArrayString::from_utf16(&[0x61, 0xD800, 0x62]);
    match lone {
        Err(FromUtf16Error::DecodeUtf16(e)) => assert_eq!(e.unpaired_surrogate(), 0xD800),
        _ => panic!("an unpaired surrogate was not reported"),
    }
    let low_first: Result<ArrayString<8>, _> = ArrayString::from_utf16(&[0xDC00, 0xD800]);
    match low_first {
        Err(FromUtf16Error::DecodeUtf16(e)) => assert_eq!(e.unpaired_surrogate(), 0xDC00),
        _ => panic!("an unpaired surrogate was not reported"),
    }
    let full: Result<ArrayString<2>, _> = ArrayString::from_utf16(&[0x61, 0x62, 0x63, 0xD800]);
    assert!(matches!(full, Err(FromUtf16Error::OutOfMemory(_))));
    let bad_first: Result<ArrayString<1>, _> = ArrayString::from_utf16(&[0x61, 0xD800, 0x62]);
    assert!(matches!(bad_first, Err(FromUtf16Error::DecodeUtf16(_))));
    let high_at_end: Result<ArrayString<8>, _> = ArrayString::from_utf16(&[0x61, 0xD834]);
    assert!(matches!(high_at_end, Err(FromUtf16Error::DecodeUtf16(_))));
}

#[test]
fn from_utf16_lossy_substitutes() {
    let s: ArrayString<8> = ArrayString::from_utf16_lossy(&[0x61, 0xD800, 0x62]).unwrap();
    assert_eq!(s.as_bytes(), "a\u{FFFD}b".as_bytes());
    let r: Result<ArrayString<4>, _> = ArrayString::from_utf16_lossy(&[0x61, 0xD800, 0x62]);
    assert!(r.is_err());
    let pair: ArrayString<4> = ArrayString::from_utf16_lossy(&[0xD834, 0xDD1E]).unwrap();
    assert_eq!(pair.as_bytes(), "𝄞".as_bytes());
}

#[test]
fn from_decoded_utf16_follows_the_items() {
    let items: Vec<_> = char::decode_utf16([0x61u16, 0xDC00, 0x62]).collect();
    let strict: Result<ArrayString<8>, _> = ArrayString::from_decoded_utf16(items.clone(), false);
    assert!(matches!(strict, Err(FromUtf16Error::DecodeUtf16(_))));
    let lossy: ArrayString<8> = match ArrayString::from_decoded_utf16(items, true) {
        Ok(s) => s,
        Err(_) => panic!("the lossy building failed"),
    };
    assert_eq!(lossy.as_bytes(), "a\u{FFFD}b".as_bytes());
}

#[test]
fn push_fills_exactly_to_capacity() {
    let mut s: ArrayString<4> = ArrayString::new();
    assert_eq!(s.push('a'), Ok(()));
    assert_eq!(s.push('€'), Ok(()));
    assert_eq!(s.len(), 4);
    assert!(s.push('b').is_err());
    assert_eq!(s.as_bytes(), "a€".as_bytes());
    assert_eq!(s.len(), 4);
}

#[test]
fn push_does_not_write_part_of_a_character() {
    let mut s: ArrayString<3> = text("ab");
    assert!(s.push('€').is_err());
    assert_eq!(s.as_bytes(), b"ab");
    assert_eq!(s.push('c'), Ok(()));
    assert_eq!(s.as_bytes(), b"abc");
}

#[test]
fn encode_char_gives_the_utf8_bytes() {
    assert_eq!(encode_char('a'), vec![0x61]);
    assert_eq!(encode_char('\u{7F}'), vec![0x7F]);
    assert_eq!(encode_char('\u{80}'), vec![0xC2, 0x80]);
    assert_eq!(encode_char('é'), vec![0xC3, 0xA9]);
    assert_eq!(encode_char('\u{7FF}'), vec![0xDF, 0xBF]);
    assert_eq!(encode_char('\u{800}'), vec![0xE0, 0xA0, 0x80]);
    assert_eq!(encode_char('€'), vec![0xE2, 0x82, 0xAC]);
    assert_eq!(encode_char('\u{FFFD}'), vec![0xEF, 0xBF, 0xBD]);
    assert_eq!(encode_char('\u{FFFF}'), vec![0xEF, 0xBF, 0xBF]);
    assert_eq!(encode_char('\u{10000}'), vec![0xF0, 0x90, 0x80, 0x80]);
    assert_eq!(encode_char('𝄞'), vec![0xF0, 0x9D, 0x84, 0x9E]);
    assert_eq!(encode_char('\u{10FFFF}'), vec![0xF4, 0x8F, 0xBF, 0xBF]);
}

#[test]
fn push_str_is_all_or_nothing() {
    let mut s: ArrayString<5> = text("ab");
    assert!(s.push_str("cdef").is_err());
    assert_eq!(s.as_bytes(), b"ab");
    assert_eq!(s.push_str("c"), Ok(()));
    assert!(s.push_str("€").is_err());
    assert_eq!(s.as_bytes(), b"abc");
    assert_eq!(s.push_str("é"), Ok(()));
    assert_eq!(s.as_bytes(), "abcé".as_bytes());
    assert_eq!(s.push_str(""), Ok(()));
}

#[test]
fn insert_at_boundaries() {
    let mut s: ArrayString<8> = text("a€");
    assert_eq!(s.insert(1, 'b'), Ok(()));
    assert_eq!(s.as_bytes(), "ab€".as_bytes());
    assert_eq!(s.insert(0, 'é'), Ok(()));
    assert_eq!(s.as_bytes(), "éab€".as_bytes());
    assert_eq!(s.insert(7, '!'), Ok(()));
    assert_eq!(s.as_bytes(), "éab€!".as_bytes());
    assert!(s.insert(0, 'x').is_err());
    assert_eq!(s.as_bytes(), "éab€!".as_bytes());
}

#[test]
fn insert_str_at_boundaries() {
    let mut s: ArrayString<8> = text("ad");
    assert_eq!(s.insert_str(1, "bc"), Ok(()));
    assert_eq!(s.as_bytes(), b"abcd");
    assert!(s.insert_str(2, "12345").is_err());
    assert_eq!(s.as_bytes(), b"abcd");
    assert_eq!(s.insert_str(4, "€"), Ok(()));
    assert_eq!(s.as_bytes(), "abcd€".as_bytes());
    assert_eq!(s.insert_str(0, ""), Ok(()));
    assert_eq!(s.len(), 7);
}

#[test]
fn pop_decodes_backwards() {
    let mut s: ArrayString<16> = text("a€é𝄞");
    assert_eq!(s.pop(), Some('𝄞'));
    assert_eq!(s.pop(), Some('é'));
    assert_eq!(s.as_bytes(), "a€".as_bytes());
    assert_eq!(s.pop(), Some('€'));
    assert_eq!(s.pop(), Some('a'));
    assert_eq!(s.pop(), None);
    assert!(s.is_empty());
}

#[test]
fn remove_takes_one_character() {
    let mut s: ArrayString<16> = text("a€é𝄞b");
    assert_eq!(s.remove(1), '€');
    assert_eq!(s.as_bytes(), "aé𝄞b".as_bytes());
    assert_eq!(s.remove(0), 'a');
    assert_eq!(s.remove(2), '𝄞');
    assert_eq!(s.as_bytes(), "éb".as_bytes());
    assert_eq!(s.remove(2), 'b');
    assert_eq!(s.remove(0), 'é');
    assert!(s.is_empty());
}

#[test]
fn truncate_at_boundaries() {
    let mut s: ArrayString<8> = text("a€b");
    s.truncate(9);
    assert_eq!(s.len(), 5);
    s.truncate(5);
    assert_eq!(s.len(), 5);
    s.truncate(4);
    assert_eq!(s.as_bytes(), "a€".as_bytes());
    s.truncate(1);
    assert_eq!(s.as_bytes(), b"a");
    s.truncate(0);
    assert!(s.is_empty());
}

#[test]
fn clear_empties_the_text() {
    let mut s: ArrayString<8> = text("a€b");
    s.clear();
    assert!(s.is_empty());
    assert_eq!(s.push_str("12345678"), Ok(()));
}

#[test]
fn split_off_at_a_boundary() {
    let mut s: ArrayString<8> = text("a€bc");
    let tail: ArrayString<2> = s.split_off(4);
    assert_eq!(s.as_bytes(), "a€".as_bytes());
    assert_eq!(tail.as_bytes(), b"bc");
    let rest: ArrayString<8> = s.split_off(0);
    assert!(s.is_empty());
    assert_eq!(rest.as_bytes(), "a€".as_bytes());
}

#[test]
fn retain_asks_per_character() {
    let mut s: ArrayString<16> = text("a€b€c𝄞");
    let mut asked: Vec<char> = Vec::new();
    s.retain(|c| {
        asked.push(c);
        c != '€'
    });
    assert_eq!(asked, vec!['a', '€', 'b', '€', 'c', '𝄞']);
    assert_eq!(s.as_bytes(), "abc𝄞".as_bytes());
    s.retain(|c| !c.is_ascii());
    assert_eq!(s.as_bytes(), "𝄞".as_bytes());
    s.retain(|_| false);
    assert!(s.is_empty());
}

#[test]
fn char_boundaries() {
    let s: ArrayString<8> = text("a€b");
    assert!(s.is_char_boundary(0));
    assert!(s.is_char_boundary(1));
    assert!(!s.is_char_boundary(2));
    assert!(!s.is_char_boundary(3));
    assert!(s.is_char_boundary(4));
    assert!(s.is_char_boundary(5));
    assert!(!s.is_char_boundary(6));
}

#[test]
fn add_and_conversions() {
    let s: ArrayString<4> = text("ab");
    let t = s.clone().add("cd").unwrap();
    assert_eq!(t.as_bytes(), b"abcd");
    assert!(s.clone().add("cde").is_err());
    assert!(ArrayString::<2>::try_from_str("abc").is_err());
    let c: ArrayString<3> = ArrayString::try_from_char('€').unwrap();
    assert_eq!(c.as_bytes(), "€".as_bytes());
    assert!(ArrayString::<2>::try_from_char('€').is_err());
    let mut u: ArrayString<4> = text("zzzz");
    u.clone_from(&s);
    assert_eq!(u.as_bytes(), b"ab");
}

#[test]
fn to_string_and_equality() {
    let s: ArrayString<8> = text("a€b");
    assert_eq!(s.to_string(), "a€b");
    let t: ArrayString<16> = text("a€b");
    let u: ArrayString<16> = text("a€c");
    assert!(s.eq(&t));
    assert!(!s.eq(&u));
    assert!(s.eq_str("a€b"));
    assert!(!s.eq_str("a€"));
    let e: ArrayString<0> = ArrayString::new();
    assert_eq!(e.to_string(), "");
    assert!(e.eq_str(""));
}

#[test]
fn try_from_bytes_reports_invalid_before_full() {
    let ok: ArrayString<4> = match ArrayString::try_from_bytes("a€".as_bytes()) {
        Ok(s) => s,
        Err(_) => panic!("valid text that fits was refused"),
    };
    assert_eq!(ok.as_bytes(), "a€".as_bytes());
    let full: Result<ArrayString<3>, _> = ArrayString::try_from_bytes("a€".as_bytes());
    assert!(matches!(full, Err(FromUtf8Error::OutOfMemory(_))));
    let bad: Result<ArrayString<1>, _> = ArrayString::try_from_bytes(&[0x61, 0x62, 0x80]);
    match bad {
        Err(FromUtf8Error::Utf8(e)) => assert_eq!(e.valid_up_to(), 2),
        _ => panic!("invalid bytes were not reported"),
    }
}
