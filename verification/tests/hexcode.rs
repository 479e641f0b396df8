use gl_client::hexcode::{decode, encode};

#[test]
fn encode_writes_two_lower_case_digits_a_byte() {
    assert_eq!(encode(&[]), "");
    assert_eq!(encode(&[0x00, 0x0f, 0xf0, 0xff, 0x9a]), "000ff0ff9a");
    assert_eq!(encode(b"kiwi"), "6b697769");
    let all: Vec<u8> = (0..=255u8).collect();
    let text = encode(&all);
    assert_eq!(text.len(), 512);
    assert_eq!(&text[..8], "00010203");
    assert_eq!(&text[504..], "fcfdfeff");
}

#[test]
fn decode_reads_digits_of_either_case() {
    assert_eq!(decode(""), Some(vec![]));
    assert_eq!(decode("6b697769"), Some(b"kiwi".to_vec()));
    assert_eq!(decode("00FFabCD"), Some(vec![0x00, 0xff, 0xab, 0xcd]));
    assert_eq!(decode("09af"), Some(vec![0x09, 0xaf]));
}

#[test]
fn decode_refuses_odd_lengths_and_other_characters() {
    assert_eq!(decode("1"), None);
    assert_eq!(decode("abc"), None);
    assert_eq!(decode("0g"), None);
    assert_eq!(decode("0x10"), None);
    assert_eq!(decode(" 10 "), None);
    assert_eq!(decode("1/"), None);
    assert_eq!(decode("\u{e9}"), None);
    assert_eq!(decode("\u{ff10}a"), None);
}

#[test]
fn decode_of_encode_gives_the_bytes_back() {
    let all: Vec<u8> = (0..=255u8).rev().collect();
    assert_eq!(decode(&encode(&all)), Some(all));
}
