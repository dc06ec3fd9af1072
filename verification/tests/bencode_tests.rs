use bittorrent::BtError;
use bittorrent::bencode::Bencode;
use bittorrent::bencode::decode;
use bittorrent::bencode::decode_value;
use bittorrent::bencode::encode;

fn bytes(s: &str) -> Vec<u8> {
    s.as_bytes().to_vec()
}

#[test]
fn decode_dictionary_of_strings() {
    let input = bytes("d3:cow3:moo4:spam4:eggse");
    let v = decode(&input).expect("canonical dictionary decodes");
    match &v {
        Bencode::Dict(entries) => {
            assert_eq!(entries.len(), 2);
            assert_eq!(entries[0].0, bytes("cow"));
            assert!(matches!(&entries[0].1, Bencode::Bytes(b) if *b == bytes("moo")));
            assert_eq!(entries[1].0, bytes("spam"));
            assert!(matches!(&entries[1].1, Bencode::Bytes(b) if *b == bytes("eggs")));
        },
        _ => panic!("expected a dictionary"),
    }
    assert_eq!(encode(&v), input);
}

#[test]
fn decode_negative_integer() {
    let v = decode(&bytes("i-42e")).expect("negative integer decodes");
    assert!(matches!(v, Bencode::Int(-42)));
}

#[test]
fn decode_rejects_negative_zero() {
    assert!(matches!(
        decode(&bytes("i-0e")),
        Err(BtError::MalformedBencode { .. })
    ));
}

#[test]
fn decode_rejects_leading_zero_integer() {
    assert!(matches!(
        decode(&bytes("i03e")),
        Err(BtError::MalformedBencode { .. })
    ));
}

#[test]
fn round_trip_nested_value() {
    let input = bytes("d1:ali1e2:abe1:bd1:xi-7eee");
    let v = decode(&input).expect("nested value decodes");
    assert_eq!(encode(&v), input);
}

#[test]
fn encode_sorts_dictionary_keys() {
    let unsorted = Bencode::Dict(vec![
        (bytes("zz"), Bencode::Int(1)),
        (bytes("aa"), Bencode::Int(2)),
        (bytes("mm"), Bencode::Bytes(bytes("q"))),
    ]);
    assert_eq!(encode(&unsorted), bytes("d2:aai2e2:mm1:q2:zzi1ee"));
}

#[test]
fn encode_sorts_keys_at_depth() {
    let inner = Bencode::Dict(vec![
        (bytes("b"), Bencode::Int(2)),
        (bytes("a"), Bencode::Int(1)),
    ]);
    let outer = Bencode::Dict(vec![(bytes("k"), inner)]);
    assert_eq!(encode(&outer), bytes("d1:kd1:ai1e1:bi2eee"));
}

#[test]
fn decode_rejects_duplicate_keys() {
    assert!(matches!(
        decode(&bytes("d1:ai1e1:ai2ee")),
        Err(BtError::MalformedBencode { .. })
    ));
}

#[test]
fn decode_rejects_leading_zero_string_length() {
    assert!(matches!(
        decode(&bytes("03:abc")),
        Err(BtError::MalformedBencode { .. })
    ));
}

#[test]
fn decode_rejects_trailing_bytes() {
    assert!(matches!(
        decode(&bytes("i1ex")),
        Err(BtError::MalformedBencode { at_offset: 3 })
    ));
}

#[test]
fn decode_rejects_truncated_string() {
    assert!(matches!(
        decode(&bytes("5:ab")),
        Err(BtError::MalformedBencode { .. })
    ));
}

#[test]
fn decode_rejects_unterminated_list() {
    assert!(matches!(
        decode(&bytes("li1e")),
        Err(BtError::MalformedBencode { .. })
    ));
}

#[test]
fn decode_rejects_unknown_prefix() {
    assert!(matches!(
        decode(&bytes("x")),
        Err(BtError::MalformedBencode { at_offset: 0 })
    ));
}

#[test]
fn decode_rejects_integer_overflow() {
    assert!(matches!(
        decode(&bytes("i99999999999999999999e")),
        Err(BtError::MalformedBencode { .. })
    ));
}

#[test]
fn decode_value_reports_consumed_prefix() {
    let input = bytes("4:spamrest");
    let (v, end) = decode_value(&input, 0).expect("prefix decodes");
    assert!(matches!(v, Bencode::Bytes(b) if b == bytes("spam")));
    assert_eq!(end, 6);
}

#[test]
fn decode_preserves_binary_strings() {
    let mut input = bytes("3:");
    input.extend_from_slice(&[0xff, 0x00, 0x80]);
    let v = decode(&input).expect("binary string decodes");
    assert!(matches!(v, Bencode::Bytes(b) if b == vec![0xff, 0x00, 0x80]));
}
