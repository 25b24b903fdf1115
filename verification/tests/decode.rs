use alloy_rlp::Encodable;
use alloy_rlp::Header;
use blob_decoder::decode_blob_portion_at_position;
use blob_decoder::decode_whole_blob;
use blob_decoder::Blob;
use blob_decoder::BufferError;
use blob_decoder::Error;
use blob_decoder::ParsedData;

#[test]
fn decode_1() {
    let hex_input = "0d";
    let bytes_input = hex::decode(hex_input).unwrap();
    let blob = Blob::new(&bytes_input);
    let parsed = decode_whole_blob(&blob).unwrap();
    assert_eq!(parsed, ParsedData::Byte(13));
}

#[test]
fn decode_2() {
    let hex_input = "80";
    let bytes_input = hex::decode(hex_input).unwrap();
    let blob = Blob::new(&bytes_input);
    let parsed = decode_whole_blob(&blob).unwrap();
    assert_eq!(parsed, ParsedData::String(Vec::new()));
}

#[test]
fn decode_3() {
    let mock_string = String::from("Lorem ipsum dolor sit amet, consectetur adipiscing elit, sed do eiusmod tempor incididunt ut labore et dolore magna aliqua. Ut enim ad minim veniam, quis nostrud exercitation ullamco laboris nisi ut aliquip ex ea commodo consequat. Duis aute irure dolor in reprehenderit in voluptate velit esse cillum dolore eu fugiat nulla pariatur. Excepteur sint occaecat cupidatat non proident, sunt in culpa qui officia deserunt mollit anim id est laborum.");
    let mut buffer = Vec::<u8>::new();
    mock_string.encode(&mut buffer);

    let blob = Blob::new(&buffer);
    let parsed = decode_whole_blob(&blob).unwrap();
    assert_eq!(parsed, ParsedData::String(mock_string.into_bytes()));
}

#[test]
fn decode_4() {
    let string1 = String::from("string1");
    let string2 = String::from("string2");
    let string3 = String::from("string3");
    let array = [144u8; 20];

    // What a conformant encoder emits for a struct of these four fields: a
    // list header over the summed field encodings, then each field in turn.
    let mut buffer = Vec::<u8>::new();
    let payload_length =
        string1.length() + string2.length() + string3.length() + array.length();
    Header { list: true, payload_length }.encode(&mut buffer);
    string1.encode(&mut buffer);
    string2.encode(&mut buffer);
    string3.encode(&mut buffer);
    array.encode(&mut buffer);

    let blob = Blob::new(&buffer);
    let parsed = decode_whole_blob(&blob).unwrap();
    assert_eq!(
        parsed,
        ParsedData::List(vec![
            ParsedData::String(string1.into_bytes()),
            ParsedData::String(string2.into_bytes()),
            ParsedData::String(string3.into_bytes()),
            ParsedData::String(vec![144; 20])
        ])
    );
}

#[test]
fn decode_5() {
    let long_array1 = [15u8; 2000];
    let long_array2 = [144u8; 1000];

    let mut buffer = Vec::<u8>::new();
    let payload_length = long_array1.length() + long_array2.length();
    Header { list: true, payload_length }.encode(&mut buffer);
    long_array1.encode(&mut buffer);
    long_array2.encode(&mut buffer);

    let blob = Blob::new(&buffer);
    let parsed = decode_whole_blob(&blob).unwrap();
    assert_eq!(
        parsed,
        ParsedData::List(vec![
            ParsedData::String(long_array1.to_vec()),
            ParsedData::String(long_array2.to_vec())
        ])
    );
}

#[test]
fn decode_err_1() {
    let hex_input = "8080";
    let bytes_input = hex::decode(hex_input).unwrap();
    let blob = Blob::new(&bytes_input);
    let parsed_err = decode_whole_blob(&blob).unwrap_err();
    assert_eq!(parsed_err, Error::SomeDataUnused { from: 1 });
}

#[test]
fn single_byte_bounds() {
    for byte in [0x00u8, 0x13, 0x7f] {
        let bytes_input = vec![byte];
        let blob = Blob::new(&bytes_input);
        let parsed = decode_whole_blob(&blob).unwrap();
        assert_eq!(parsed, ParsedData::Byte(byte));
    }
}

#[test]
fn long_string_threshold() {
    // A 56-byte payload is one past the short-string maximum: the encoder
    // must take the long form, and decoding recovers the payload exactly.
    let payload = [7u8; 56];
    let mut buffer = Vec::<u8>::new();
    payload.encode(&mut buffer);
    assert_eq!(buffer[0], 0xb8);
    assert_eq!(buffer[1], 56);
    assert_eq!(buffer.len(), 58);

    let blob = Blob::new(&buffer);
    let parsed = decode_whole_blob(&blob).unwrap();
    assert_eq!(parsed, ParsedData::String(payload.to_vec()));
}

#[test]
fn short_list_exact_consumption() {
    let bytes_input = vec![0xc2u8, 0x01, 0x02];
    let blob = Blob::new(&bytes_input);
    let parsed = decode_whole_blob(&blob).unwrap();
    assert_eq!(
        parsed,
        ParsedData::List(vec![ParsedData::Byte(1), ParsedData::Byte(2)])
    );
}

#[test]
fn short_list_declared_length_cuts_child() {
    // The list declares one content byte, but its child claims a one-byte
    // string payload that would lie past the border: a buffer fault, not a
    // silent truncation.
    let bytes_input = vec![0xc1u8, 0x81, 0x61];
    let blob = Blob::new(&bytes_input);
    let err = decode_whole_blob(&blob).unwrap_err();
    assert_eq!(
        err,
        Error::Buffer(BufferError::DataTooShort { position: 2, minimal_length: 1 })
    );
}

#[test]
fn nested_list_fidelity() {
    let bytes_input = vec![0xc6u8, 0x05, 0x82, 0x61, 0x62, 0xc1, 0x01];
    let blob = Blob::new(&bytes_input);
    let parsed = decode_whole_blob(&blob).unwrap();
    assert_eq!(
        parsed,
        ParsedData::List(vec![
            ParsedData::Byte(5),
            ParsedData::String(vec![0x61, 0x62]),
            ParsedData::List(vec![ParsedData::Byte(1)])
        ])
    );
}

#[test]
fn long_string_length_exceeds_extent() {
    let bytes_input = vec![0xb9u8, 0xff, 0xff];
    let blob = Blob::new(&bytes_input);
    let err = decode_whole_blob(&blob).unwrap_err();
    assert_eq!(
        err,
        Error::Buffer(BufferError::DataTooShort { position: 3, minimal_length: 65535 })
    );
}

#[test]
fn long_list_length_exceeds_extent() {
    let bytes_input = vec![0xf9u8, 0xff, 0xff];
    let blob = Blob::new(&bytes_input);
    let err = decode_whole_blob(&blob).unwrap_err();
    assert_eq!(
        err,
        Error::Buffer(BufferError::DataTooShort { position: 0, minimal_length: 65538 })
    );
}

#[test]
fn long_list_decodes() {
    // A long-form list: sixty content bytes, holding one long-form string.
    let mut bytes_input = vec![0xf8u8, 60, 0xb8, 58];
    bytes_input.extend_from_slice(&[9u8; 58]);
    let blob = Blob::new(&bytes_input);
    let parsed = decode_whole_blob(&blob).unwrap();
    assert_eq!(parsed, ParsedData::List(vec![ParsedData::String(vec![9; 58])]));
}

#[test]
fn cursor_out_of_range() {
    let bytes_input = vec![0x0du8];
    let blob = Blob::new(&bytes_input);
    let mut cursor: usize = 5;
    let err = decode_blob_portion_at_position(&blob, &mut cursor).unwrap_err();
    assert_eq!(
        err,
        Error::Buffer(BufferError::OutOfRange { position: 5, total_length: 1 })
    );
}

#[test]
fn empty_input_rejected() {
    let bytes_input = Vec::<u8>::new();
    let blob = Blob::new(&bytes_input);
    let err = decode_whole_blob(&blob).unwrap_err();
    assert_eq!(
        err,
        Error::Buffer(BufferError::DataTooShort { position: 0, minimal_length: 1 })
    );
}

#[test]
fn portion_decode_back_to_back() {
    let bytes_input = vec![0x80u8, 0x0d];
    let blob = Blob::new(&bytes_input);
    let mut cursor: usize = 0;
    let first = decode_blob_portion_at_position(&blob, &mut cursor).unwrap();
    assert_eq!(first, ParsedData::String(Vec::new()));
    assert_eq!(cursor, 1);
    let second = decode_blob_portion_at_position(&blob, &mut cursor).unwrap();
    assert_eq!(second, ParsedData::Byte(13));
    assert_eq!(cursor, 2);
}

#[test]
fn non_canonical_length_accepted() {
    // A zero-padded length-of-length is lenient by design: two length bytes
    // 0x00 0x03 still mean three.
    let bytes_input = vec![0xb9u8, 0x00, 0x03, 0x61, 0x62, 0x63];
    let blob = Blob::new(&bytes_input);
    let parsed = decode_whole_blob(&blob).unwrap();
    assert_eq!(parsed, ParsedData::String(vec![0x61, 0x62, 0x63]));
}
