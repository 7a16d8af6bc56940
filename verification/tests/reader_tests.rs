use weather_fetcher::bit_utils::{byte_to_4bits, ByteReader};
use weather_fetcher::idokep_client::IdokepClient;

#[test]
fn read_next_returns_bytes_and_advances() {
    let mut reader = ByteReader { content: vec![1, 2, 3, 4, 5], cursor_pos: 0 };
    assert_eq!(reader.read_next(2), vec![1, 2]);
    assert_eq!(reader.cursor_pos, 2);
    assert_eq!(reader.read_next(3), vec![3, 4, 5]);
    assert_eq!(reader.cursor_pos, 5);
}

#[test]
fn skip_next_only_advances() {
    let mut reader = ByteReader { content: vec![1, 2, 3, 4], cursor_pos: 0 };
    reader.skip_next(3);
    assert_eq!(reader.cursor_pos, 3);
    assert_eq!(reader.read_next_byte(), 4);
}

#[test]
fn read_4_byte_value_is_big_endian() {
    let mut reader = ByteReader { content: vec![0x01, 0x02, 0x03, 0x04], cursor_pos: 0 };
    assert_eq!(reader.read_4_byte_value(), 0x01020304);
    let mut reader2 = ByteReader { content: vec![0xff, 0, 0, 0], cursor_pos: 0 };
    assert_eq!(reader2.read_4_byte_value(), 0xff000000);
}

#[test]
fn read_next_byte_reads_one() {
    let mut reader = ByteReader { content: vec![42, 43], cursor_pos: 0 };
    assert_eq!(reader.read_next_byte(), 42);
    assert_eq!(reader.read_next_byte(), 43);
    assert_eq!(reader.cursor_pos, 2);
}

#[test]
fn byte_to_4bits_splits_high_nibble_first() {
    assert_eq!(byte_to_4bits(0xab), vec![0x0a, 0x0b]);
    assert_eq!(byte_to_4bits(0x01), vec![0x00, 0x01]);
    assert_eq!(byte_to_4bits(0xf0), vec![0x0f, 0x00]);
    assert_eq!(byte_to_4bits(0x00), vec![0x00, 0x00]);
}

#[test]
fn new_client_points_at_automata_page() {
    let client = IdokepClient::new();
    assert_eq!(client.automata_url, "https://www.idokep.hu/automata/globallhotel");
    assert!(client.page_body.is_none());
}
