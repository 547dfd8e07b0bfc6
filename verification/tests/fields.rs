use ddb_toolbox::cursor::{Cursor, ParseError};
use ddb_toolbox::ddi::{
    read_arr, read_str, read_text, reverse_search, str_to_data, stream_reverse_search, stream_reverse_search_window,
    stream_window_start,
};
use ddb_toolbox::ordmap::OrdMap;

#[test]
fn str_to_data_writes_length_then_bytes() {
    assert_eq!(str_to_data("abc"), vec![3, 0, 0, 0, b'a', b'b', b'c']);
    assert_eq!(str_to_data(""), vec![0, 0, 0, 0]);
}

#[test]
fn read_str_reads_back_str_to_data() {
    for s in ["", "articulation", "h\u{e9}llo", "\u{3042}\u{3044}"] {
        let data = str_to_data(s);
        let mut cur = Cursor::new(&data);
        let r = read_str(&mut cur).unwrap();
        assert_eq!(r, s);
        assert_eq!(cur.pos, data.len());
    }
}

#[test]
fn read_str_decodes_lossily() {
    let data = vec![3, 0, 0, 0, b'a', 0xff, b'b'];
    let mut cur = Cursor::new(&data);
    assert_eq!(read_str(&mut cur).unwrap(), "a\u{fffd}b");
    let mut cur = Cursor::new(&data);
    assert_eq!(read_text(&mut cur).unwrap(), "a\u{fffd}b".as_bytes().to_vec());
}

#[test]
fn read_str_past_end_fails() {
    let data = vec![5, 0, 0, 0, b'a'];
    let mut cur = Cursor::new(&data);
    assert_eq!(read_str(&mut cur), Err(ParseError::UnexpectedEof));
    assert_eq!(cur.pos, data.len());
    let short = vec![1, 0];
    let mut cur = Cursor::new(&short);
    assert_eq!(read_str(&mut cur), Err(ParseError::UnexpectedEof));
}

#[test]
fn read_arr_returns_last_four_of_twenty() {
    let data: Vec<u8> = (0u8..24).collect();
    let mut cur = Cursor::new(&data);
    assert_eq!(read_arr(&mut cur).unwrap(), vec![16, 17, 18, 19]);
    assert_eq!(cur.pos, 20);
    let mut cur = Cursor::new(&data[..19]);
    assert_eq!(read_arr(&mut cur), Err(ParseError::UnexpectedEof));
}

#[test]
fn cursor_reads_little_endian() {
    let data = vec![0x01, 0x02, 0x03, 0x04, 0x05, 0x06, 0x07, 0x08, 0x09, 0x0a];
    let mut cur = Cursor::new(&data);
    assert_eq!(cur.read_u16_le(), Ok(0x0201));
    assert_eq!(cur.read_u32_le(), Ok(0x06050403));
    assert_eq!(cur.read_u64_le(), Err(ParseError::UnexpectedEof));
    assert_eq!(cur.pos, data.len());
    let mut cur = Cursor::new(&data);
    assert_eq!(cur.read_u64_le(), Ok(0x0807060504030201));
}

#[test]
fn reverse_search_finds_nearest_before_offset() {
    let data = b"xxARR yyARR zzzz".to_vec();
    assert_eq!(reverse_search(&data, b"ARR ", 16, -1), 8);
    assert_eq!(reverse_search(&data, b"ARR ", 12, -1), 8);
}

#[test]
fn reverse_search_stops_below_four() {
    let data = b"xxARR yyARR zzzz".to_vec();
    assert_eq!(reverse_search(&data, b"ARR ", 11, -1), usize::MAX);
    let data = b"xxxARR yyyy".to_vec();
    assert_eq!(reverse_search(&data, b"ARR ", 11, -1), 3);
}

#[test]
fn reverse_search_never_looks_at_zero() {
    let data = b"ARR xxxx".to_vec();
    assert_eq!(reverse_search(&data, b"ARR ", 8, -1), usize::MAX);
}

#[test]
fn reverse_search_respects_limit() {
    let data = b"xARR xxxxxxxxxxxxxxx".to_vec();
    assert_eq!(reverse_search(&data, b"ARR ", 20, 3), usize::MAX);
    assert_eq!(reverse_search(&data, b"ARR ", 20, 30), 1);
}

#[test]
fn stream_reverse_search_defaults_to_ten_mib() {
    let mut data = vec![0u8; 64];
    data[10..14].copy_from_slice(b"SND ");
    assert_eq!(stream_reverse_search(&data, b"SND ", 40, -1), 10);
    assert_eq!(stream_reverse_search(&data, b"SND ", 40, 5), usize::MAX);
    assert_eq!(stream_reverse_search(&data, b"SND ", 70, -1), 10);
}

#[test]
fn ordmap_keeps_keys_sorted_and_replaces() {
    let mut m: OrdMap<u32, u32> = OrdMap::new();
    m.insert(5, 50);
    m.insert(1, 10);
    m.insert(3, 30);
    m.insert(5, 55);
    assert_eq!(m.len(), 3);
    assert_eq!(m.entries, vec![(1, 10), (3, 30), (5, 55)]);
    let mut t: OrdMap<Vec<u8>, u32> = OrdMap::new();
    t.insert(b"b".to_vec(), 2);
    t.insert(b"ab".to_vec(), 1);
    t.insert(b"a".to_vec(), 0);
    let keys: Vec<Vec<u8>> = t.entries.iter().map(|e| e.0.clone()).collect();
    assert_eq!(keys, vec![b"a".to_vec(), b"ab".to_vec(), b"b".to_vec()]);
}

#[test]
fn stream_search_over_its_window_matches_the_whole_stream() {
    let mut data = vec![0x5au8; 300];
    for at in [3usize, 40, 120, 250] {
        data[at..at + 4].copy_from_slice(b"SND ");
    }
    for limit in [-1i32, 0, 3, 50, 100, 1000] {
        for offset in [4usize, 7, 44, 60, 124, 200, 254, 299, 300, 400] {
            let whole = stream_reverse_search(&data, b"SND ", offset, limit);
            let start = stream_window_start(offset, 4, limit);
            let end = offset.min(data.len());
            let window = if start < end { data[start..end].to_vec() } else { Vec::new() };
            assert_eq!(stream_reverse_search_window(&window, b"SND ", offset, limit), whole);
        }
    }
    assert_eq!(stream_window_start(200, 4, 50), 148);
    assert_eq!(stream_window_start(200, 4, -1), 0);
    assert_eq!(stream_window_start(10, 4, 0), 5);
}
