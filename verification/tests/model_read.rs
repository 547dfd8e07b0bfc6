use ddb_toolbox::cursor::ParseError;
use ddb_toolbox::ddi::{str_to_data, DDIModel};
use ddb_toolbox::mixins::create_vqm_stream;

fn le32(x: u32) -> Vec<u8> {
    x.to_le_bytes().to_vec()
}

/// A DBV header whose count (24 bytes in) is `count`.
fn dbv(count: u32) -> Vec<u8> {
    let mut v = vec![0u8; 8];
    v.extend_from_slice(b"DBV ");
    v.extend_from_slice(&[0x22; 12]);
    v.extend(le32(count));
    v
}

/// A TDB section with one entry, index `idx`, named `name`.
fn tdb(idx: u32, name: &str) -> Vec<u8> {
    let mut v = vec![0xffu8; 8];
    v.extend_from_slice(b"TDB ");
    v.extend_from_slice(&[0x33; 12]);
    v.extend(le32(1));
    v.extend_from_slice(&[0x44; 8]);
    v.extend_from_slice(b"TDBp");
    v.extend_from_slice(&[0x44; 12]);
    v.extend(le32(idx));
    v.extend(le32(0));
    v.extend(str_to_data(name));
    v.extend(str_to_data("tdb"));
    v
}

/// An empty STA section: 8 bytes, an array record, the signature block and
/// a count of zero, and two strings.
fn empty_sta() -> Vec<u8> {
    let mut v = vec![0x11u8; 8];
    v.extend_from_slice(b"ARR ");
    v.extend_from_slice(&[0x55; 16]);
    v.extend_from_slice(&[0u8; 8]);
    v.extend_from_slice(b"STA ");
    v.extend_from_slice(&[0x66; 12]);
    v.extend(le32(0));
    v.extend(str_to_data(""));
    v.extend(str_to_data(""));
    v
}

fn footer() -> Vec<u8> {
    str_to_data("voice")
}

fn sample_ddi() -> (Vec<u8>, usize, usize, usize) {
    let mut d = vec![0x11u8; 16];
    let tdb_pos = d.len();
    d.extend(tdb(7, "tone"));
    let dbv_pos = d.len();
    d.extend(dbv(3));
    let sta_pos = d.len();
    d.extend(empty_sta());
    d.extend(footer());
    (d, tdb_pos, dbv_pos, sta_pos)
}

#[test]
fn new_model_holds_nothing() {
    let m = DDIModel::new(vec![1, 2, 3]);
    assert_eq!(m.ddi_bytes, vec![1, 2, 3]);
    assert!(m.phdc_data.is_none());
    assert_eq!(m.tdb_data.len(), 0);
    assert!(m.vqm_data.is_none());
    assert!(m.offset_map.dbv.is_none());
    assert!(m.ddi_data_dict.is_none());
}

#[test]
fn read_finds_sections_by_signature() {
    let (d, tdb_pos, dbv_pos, sta_pos) = sample_ddi();
    let mut m = DDIModel::new(d.clone());
    assert!(!m.read_would_abort());
    assert_eq!(m.read(None, false), Ok(()));
    assert_eq!(m.tdb_data.entries, vec![(7, b"tone".to_vec())]);
    assert_eq!(m.offset_map.tdb, Some((tdb_pos, dbv_pos)));
    assert_eq!(m.offset_map.dbv, Some((dbv_pos, dbv_pos + 28)));
    assert_eq!(m.offset_map.sta, Some((sta_pos, sta_pos + 64)));
    assert_eq!(m.sta_data.len(), 0);
    assert!(m.offset_map.phdc.is_none());
    assert!(m.offset_map.art.is_none());
    assert!(m.offset_map.vqm.is_none());
    let dict = m.ddi_data_dict.as_ref().unwrap();
    assert_eq!(dict.sta.len(), 0);
    assert_eq!(dict.art.len(), 0);
    assert!(dict.vqm.is_none());
}

#[test]
fn read_with_cat_only_reads_nothing() {
    let (d, _, _, _) = sample_ddi();
    let mut m = DDIModel::new(d);
    assert_eq!(m.read(None, true), Ok(()));
    assert_eq!(m.tdb_data.len(), 0);
    assert!(m.ddi_data_dict.is_none());
}

#[test]
fn reading_twice_changes_nothing() {
    let (d, _, _, _) = sample_ddi();
    let mut m = DDIModel::new(d);
    m.read(None, false).unwrap();
    let first = (m.tdb_data.entries.clone(), m.offset_map.tdb, m.offset_map.dbv, m.offset_map.sta);
    m.read(None, false).unwrap();
    let second = (m.tdb_data.entries.clone(), m.offset_map.tdb, m.offset_map.dbv, m.offset_map.sta);
    assert_eq!(first, second);
}

#[test]
fn read_reports_a_truncated_section() {
    let mut d = vec![0x11u8; 8];
    d.extend(dbv(1));
    d.extend_from_slice(&[0xff; 8]);
    d.extend_from_slice(b"TDB ");
    d.extend_from_slice(&[0x33; 4]);
    let mut m = DDIModel::new(d);
    assert_eq!(m.read(None, false), Err(ParseError::UnexpectedEof));
    assert!(m.offset_map.dbv.is_none());
    assert!(m.ddi_data_dict.is_none());
}

#[test]
fn read_finds_an_empty_vqm_stream() {
    let stream = create_vqm_stream(&[]);
    let mut d = vec![0x11u8; 12];
    let pos = d.len();
    d.extend(stream.clone());
    d.extend(footer());
    let mut m = DDIModel::new(d);
    m.read(None, false).unwrap();
    assert_eq!(m.vqm_data.as_ref().map(|v| v.len()), Some(0));
    assert_eq!(m.offset_map.vqm, Some((pos, pos + stream.len())));
    assert_eq!(m.ddi_data_dict.as_ref().unwrap().vqm.as_ref().map(|v| v.len()), Some(0));
}

#[test]
fn a_section_signature_at_the_start_would_abort() {
    let mut d = vec![0u8; 8];
    d.extend_from_slice(b"STA ");
    d.extend_from_slice(&[1; 20]);
    let m = DDIModel::new(d);
    assert!(m.read_would_abort());
}

#[test]
fn an_array_record_in_the_first_bytes_would_abort() {
    let mut d = vec![0x11u8; 3];
    d.extend_from_slice(b"ARR ");
    d.extend_from_slice(&[0x11; 4]);
    d.extend_from_slice(&[0u8; 8]);
    d.extend_from_slice(b"ART ");
    let m = DDIModel::new(d);
    assert!(m.read_would_abort());
}
