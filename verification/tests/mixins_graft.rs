use ddb_toolbox::ddi::{str_to_data, DDIModel};
use ddb_toolbox::mixins::{
    byte_replace, copy_segment, create_vqm_stream, mixins_sta2vqm, mixins_vqm, splice_vqm, DdbOutput,
    MixError, VqmMeta,
};
use ddb_toolbox::cursor::ParseError;

fn le32(x: u32) -> Vec<u8> {
    x.to_le_bytes().to_vec()
}

fn dbv(count: u32) -> Vec<u8> {
    let mut v = vec![0u8; 8];
    v.extend_from_slice(b"DBV ");
    v.extend_from_slice(&[0x22; 12]);
    v.extend(le32(count));
    v
}

/// A DDI with a DBV section counting 3 and a footer, but no VQM stream.
fn receiver() -> (Vec<u8>, usize, usize) {
    let mut d = vec![0x11u8; 16];
    let dbv_pos = d.len();
    d.extend(dbv(3));
    d.extend_from_slice(&[0x77; 5]);
    let footer_pos = d.len();
    d.extend(str_to_data("voice"));
    (d, dbv_pos, footer_pos)
}

#[test]
fn byte_replace_splices() {
    assert_eq!(byte_replace(&[1, 2, 3, 4, 5], 1, 2, &[9]), vec![1, 9, 4, 5]);
    assert_eq!(byte_replace(&[1, 2, 3], 3, 0, &[7, 8]), vec![1, 2, 3, 7, 8]);
    assert_eq!(byte_replace(&[1, 2, 3], 0, 3, &[]), Vec::<u8>::new());
}

fn empty_stream_bytes() -> Vec<u8> {
    let mut v = vec![0xffu8; 8];
    v.extend_from_slice(b"VQM ");
    for x in [0u32, 1, 0, 1] {
        v.extend(le32(x));
    }
    v.extend_from_slice(&[0xff; 8]);
    v.extend_from_slice(b"VQMu");
    for x in [0u32, 1, 0, 0, 0] {
        v.extend(le32(x));
    }
    v.extend(str_to_data("GROWL"));
    v.extend(str_to_data("vqm"));
    v
}

#[test]
fn empty_vqm_stream_is_head_and_tail() {
    assert_eq!(create_vqm_stream(&[]), empty_stream_bytes());
}

#[test]
fn vqm_stream_record_layout() {
    let m = VqmMeta {
        idx: b"12".to_vec(),
        epr: vec![0x1122, 0x3344],
        snd_id: 9,
        snd: 0x55,
        fs: 44100,
        duration: 0x4000_0000_0000_0000,
        pitch2: 1,
        unknown2: 2,
        tempo: 3,
        dynamics: 4,
    };
    let s = create_vqm_stream(&[m]);
    let mut want = empty_stream_bytes();
    want.truncate(60 - 8);
    want.extend(le32(1));
    want.extend(le32(1));
    want.extend_from_slice(&[0xff; 8]);
    want.extend_from_slice(b"VQMp");
    want.extend(le32(0));
    want.extend(le32(0));
    want.extend(le32(1));
    want.extend_from_slice(&0x4000_0000_0000_0000u64.to_le_bytes());
    want.extend(le32(1));
    want.extend_from_slice(&224.0f32.to_le_bytes());
    for x in [1u32, 2, 4, 3, 0] {
        want.extend(le32(x));
    }
    want.extend_from_slice(&[0xff; 4]);
    want.extend(le32(2));
    want.extend_from_slice(&0x1122u64.to_le_bytes());
    want.extend_from_slice(&0x3344u64.to_le_bytes());
    want.extend(le32(44100));
    want.extend_from_slice(&[1, 0]);
    want.extend(le32(9));
    want.extend_from_slice(&0x55u64.to_le_bytes());
    want.extend_from_slice(&[0xff; 16]);
    want.extend(str_to_data("12"));
    want.extend(str_to_data("GROWL"));
    want.extend(str_to_data("vqm"));
    assert_eq!(s, want);
}

fn donor_ddb() -> Vec<u8> {
    let mut v = vec![0x99u8; 4];
    v.extend_from_slice(b"FRM2");
    v.extend(le32(12));
    v.extend_from_slice(&[1, 2, 3, 4]);
    v.extend_from_slice(b"SND ");
    v.extend(le32(22));
    v.extend_from_slice(&[5; 14]);
    v
}

#[test]
fn copy_segment_appends_and_reports_position() {
    let ddb = donor_ddb();
    let mut out = DdbOutput { base: 100, appended: vec![0xaa; 3] };
    assert_eq!(copy_segment(&ddb, &mut out, 4, b"FRM2"), Ok(103));
    assert_eq!(out.appended.len(), 15);
    assert_eq!(&out.appended[3..], &ddb[4..16]);
    assert_eq!(copy_segment(&ddb, &mut out, 4, b"SND "), Err(MixError::BrokenSegment));
    assert_eq!(copy_segment(&ddb, &mut out, 100, b"SND "), Err(MixError::Read(ParseError::UnexpectedEof)));
    let mut cut = ddb.clone();
    cut.truncate(30);
    assert_eq!(copy_segment(&cut, &mut out, 16, b"SND "), Err(MixError::Read(ParseError::UnexpectedEof)));
    assert_eq!(out.appended.len(), 15);
}

#[test]
fn splice_inserts_before_footer_and_counts_it() {
    let (d, dbv_pos, footer_pos) = receiver();
    let mut m = DDIModel::new(d.clone());
    m.read(None, false).unwrap();
    let out = splice_vqm(&m, &[1, 2, 3]).unwrap();
    let mut want = d.clone();
    want[dbv_pos + 24..dbv_pos + 28].copy_from_slice(&le32(4));
    want.splice(footer_pos..footer_pos, [1, 2, 3]);
    assert_eq!(out, want);
}

#[test]
fn splice_replaces_an_existing_stream() {
    let (mut d, _, _) = receiver();
    let pos = 16;
    let stream = create_vqm_stream(&[]);
    d.splice(pos..pos, stream.iter().copied());
    let mut m = DDIModel::new(d.clone());
    m.read(None, false).unwrap();
    assert_eq!(m.offset_map.vqm, Some((pos, pos + stream.len())));
    let out = splice_vqm(&m, &[9]).unwrap();
    let mut want = d.clone();
    want.splice(pos..pos + stream.len(), [9]);
    assert_eq!(out, want);
}

#[test]
fn splice_without_footer_fails() {
    let mut d = vec![0x11u8; 16];
    d.extend(dbv(3));
    let mut m = DDIModel::new(d);
    m.read(None, false).unwrap();
    assert_eq!(splice_vqm(&m, &[1]), Err(MixError::MissingFooter));
}

#[test]
fn splice_without_dbv_fails() {
    let mut d = vec![0x11u8; 16];
    d.extend(str_to_data("voice"));
    let mut m = DDIModel::new(d);
    m.read(None, false).unwrap();
    assert_eq!(splice_vqm(&m, &[1]), Err(MixError::MissingDbv));
}

/// A donor DDI whose VQM stream holds one growl sample, index 5, with one
/// EpR reference at 4 and its sound at 16 of `donor_ddb`.
fn donor_ddi() -> Vec<u8> {
    let mut d = vec![0x11u8; 12];
    d.extend_from_slice(&[0xff; 8]);
    d.extend_from_slice(b"VQM ");
    d.extend_from_slice(&[0x33; 16]);
    d.extend_from_slice(&[0xff; 8]);
    d.extend_from_slice(b"VQMu");
    d.extend_from_slice(&[0x33; 12]);
    d.extend(le32(1));
    d.extend(le32(1));
    d.extend_from_slice(&[0xff; 8]);
    d.extend_from_slice(b"VQMp");
    d.extend_from_slice(&[0x44; 12]);
    d.extend_from_slice(&0x3ff0_0000_0000_0000u64.to_le_bytes());
    d.extend_from_slice(&[0, 0]);
    for x in [10u32, 11, 12, 13, 14] {
        d.extend(le32(x));
    }
    d.extend_from_slice(&[0x55; 8]);
    d.extend(le32(1));
    d.extend_from_slice(&4u64.to_le_bytes());
    d.extend(le32(22050));
    d.extend_from_slice(&[0, 0]);
    d.extend(le32(0x77));
    d.extend_from_slice(&16u64.to_le_bytes());
    d.extend_from_slice(&[0x66; 16]);
    d.extend(str_to_data("5"));
    d.extend(str_to_data("GROWL"));
    d.extend(str_to_data("vqm"));
    d
}

#[test]
fn donor_growls_are_read() {
    let mut m = DDIModel::new(donor_ddi());
    m.read(None, false).unwrap();
    let v = m.vqm_data.as_ref().unwrap();
    assert_eq!(v.len(), 1);
    let (idx, item) = &v.entries[0];
    assert_eq!(*idx, 5);
    assert_eq!(item.epr.len(), 1);
    assert_eq!(item.epr[0].off, 4);
    assert_eq!(item.snd.off, 16);
    assert_eq!(item.snd.id, 0x77);
    assert_eq!(item.fs, 22050);
    assert_eq!(item.params.pitch1, 10);
    assert_eq!(item.params.tempo, 14);
}

#[test]
fn mixins_vqm_grafts_the_donor_growls() {
    let (src, dbv_pos, footer_pos) = receiver();
    let mut donor = DDIModel::new(donor_ddi());
    donor.read(None, false).unwrap();
    let ddb = donor_ddb();
    let mut out = DdbOutput { base: 1000, appended: Vec::new() };
    let ddi = mixins_vqm(&src, &mut out, &donor, &ddb).unwrap();
    let mut appended = ddb[4..16].to_vec();
    appended.extend_from_slice(&ddb[16..38]);
    assert_eq!(out.appended, appended);
    let meta = VqmMeta {
        idx: b"5".to_vec(),
        epr: vec![1000],
        snd_id: 0x77,
        snd: 1012,
        fs: 22050,
        duration: 0x3ff0_0000_0000_0000,
        pitch2: 11,
        unknown2: 12,
        tempo: 14,
        dynamics: 13,
    };
    let stream = create_vqm_stream(&[meta]);
    let mut want = src.clone();
    want[dbv_pos + 24..dbv_pos + 28].copy_from_slice(&le32(4));
    want.splice(footer_pos..footer_pos, stream);
    assert_eq!(ddi, want);
}

#[test]
fn mixins_vqm_needs_donor_growls() {
    let (src, _, _) = receiver();
    let mut donor = DDIModel::new(src.clone());
    donor.read(None, false).unwrap();
    let mut out = DdbOutput { base: 0, appended: Vec::new() };
    assert_eq!(mixins_vqm(&src, &mut out, &donor, &[]), Err(MixError::MissingVqm));
    assert!(out.appended.is_empty());
}

#[test]
fn sta2vqm_needs_the_phoneme() {
    let (src, _, _) = receiver();
    let mut donor = DDIModel::new(src.clone());
    donor.read(None, false).unwrap();
    let mut out = DdbOutput { base: 0, appended: Vec::new() };
    assert_eq!(mixins_sta2vqm(&src, &mut out, &donor, &[], "Grw"), Err(MixError::MissingStationary));
}

#[test]
fn mixins_report_an_unreadable_receiver() {
    let mut src = vec![0x11u8; 8];
    src.extend_from_slice(&[0xff; 8]);
    src.extend_from_slice(b"TDB ");
    let mut donor = DDIModel::new(donor_ddi());
    donor.read(None, false).unwrap();
    let mut out = DdbOutput { base: 0, appended: Vec::new() };
    assert_eq!(
        mixins_vqm(&src, &mut out, &donor, &donor_ddb()),
        Err(MixError::Read(ParseError::UnexpectedEof))
    );
}

#[test]
fn mixins_vqm_checks_the_donor_before_reading_the_receiver() {
    let mut unreadable = vec![0u8; 8];
    unreadable.extend_from_slice(b"STA ");
    unreadable.extend_from_slice(&[1; 20]);
    assert!(DDIModel::new(unreadable.clone()).read_would_abort());
    let (plain, _, _) = receiver();
    let mut donor = DDIModel::new(plain);
    donor.read(None, false).unwrap();
    assert!(!ddb_toolbox::mixins::has_growls(&donor));
    let mut out = DdbOutput { base: 0, appended: Vec::new() };
    assert_eq!(mixins_vqm(&unreadable, &mut out, &donor, &[]), Err(MixError::MissingVqm));
}
