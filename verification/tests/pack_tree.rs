use ddb_toolbox::cursor::ParseError;
use ddb_toolbox::dict::SampleRef;
use ddb_toolbox::model::{EprRef, SndRef};
use ddb_toolbox::pack::{
    copy_chunk_bytes, escape_filename, pack_art_file, pack_sta_file, write_u64_at, PackError, PackOutput,
};

fn le32(x: u32) -> Vec<u8> {
    x.to_le_bytes().to_vec()
}

#[test]
fn escape_filename_keeps_lowercase_ascii() {
    assert_eq!(escape_filename("abz"), b"abz".to_vec());
    assert_eq!(escape_filename("aB"), b"a%66%".to_vec());
    assert_eq!(escape_filename("a1"), b"a%49%".to_vec());
    assert_eq!(escape_filename("\u{e9}"), b"%233%".to_vec());
    assert_eq!(escape_filename(""), Vec::<u8>::new());
}

#[test]
fn write_u64_at_overwrites_or_pads() {
    let mut v = vec![9u8; 12];
    write_u64_at(&mut v, 2, 0x0102);
    assert_eq!(v, vec![9, 9, 2, 1, 0, 0, 0, 0, 0, 0, 9, 9]);
    let mut v = vec![1u8, 2];
    write_u64_at(&mut v, 4, 0x0304);
    assert_eq!(v, vec![1, 2, 0, 0, 4, 3, 0, 0, 0, 0, 0, 0]);
    let mut v = vec![7u8; 10];
    write_u64_at(&mut v, 6, u64::MAX);
    assert_eq!(v, vec![7, 7, 7, 7, 7, 7, 255, 255, 255, 255, 255, 255, 255, 255]);
}

#[test]
fn copy_chunk_stops_at_end_of_data() {
    let mut src = b"FRM2".to_vec();
    src.extend(le32(100));
    src.extend_from_slice(&[1, 2]);
    let mut out = PackOutput { ddi: vec![], ddb: vec![0xaa] };
    assert_eq!(copy_chunk_bytes(&src, &mut out, 0, b"FRM2"), Ok(1));
    assert_eq!(out.ddb.len(), 1 + src.len());
    assert_eq!(copy_chunk_bytes(&src, &mut out, 0, b"SND "), Err(PackError::Broken));
    assert_eq!(copy_chunk_bytes(&src, &mut out, 8, b"FRM2"), Err(PackError::Read(ParseError::UnexpectedEof)));
}

/// A stationary file: 4 bytes, a sound chunk at 4 of 20 bytes, a frame
/// chunk at 24 of 8 bytes.
fn sta_file() -> Vec<u8> {
    let mut v = vec![0x11u8; 4];
    v.extend_from_slice(b"SND ");
    v.extend(le32(20));
    v.extend_from_slice(&[3; 12]);
    v.extend_from_slice(b"FRM2");
    v.extend(le32(8));
    v
}

#[test]
fn pack_sta_points_the_ddi_at_the_copies() {
    let sta = sta_file();
    let item = SampleRef {
        snd: SndRef { pos: 8, off: 30, id: 9 },
        snd_start: None,
        epr: vec![EprRef { pos: 0, off: 24 }],
        pitch: 0,
    };
    let mut out = PackOutput { ddi: vec![0xee; 20], ddb: vec![] };
    assert_eq!(pack_sta_file(&sta, &mut out, &item), Ok(()));
    let mut ddb = sta[24..32].to_vec();
    ddb.extend_from_slice(&sta[4..24]);
    assert_eq!(out.ddb, ddb);
    let mut ddi = vec![0xee; 20];
    ddi[0..8].copy_from_slice(&0u64.to_le_bytes());
    ddi[8..16].copy_from_slice(&34u64.to_le_bytes());
    assert_eq!(out.ddi, ddi);
}

#[test]
fn pack_sta_without_a_sound_signature_is_corrupt() {
    let sta = vec![0x11u8; 40];
    let item = SampleRef { snd: SndRef { pos: 0, off: 30, id: 0 }, snd_start: None, epr: vec![], pitch: 0 };
    let mut out = PackOutput { ddi: vec![0; 8], ddb: vec![] };
    assert_eq!(pack_sta_file(&sta, &mut out, &item), Err(PackError::Read(ParseError::Corrupt)));
    let near = SampleRef { snd: SndRef { pos: 0, off: 2, id: 0 }, snd_start: None, epr: vec![], pitch: 0 };
    assert_eq!(pack_sta_file(&sta, &mut out, &near), Err(PackError::Read(ParseError::Corrupt)));
}

fn art_file() -> Vec<u8> {
    let mut v = b"SND ".to_vec();
    v.extend(le32(24));
    v.extend_from_slice(&[4; 16]);
    v
}

#[test]
fn pack_art_points_sound_and_start() {
    let art = art_file();
    let items = vec![SampleRef {
        snd: SndRef { pos: 0, off: 0, id: 1 },
        snd_start: Some(SndRef { pos: 8, off: 5, id: 1 }),
        epr: vec![],
        pitch: 0,
    }];
    let mut out = PackOutput { ddi: vec![0; 16], ddb: vec![0xaa; 3] };
    assert_eq!(pack_art_file(&art, &mut out, &items), Ok(()));
    let mut ddb = vec![0xaa; 3];
    ddb.extend_from_slice(&art);
    assert_eq!(out.ddb, ddb);
    let mut ddi = 21u64.to_le_bytes().to_vec();
    ddi.extend_from_slice(&26u64.to_le_bytes());
    assert_eq!(out.ddi, ddi);
}

#[test]
fn pack_art_errors() {
    let art = art_file();
    let no_start = vec![SampleRef { snd: SndRef { pos: 0, off: 0, id: 1 }, snd_start: None, epr: vec![], pitch: 0 }];
    let mut out = PackOutput { ddi: vec![0; 16], ddb: vec![] };
    assert_eq!(pack_art_file(&art, &mut out, &no_start), Err(PackError::MissingStart));
    let backward = vec![SampleRef {
        snd: SndRef { pos: 0, off: 4, id: 1 },
        snd_start: Some(SndRef { pos: 8, off: 0, id: 1 }),
        epr: vec![],
        pitch: 0,
    }];
    assert_eq!(pack_art_file(&art, &mut out, &backward), Err(PackError::Read(ParseError::Corrupt)));
    let wrong = vec![SampleRef {
        snd: SndRef { pos: 0, off: 4, id: 1 },
        snd_start: Some(SndRef { pos: 8, off: 4, id: 1 }),
        epr: vec![],
        pitch: 0,
    }];
    assert_eq!(pack_art_file(&art, &mut out, &wrong), Err(PackError::Broken));
    assert!(out.ddb.is_empty());
}

#[test]
fn escaped_names_are_safe_and_distinct() {
    let names = ["a%66%", "aB", "a%", "%", "a1", "a\u{31}", "ab", "B", "%66%"];
    for n in names {
        assert!(escape_filename(n).iter().all(|b| b.is_ascii_lowercase() || b.is_ascii_digit() || *b == b'%'));
    }
    assert_ne!(escape_filename("a%66%"), escape_filename("aB"));
    assert_ne!(escape_filename("B"), escape_filename("%66%"));
    assert_eq!(escape_filename("%"), b"%37%".to_vec());
}
