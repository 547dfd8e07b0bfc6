use ddb_toolbox::ddi::{str_to_data, DDIModel};
use ddb_toolbox::model::{AlignGroup, FrameAlign};
use ddb_toolbox::wav::art_sample_list;

fn le32(x: u32) -> Vec<u8> {
    x.to_le_bytes().to_vec()
}

fn le64(x: u64) -> Vec<u8> {
    x.to_le_bytes().to_vec()
}

/// The pitch and timing fields: an `f64`, two bytes, five `f32`s.
fn params(pitch1: f32) -> Vec<u8> {
    let mut v = le64(2.5f64.to_bits());
    v.extend_from_slice(&[0, 0]);
    for x in [pitch1, 2.0f32, 3.0, 4.0, 5.0] {
        v.extend(le32(x.to_bits()));
    }
    v
}

fn name_record(name: &str, unvoiced: bool) -> Vec<u8> {
    let mut v = name.as_bytes().to_vec();
    v.resize(30, 0);
    v.push(if unvoiced { 1 } else { 0 });
    v
}

/// A PHDC block: phonemes `a` (voiced) and `k` (unvoiced), one PHG2 group
/// and one EpR guide entry with two values.
fn phdc_block() -> Vec<u8> {
    let phg2_size = 100u32;
    let mut guide = b"g1".to_vec();
    guide.resize(32, 0);
    guide.extend(le32(0x99));
    guide.extend_from_slice(&[0, 0, 0x12, 0x34, 0, 0, 0, 0xaa]);
    guide.extend_from_slice(&[0, 0, 0, 0, 0, 0, 0, 0x55]);
    let phdc_size = phg2_size + 16 + 31 * 2 + 4 + guide.len() as u32;
    let mut v = b"PHDC".to_vec();
    v.extend(le32(phdc_size));
    v.extend(le32(0));
    v.extend(le32(2));
    v.extend(name_record("a", false));
    v.extend(name_record("k", true));
    v.extend_from_slice(b"PHG2");
    v.extend(le32(phg2_size));
    v.extend(le32(1));
    v.extend(str_to_data("grp"));
    v.extend(le32(2));
    v.extend(le32(10));
    v.extend(str_to_data("x"));
    v.extend(le32(2));
    v.extend(str_to_data("y"));
    v.extend(le32(0));
    v.extend(le32(1));
    v.extend(guide);
    v
}

#[test]
fn phdc_block_is_read() {
    let mut d = vec![0x11u8; 8];
    let block = phdc_block();
    d.extend(block.clone());
    d.extend(str_to_data("voice"));
    let mut m = DDIModel::new(d);
    m.read(None, false).unwrap();
    let p = m.phdc_data.as_ref().unwrap();
    assert_eq!(p.voiced, vec![b"a".to_vec()]);
    assert_eq!(p.unvoiced, vec![b"k".to_vec()]);
    assert_eq!(p.phg2.entries.len(), 1);
    assert_eq!(p.phg2.entries[0].0, b"grp".to_vec());
    assert_eq!(
        p.phg2.entries[0].1.entries,
        vec![(b"10".to_vec(), b"x".to_vec()), (b"2".to_vec(), b"y".to_vec())]
    );
    assert_eq!(p.epr_guide.entries.len(), 1);
    assert_eq!(p.epr_guide.entries[0].0, b"g1".to_vec());
    assert_eq!(p.epr_guide.entries[0].1, vec![b"1234000000".to_vec(), b"00000000000000".to_vec()]);
    assert_eq!(m.offset_map.phdc, Some((8, 8 + block.len())));
}

/// An STA section with one stationary (index 4, phoneme `e`) holding one
/// sample keyed `0` with one EpR reference.
fn sta_section() -> (Vec<u8>, usize, usize) {
    let mut v = vec![0x11u8; 8];
    v.extend_from_slice(b"ARR ");
    v.extend_from_slice(&[0x55; 16]);
    v.extend_from_slice(&[0u8; 8]);
    v.extend_from_slice(b"STA ");
    v.extend_from_slice(&[0x66; 12]);
    v.extend(le32(1));
    v.extend_from_slice(&[0x77; 8]);
    v.extend_from_slice(b"STAu");
    v.extend_from_slice(&[0x77; 12]);
    v.extend(le32(4));
    v.extend_from_slice(&[0x77; 8]);
    v.extend(le32(1));
    v.extend_from_slice(&[0x88; 8]);
    v.extend_from_slice(b"STAp");
    v.extend_from_slice(&[0x88; 12]);
    v.extend(params(440.0));
    v.extend_from_slice(&[0x88; 16]);
    v.extend_from_slice(b"SND ");
    v.extend(le32(0));
    v.extend(str_to_data("skip"));
    v.extend(le32(1234));
    v.extend(le32(0));
    v.extend_from_slice(b"EpR ");
    v.extend(le32(0));
    v.extend(str_to_data("skip2"));
    v.extend_from_slice(&[0x99; 4]);
    v.extend(le32(1));
    let epr_pos = v.len();
    v.extend(le64(0x4444));
    v.extend(le32(44100));
    v.extend_from_slice(&[0, 0]);
    v.extend(le32(0x21));
    let snd_pos = v.len();
    v.extend(le64(0x5555));
    v.extend_from_slice(&[0xaa; 16]);
    v.extend(str_to_data("0"));
    v.extend(str_to_data("e"));
    v.extend(str_to_data("x"));
    v.extend(str_to_data("y"));
    (v, epr_pos, snd_pos)
}

#[test]
fn sta_section_is_read() {
    let mut d = vec![0x12u8; 8];
    let (sec, epr_pos, snd_pos) = sta_section();
    d.extend(sec.clone());
    d.extend(str_to_data("voice"));
    let mut m = DDIModel::new(d);
    m.read(None, false).unwrap();
    assert_eq!(m.offset_map.sta, Some((8, 8 + sec.len())));
    assert_eq!(m.sta_data.entries.len(), 1);
    let (idx, e) = &m.sta_data.entries[0];
    assert_eq!(*idx, 4);
    assert_eq!(e.phoneme, b"e".to_vec());
    assert_eq!(e.stap.entries.len(), 1);
    let (key, it) = &e.stap.entries[0];
    assert_eq!(*key, b"0".to_vec());
    assert_eq!(it.params.pitch1, 440.0f32.to_bits());
    assert_eq!(it.params.duration, 2.5f64.to_bits());
    assert_eq!(it.params.tempo, 5.0f32.to_bits());
    assert_eq!(it.snd_length, 1234);
    assert_eq!(it.fs, 44100);
    assert_eq!(it.epr.len(), 1);
    assert_eq!(it.epr[0].pos, (8 + epr_pos) as u64);
    assert_eq!(it.epr[0].off, 0x4444);
    assert_eq!(it.snd.pos, (8 + snd_pos) as u64);
    assert_eq!(it.snd.off, 0x5555);
    assert_eq!(it.snd.id, 0x21);
    let dict = m.ddi_data_dict.as_ref().unwrap();
    assert_eq!(dict.sta.entries.len(), 1);
    assert_eq!(dict.sta.entries[0].0, b"e".to_vec());
    let s = &dict.sta.entries[0].1;
    assert_eq!(s.len(), 1);
    assert_eq!(s[0].pitch, 440.0f32.to_bits());
    assert!(s[0].snd_start.is_none());
    assert_eq!(s[0].snd.off, 0x5555);
}

/// An articulation sample keyed 9 whose frame alignment holds one group.
fn artp_item() -> Vec<u8> {
    let mut v = le64(0xdead);
    v.extend_from_slice(b"ARTp");
    v.extend_from_slice(&[0x31; 12]);
    v.extend(params(220.0));
    v.extend(le32(0));
    v.extend(le64(9));
    v.extend_from_slice(b"SND ");
    v.extend(le32(0));
    v.extend(str_to_data("s1"));
    v.extend(le32(0));
    v.extend(le32(0));
    v.extend_from_slice(b"EpR ");
    v.extend(le32(0));
    v.extend(str_to_data("s2"));
    v.extend(le32(1));
    v.extend(le64(0x700));
    v.extend(le32(22050));
    v.extend_from_slice(&[0, 0]);
    v.extend(le32(0x42));
    v.extend(le64(0x100));
    v.extend(le64(0x130));
    v.extend(le32(1));
    for x in [1u32, 2, 3, 4] {
        v.extend(le32(x));
    }
    v.extend(str_to_data("default"));
    v
}

/// An ART section with block 5 (phoneme `a`) holding unit 3 (phoneme `b`,
/// one sample) and a nested block 7 (phoneme `sub`, no units).
fn art_section() -> Vec<u8> {
    let mut v = le64(0x1111_1111_1111_1111);
    v.extend_from_slice(b"ARR ");
    v.extend_from_slice(&[0x55; 16]);
    v.extend_from_slice(&[0u8; 8]);
    v.extend_from_slice(b"ART ");
    v.extend_from_slice(&[0x22; 12]);
    v.extend(le32(5));
    v.extend(le32(2));
    v.extend_from_slice(&[0x33; 8]);
    v.extend_from_slice(b"ARTu");
    v.extend_from_slice(&[0x33; 12]);
    v.extend(le32(3));
    v.extend_from_slice(&[0x33; 16]);
    v.extend(le32(1));
    v.extend(artp_item());
    v.extend(str_to_data("b"));
    v.extend_from_slice(&[0xffu8; 8]);
    v.extend_from_slice(b"ART ");
    v.extend_from_slice(&[0x44; 12]);
    v.extend(le32(7));
    v.extend(le32(0));
    v.extend(str_to_data("sub"));
    v.extend(str_to_data("a"));
    v.extend(str_to_data("articulation"));
    v
}

#[test]
fn art_section_is_read() {
    let mut d = vec![0x12u8; 8];
    let sec = art_section();
    d.extend(sec.clone());
    d.extend(str_to_data("voice"));
    let mut m = DDIModel::new(d);
    m.read(None, false).unwrap();
    assert_eq!(m.offset_map.art, Some((8, 8 + sec.len())));
    assert_eq!(m.art_data.entries.len(), 1);
    let (idx, b) = &m.art_data.entries[0];
    assert_eq!(*idx, 5);
    assert_eq!(b.phoneme, b"a".to_vec());
    assert_eq!(b.artu.entries.len(), 1);
    let (ukey, u) = &b.artu.entries[0];
    assert_eq!(*ukey, b"3".to_vec());
    assert_eq!(u.phoneme, b"b".to_vec());
    let (pkey, it) = &u.artp.entries[0];
    assert_eq!(*pkey, b"9".to_vec());
    assert_eq!(it.dev_artp, 0xdead);
    assert_eq!(it.params.pitch1, 220.0f32.to_bits());
    assert_eq!(it.fs, 22050);
    assert_eq!(it.epr[0].off, 0x700);
    assert_eq!(it.snd.off, 0x100 - 0x12);
    assert_eq!(it.snd.id, 0x42);
    assert_eq!(it.snd_start.off, 0x130 - 0x12);
    assert_eq!(it.snd_start.pos, it.snd.pos + 8);
    match &it.frame_align {
        FrameAlign::Groups(g) => assert_eq!(g, &vec![AlignGroup { start: 1, end: 2, start2: 3, end2: 4 }]),
        _ => panic!("expected groups"),
    }
    let (sub_idx, sub) = b.sub.as_ref().unwrap();
    assert_eq!(*sub_idx, 7);
    assert_eq!(sub.phoneme, b"sub".to_vec());
    assert_eq!(sub.artu.len(), 0);
    let dict = m.ddi_data_dict.as_ref().unwrap();
    assert_eq!(dict.art.entries.len(), 1);
    assert_eq!(dict.art.entries[0].0, b"a b".to_vec());
    let s = &dict.art.entries[0].1[0];
    assert_eq!(s.snd_start.map(|x| x.off), Some(0x130 - 0x12));
    assert_eq!(s.pitch, 220.0f32.to_bits());
    let list = art_sample_list(&m.art_data);
    assert_eq!(list.len(), 1);
    assert_eq!(list[0].idx, 0);
    assert_eq!(list[0].phonemes, vec![b"a".to_vec(), b"b".to_vec()]);
}
