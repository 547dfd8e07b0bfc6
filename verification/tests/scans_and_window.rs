use ddb_toolbox::frm2::{frm2_chunks, Frm2End};
use ddb_toolbox::gui::{growl_phoneme, AppState, Command, FileKind, Job, Message, MixinsMode, PathField};
use ddb_toolbox::model::{ArtBlock, ArtpItem, ArtuEntry, EprRef, FrameAlign, SndRef, VoiceParams};
use ddb_toolbox::ordmap::OrdMap;
use ddb_toolbox::wav::{art_sample_list, find_snd_marks, pcm_samples, read_snd_header, scan_step, SndHeader, SndRead};

fn le32(x: u32) -> Vec<u8> {
    x.to_le_bytes().to_vec()
}

#[test]
fn frm2_chunks_follow_each_other() {
    let mut d = b"ab".to_vec();
    d.extend_from_slice(b"FRM2");
    d.extend(le32(10));
    d.extend_from_slice(&[1, 2]);
    d.extend_from_slice(b"zz");
    d.extend_from_slice(b"FRM2");
    d.extend(le32(8));
    d.extend_from_slice(b"FRM2");
    d.extend(le32(100));
    let r = frm2_chunks(&d);
    assert_eq!(r.chunks, vec![(2, 12), (14, 22)]);
    assert_eq!(r.end, Frm2End::Finished);
}

#[test]
fn frm2_scan_ends() {
    let r = frm2_chunks(b"xFRM2\x01");
    assert!(r.chunks.is_empty());
    assert_eq!(r.end, Frm2End::Truncated);
    let mut d = b"ab".to_vec();
    d.extend_from_slice(b"FRM2");
    d.extend(le32(0));
    let r = frm2_chunks(&d);
    assert_eq!(r.chunks, vec![(2, 2)]);
    assert_eq!(r.end, Frm2End::Stuck);
    let r = frm2_chunks(b"nothing here");
    assert!(r.chunks.is_empty());
    assert_eq!(r.end, Frm2End::Finished);
}

#[test]
fn sound_headers() {
    let mut b = b"SND ".to_vec();
    b.extend(le32(30));
    b.extend(le32(44100));
    b.extend_from_slice(&[1, 0]);
    let h = SndHeader { len: 30, sample_rate: 44100, channels: 1 };
    assert_eq!(read_snd_header(&b), SndRead::Sound(h));
    assert_eq!(h.data_len(), Some(12));
    assert_eq!(SndHeader { len: 17, sample_rate: 1, channels: 1 }.data_len(), None);
    assert_eq!(read_snd_header(b"FRM2xxxxxxxxxx"), SndRead::NotSound);
    assert_eq!(read_snd_header(b"SN"), SndRead::NotSound);
    assert_eq!(read_snd_header(b"SND \x01\x00"), SndRead::Truncated);
}

#[test]
fn sound_marks_and_samples() {
    assert_eq!(find_snd_marks(b"xSND SND x"), vec![1, 5]);
    assert_eq!(find_snd_marks(b"SND"), Vec::<usize>::new());
    assert_eq!(pcm_samples(&[1, 0, 0xff, 0xff, 7]), vec![1, -1]);
}

fn artp(dev: u64) -> ArtpItem {
    ArtpItem {
        dev_artp: dev,
        params: VoiceParams { duration: 0, pitch1: 0, pitch2: 0, unknown2: 0, dynamics: 0, tempo: 0 },
        epr: vec![EprRef { pos: 0, off: 0 }],
        fs: 0,
        snd: SndRef { pos: 0, off: 0, id: 0 },
        snd_start: SndRef { pos: 0, off: 0, id: 0 },
        frame_align: FrameAlign::Absent,
    }
}

fn unit(ph: &str, items: Vec<ArtpItem>) -> ArtuEntry {
    let mut artp = OrdMap::new();
    for (i, it) in items.into_iter().enumerate() {
        artp.insert(i.to_string().into_bytes(), it);
    }
    ArtuEntry { phoneme: ph.as_bytes().to_vec(), artp }
}

#[test]
fn articulation_samples_are_listed_block_by_block() {
    let mut sub_units = OrdMap::new();
    sub_units.insert(b"0".to_vec(), unit("c", vec![artp(3)]));
    let sub = ArtBlock { phoneme: b"b".to_vec(), artu: sub_units, sub: None };
    let mut units = OrdMap::new();
    units.insert(b"0".to_vec(), unit("b", vec![artp(1), artp(2)]));
    let block = ArtBlock { phoneme: b"a".to_vec(), artu: units, sub: Some((9, Box::new(sub))) };
    let mut art = OrdMap::new();
    art.insert(0u32, block);
    let list = art_sample_list(&art);
    let got: Vec<(usize, Vec<Vec<u8>>, u64)> =
        list.iter().map(|s| (s.idx, s.phonemes.clone(), s.item.dev_artp)).collect();
    assert_eq!(
        got,
        vec![
            (0, vec![b"a".to_vec(), b"b".to_vec()], 1),
            (1, vec![b"a".to_vec(), b"b".to_vec()], 2),
            (0, vec![b"a".to_vec(), b"b".to_vec(), b"c".to_vec()], 3),
        ]
    );
}

#[test]
fn window_starts_idle() {
    let s = AppState::default();
    assert!(!s.is_busy);
    assert!(s.ddi_file.is_empty());
    assert_eq!(s.mix_mode, MixinsMode::Vqm);
    assert_eq!(MixinsMode::default(), MixinsMode::Vqm);
    assert_eq!(growl_phoneme(), "Grw");
}

#[test]
fn toggles_and_paths() {
    let mut s = AppState::default();
    assert!(matches!(s.update(Message::ToggleGenLab(true)), Command::Nothing));
    assert!(s.gen_lab);
    assert!(matches!(s.update(Message::ToggleCatOnly(true)), Command::Nothing));
    assert!(s.cat_only);
    match s.update(Message::BrowseDdi) {
        Command::PickFile { target, kind } => {
            assert_eq!(target, PathField::DdiFile);
            assert_eq!(kind, FileKind::Ddi);
        },
        _ => panic!("expected a file dialog"),
    }
    match s.update(Message::BrowseMixOut) {
        Command::PickFolder { target } => assert_eq!(target, PathField::MixOut),
        _ => panic!("expected a folder dialog"),
    }
    s.set_path(PathField::DdiFile, "voice.ddi".to_string());
    assert_eq!(s.ddi_file, "voice.ddi");
    assert!(!s.is_busy);
}

#[test]
fn one_task_at_a_time() {
    let mut s = AppState::default();
    s.set_path(PathField::DdiFile, "v.ddi".to_string());
    s.set_path(PathField::OutDir, "out".to_string());
    match s.update(Message::RunExtractWav) {
        Command::Run(Job::ExtractWav { ddi, out, gen_lab, gen_seg, classify }) => {
            assert_eq!(ddi, "v.ddi");
            assert_eq!(out, "out");
            assert!(!gen_lab && !gen_seg && !classify);
        },
        _ => panic!("expected the task to start"),
    }
    assert!(s.is_busy);
    assert!(matches!(s.update(Message::RunPack), Command::Nothing));
    assert!(matches!(s.update(Message::RunMixins), Command::Nothing));
    assert!(s.is_busy);
    match s.update(Message::TaskCompleted(Err("boom".to_string()))) {
        Command::Report(Err(e)) => assert_eq!(e, "boom"),
        _ => panic!("expected a report"),
    }
    assert!(!s.is_busy);
    match s.update(Message::RunMixins) {
        Command::Run(Job::Mixins { mode, .. }) => assert_eq!(mode, MixinsMode::Vqm),
        _ => panic!("expected the task to start"),
    }
}

#[test]
fn scan_steps_overlap_by_four_bytes() {
    let mut block = vec![0u8; 10240];
    block[10237..10240].copy_from_slice(b"SND");
    block[5..9].copy_from_slice(b"SND ");
    let s = scan_step(1000, &block);
    assert_eq!(s.marks, vec![1005]);
    assert_eq!(s.next, Some(1000 + 10240 - 4));
    let tail = b"xSND x".to_vec();
    let s = scan_step(20000, &tail);
    assert_eq!(s.marks, vec![20001]);
    assert_eq!(s.next, None);
    let s = scan_step(0, &[]);
    assert!(s.marks.is_empty());
    assert_eq!(s.next, None);
}
