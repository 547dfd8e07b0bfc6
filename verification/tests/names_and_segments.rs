use ddb_toolbox::model::{EprRef, SndRef};
use ddb_toolbox::names::{
    create_file_name, drop_first_caret_exec, epr_ref_text, escape_xsampa, hex8_bytes, hex_pad_bytes,
    lab_phoneme_list, seg_phoneme_list, snd_ref_text, FileName,
};
use ddb_toolbox::segment::{generate_transcription, voiced_list};

fn names(v: &[&str]) -> Vec<Vec<u8>> {
    v.iter().map(|s| s.as_bytes().to_vec()).collect()
}

fn sample(f: FileName) -> (Vec<u8>, Vec<u8>) {
    match f {
        FileName::Sample { head, tail } => (head, tail),
        FileName::Unknown(v) => panic!("no group: {:?}", v),
    }
}

#[test]
fn escape_xsampa_replaces_unsafe_characters() {
    assert_eq!(escape_xsampa(b"Sil"), b"sil".to_vec());
    assert_eq!(escape_xsampa(b"SilSil"), b"silsil".to_vec());
    assert_eq!(escape_xsampa(b"SSil"), b"Ssil".to_vec());
    assert_eq!(escape_xsampa(b"a\\b/c?d:e<f>g*"), "a-b~c!d;e(f)g\u{2022}".as_bytes().to_vec());
    assert_eq!(escape_xsampa("\u{e9}*".as_bytes()), "\u{e9}\u{2022}".as_bytes().to_vec());
}

#[test]
fn hex_is_zero_padded() {
    assert_eq!(hex8_bytes(0x1f), b"0000001f".to_vec());
    assert_eq!(hex8_bytes(0x1_2345_6789), b"123456789".to_vec());
    assert_eq!(hex_pad_bytes(0xab, 16), b"00000000000000ab".to_vec());
    assert_eq!(hex_pad_bytes(0, 0), b"0".to_vec());
}

#[test]
fn reference_texts() {
    assert_eq!(epr_ref_text(EprRef { pos: 0x10, off: 0x2000 }), b"00000010=00002000".to_vec());
    assert_eq!(
        snd_ref_text(SndRef { pos: 1, off: 2, id: 3 }),
        b"00000001=0000000000000002_00000003".to_vec()
    );
}

#[test]
fn file_names_by_group() {
    let (h, t) = sample(create_file_name(&names(&["a"]), false, 0x10, b"wav", Some(0)));
    assert_eq!(h, b"sta/wav/[a]_pit".to_vec());
    assert_eq!(t, b"_00000010.wav".to_vec());
    let (h, _) = sample(create_file_name(&names(&["a"]), true, 0x10, b"wav", Some(2)));
    assert_eq!(h, b"sta/3/wav/[a]_pit".to_vec());
    let (h, _) = sample(create_file_name(&names(&["a"]), true, 0x10, b"wav", None));
    assert_eq!(h, b"sta/wav/[a]_pit".to_vec());
    let (h, t) = sample(create_file_name(&names(&["a", "b"]), false, 1, b"lab", None));
    assert_eq!(h, b"art/lab/[a b]_pit".to_vec());
    assert_eq!(t, b"_00000001.lab".to_vec());
    let (h, _) = sample(create_file_name(&names(&["a", "b*", "Sil"]), false, 1, b"seg", None));
    assert_eq!(h, "tri/wav/[a b\u{2022} sil]_pit".as_bytes().to_vec());
    let (h, _) = sample(create_file_name(&names(&["growl"]), false, 1, b"wav", None));
    assert_eq!(h, b"growl/wav/[growl]_pit".to_vec());
    match create_file_name(&names(&[]), true, 0xabc, b"wav", None) {
        FileName::Unknown(v) => assert_eq!(v, b"unknown_00000abc.wav".to_vec()),
        _ => panic!("grouped"),
    }
}

#[test]
fn triphone_phoneme_lists() {
    assert_eq!(drop_first_caret_exec(b"^a^b"), b"a^b".to_vec());
    assert_eq!(drop_first_caret_exec(b"ab"), b"ab".to_vec());
    assert_eq!(lab_phoneme_list(&names(&["a", "^b", "c"])), names(&["a", "b", "b", "c"]));
    assert_eq!(seg_phoneme_list(&names(&["a", "^b", "c"])), names(&["a", "b", "c"]));
    assert_eq!(lab_phoneme_list(&names(&["a", "^b"])), names(&["a", "^b"]));
    assert_eq!(seg_phoneme_list(&names(&["x"])), names(&["x"]));
}

#[test]
fn transcription_text() {
    assert_eq!(generate_transcription(&names(&["a", "b"])), b"a b\n[a b]".to_vec());
    assert_eq!(generate_transcription(&names(&["k"])), b"k\n[k]".to_vec());
    assert_eq!(generate_transcription(&names(&[])), b"\n[]".to_vec());
}

#[test]
fn voicing_of_articulations() {
    let unvoiced = names(&["k"]);
    assert_eq!(voiced_list(&names(&["a", "Sil", "k"]), &unvoiced), vec![true, false, false, false]);
    assert_eq!(voiced_list(&names(&["a", "Asp"]), &unvoiced), vec![true, false]);
    assert_eq!(voiced_list(&names(&["?", "e"]), &unvoiced), vec![false, true]);
}
