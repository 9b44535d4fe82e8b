use minicraft::chunk::CH;
use minicraft::storage::{parse, serialize, SaveData};

fn find_edit(edits: &[(i32, i32, i32, u8)], x: i32, y: i32, z: i32) -> Option<u8> {
    edits.iter().rev().find(|e| (e.0, e.1, e.2) == (x, y, z)).map(|e| e.3)
}

#[test]
fn save_roundtrip() {
    let d = SaveData {
        seed: 42,
        pos_x: format!("{}", 1.5f32),
        pos_y: format!("{}", 64.25f32),
        pos_z: format!("{}", -8.0f32),
        yaw: format!("{}", 0.7f32),
        pitch: format!("{}", -0.2f32),
        fly: true,
        run_mode: false,
        edits: vec![(5, 40, -3, 12u8), (-100, 2, 7, 0u8)],
    };
    let p = parse(&serialize(&d)).unwrap();
    assert_eq!(p.seed, d.seed);
    assert_eq!(p.pos_x.parse::<f32>().unwrap(), 1.5f32);
    assert_eq!(p.pos_y.parse::<f32>().unwrap(), 64.25f32);
    assert_eq!(p.pos_z.parse::<f32>().unwrap(), -8.0f32);
    assert_eq!(p.yaw.parse::<f32>().unwrap(), 0.7f32);
    assert_eq!(p.pitch.parse::<f32>().unwrap(), -0.2f32);
    assert_eq!(p.fly, d.fly);
    assert_eq!(p.run_mode, d.run_mode);
    assert_eq!(p.edits, d.edits);
}

#[test]
fn parse_rejects_garbage() {
    assert!(parse("").is_none());
    assert!(parse("XX 1").is_none());
    assert!(parse("MC1 1\n0 0 0 0 0 0 0\n1 2 3").is_none());
}

#[test]
fn parse_skips_out_of_range_rows() {
    let s = format!("MC1 1\n0 0 0 0 0 0 0\n1 {CH} 1 3\n2 -5 2 3\n3 40 3 200\n4 40 4 10\n");
    let p = parse(&s).unwrap();
    assert_eq!(p.edits.len(), 1);
    assert_eq!(find_edit(&p.edits, 4, 40, 4), Some(10u8));
}

#[test]
fn serialize_writes_the_documented_lines() {
    let d = SaveData {
        seed: 7,
        pos_x: "1".to_string(),
        pos_y: "2.5".to_string(),
        pos_z: "-3".to_string(),
        yaw: "0".to_string(),
        pitch: "0.25".to_string(),
        fly: false,
        run_mode: true,
        edits: vec![(-1, 0, 2147483647, 16), (i32::MIN, 95, 0, 0)],
    };
    assert_eq!(
        serialize(&d),
        "MC1 7\n1 2.5 -3 0 0.25 0 1\n-1 0 2147483647 16\n-2147483648 95 0 0\n"
    );
}

#[test]
fn parse_reads_any_white_space_and_signs() {
    let p = parse("  MC1\t4294967295\r\n+1 2 3 4 5 1 0\u{3000}-7 +8 9 255\n").unwrap();
    assert_eq!(p.seed, 4294967295);
    assert_eq!(p.pos_x, "+1");
    assert!(p.fly);
    assert!(!p.run_mode);
    // block id 255 names no block: the row is left out
    assert!(p.edits.is_empty());
    let p = parse("MC1 0 a b c d e yes 1 -7 +8 9 +16").unwrap();
    assert!(!p.fly);
    assert!(p.run_mode);
    assert_eq!(p.edits, vec![(-7, 8, 9, 16)]);
}

#[test]
fn parse_rejects_bad_numbers() {
    // seed out of range, negative seed, signs without digits
    assert!(parse("MC1 4294967296 0 0 0 0 0 0 0").is_none());
    assert!(parse("MC1 -1 0 0 0 0 0 0 0").is_none());
    assert!(parse("MC1 + 0 0 0 0 0 0 0").is_none());
    // too few header tokens
    assert!(parse("MC1 1 0 0 0 0 0 0").is_none());
    // a row value that is not an integer or is out of range
    assert!(parse("MC1 1 0 0 0 0 0 0 0 1 2 x 3").is_none());
    assert!(parse("MC1 1 0 0 0 0 0 0 0 1 2 3 -3").is_none());
    assert!(parse("MC1 1 0 0 0 0 0 0 0 2147483648 2 3 3").is_none());
    assert!(parse("MC1 1 0 0 0 0 0 0 0 1 2 3 256").is_none());
    // wrong magic
    assert!(parse("mc1 1 0 0 0 0 0 0 0").is_none());
}

#[test]
fn later_rows_come_after_earlier_ones() {
    let p = parse("MC1 1 0 0 0 0 0 0 0 1 2 3 4 1 2 3 5").unwrap();
    assert_eq!(p.edits, vec![(1, 2, 3, 4), (1, 2, 3, 5)]);
    assert_eq!(find_edit(&p.edits, 1, 2, 3), Some(5));
}

#[test]
fn wav_container_around_pcm_samples() {
    let w = minicraft::wav::wav_bytes(&[0i16, -1, 256, -32768], 22050);
    assert_eq!(w.len(), 44 + 8);
    assert_eq!(&w[0..4], b"RIFF");
    assert_eq!(&w[4..8], &(36u32 + 8).to_le_bytes());
    assert_eq!(&w[8..16], b"WAVEfmt ");
    assert_eq!(&w[16..20], &16u32.to_le_bytes());
    assert_eq!(&w[20..24], &[1, 0, 1, 0]);
    assert_eq!(&w[24..28], &22050u32.to_le_bytes());
    assert_eq!(&w[28..32], &44100u32.to_le_bytes());
    assert_eq!(&w[32..36], &[2, 0, 16, 0]);
    assert_eq!(&w[36..40], b"data");
    assert_eq!(&w[40..44], &8u32.to_le_bytes());
    assert_eq!(&w[44..], &[0, 0, 0xff, 0xff, 0, 1, 0, 0x80]);
}
