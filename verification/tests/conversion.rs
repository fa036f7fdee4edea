use sdfconv::convert::{convert_lines, ConvError, Converter};

const CELLS: usize = 1200 * 1200;
const OUT_LEN: usize = 2 * (CELLS + 2);

fn header() -> Vec<Vec<u8>> {
    vec![
        b"some header".to_vec(),
        b"1200 1200".to_vec(),
        b"not validated at all \x01\x02".to_vec(),
        b"".to_vec(),
    ]
}

fn lines_with_samples(samples: &[i16]) -> Vec<Vec<u8>> {
    let mut lines = header();
    for v in samples {
        lines.push(format!("{}", v).into_bytes());
    }
    lines
}

/// The word at index `j` of the output, little endian.
fn word_at(bytes: &[u8], j: usize) -> i16 {
    i16::from_le_bytes([bytes[2 * j], bytes[2 * j + 1]])
}

/// Buffer position of data line `k`: column-major fill order.
fn cell(k: usize) -> usize {
    (k % 1200) * 1200 + k / 1200
}

#[test]
fn full_valid_input_has_fixed_output_size() {
    let mut lines = header();
    for _ in 0..CELLS {
        lines.push(b"0".to_vec());
    }
    let out = convert_lines(&lines).unwrap();
    assert_eq!(out.len(), OUT_LEN);
    assert_eq!(out.len(), 2_880_004);
}

#[test]
fn first_sample_and_trailer() {
    // the first data line is 100, the remaining 1,439,999 are 0
    let mut lines = header();
    lines.push(b"100".to_vec());
    for _ in 1..CELLS {
        lines.push(b"0".to_vec());
    }
    let out = convert_lines(&lines).unwrap();
    assert_eq!(word_at(&out, 0), 100);
    assert_eq!(word_at(&out, CELLS), 0); // minimum
    assert_eq!(word_at(&out, CELLS + 1), 100); // maximum
}

#[test]
fn round_trip_is_exact() {
    let mut lines = header();
    let mut samples: Vec<i16> = Vec::with_capacity(CELLS);
    for k in 0..CELLS {
        let v = ((k.wrapping_mul(2654435761) >> 7) & 0xffff) as u16 as i16;
        samples.push(v);
        lines.push(format!("{}", v).into_bytes());
    }
    let out = convert_lines(&lines).unwrap();
    assert_eq!(out.len(), OUT_LEN);
    for k in 0..CELLS {
        assert_eq!(word_at(&out, cell(k)), samples[k]);
    }
}

#[test]
fn all_equal_values_give_equal_min_and_max() {
    let mut lines = header();
    for _ in 0..CELLS {
        lines.push(b"7".to_vec());
    }
    let out = convert_lines(&lines).unwrap();
    assert_eq!(word_at(&out, CELLS), 7);
    assert_eq!(word_at(&out, CELLS + 1), 7);
}

#[test]
fn non_integer_line_fails_with_parse_error() {
    let mut lines = header();
    for _ in 0..10 {
        lines.push(b"5".to_vec());
    }
    lines.push(b"abc".to_vec());
    lines.push(b"5".to_vec());
    match convert_lines(&lines) {
        Err(ConvError::Parse { line_no, text }) => {
            // the offending line is the 11th data line: source line 15
            assert_eq!(line_no, 15);
            assert_eq!(text, b"abc".to_vec());
        }
        other => panic!("expected a parse error, got {:?}", other.map(|v| v.len())),
    }
}

#[test]
fn short_input_pads_with_zero() {
    let lines = lines_with_samples(&[3, 1, 4, 1, 5]);
    let out = convert_lines(&lines).unwrap();
    assert_eq!(out.len(), OUT_LEN);
    for (k, v) in [3i16, 1, 4, 1, 5].iter().enumerate() {
        assert_eq!(word_at(&out, cell(k)), *v);
    }
    // an unfilled cell keeps the default value
    assert_eq!(word_at(&out, 1), 0);
    assert_eq!(word_at(&out, CELLS - 1), 0);
    assert_eq!(word_at(&out, CELLS), 1); // minimum
    assert_eq!(word_at(&out, CELLS + 1), 5); // maximum
}

#[test]
fn negative_samples_round_trip() {
    let lines = lines_with_samples(&[-32768, 32767, -1, 0]);
    let out = convert_lines(&lines).unwrap();
    assert_eq!(word_at(&out, cell(0)), -32768);
    assert_eq!(word_at(&out, cell(1)), 32767);
    assert_eq!(word_at(&out, cell(2)), -1);
    assert_eq!(word_at(&out, cell(3)), 0);
    assert_eq!(word_at(&out, CELLS), -32768);
    assert_eq!(word_at(&out, CELLS + 1), 32767);
}

#[test]
fn empty_data_gives_inverted_sentinels() {
    let lines = header();
    let out = convert_lines(&lines).unwrap();
    assert_eq!(out.len(), OUT_LEN);
    assert_eq!(word_at(&out, CELLS), i16::MAX);
    assert_eq!(word_at(&out, CELLS + 1), i16::MIN);
}

#[test]
fn too_many_data_lines_fail() {
    let mut lines = header();
    for _ in 0..CELLS + 1 {
        lines.push(b"0".to_vec());
    }
    match convert_lines(&lines) {
        Err(ConvError::TooManySamples) => {}
        other => panic!("expected TooManySamples, got {:?}", other.map(|v| v.len())),
    }
}

#[test]
fn header_lines_are_not_validated() {
    // even a header line that would not parse as an integer is skipped
    let mut lines = vec![
        b"@@@@".to_vec(),
        b"-".to_vec(),
        b"12345678901234567890".to_vec(),
        b"x".to_vec(),
    ];
    lines.push(b"42".to_vec());
    let out = convert_lines(&lines).unwrap();
    assert_eq!(word_at(&out, 0), 42);
    assert_eq!(word_at(&out, CELLS), 42);
    assert_eq!(word_at(&out, CELLS + 1), 42);
}

#[test]
fn incremental_converter_matches_one_shot() {
    let lines = lines_with_samples(&[9, -9, 100]);
    let mut conv = Converter::new();
    for line in &lines {
        conv.push_line(line).unwrap();
    }
    let streamed = conv.finish();
    let one_shot = convert_lines(&lines).unwrap();
    assert_eq!(streamed, one_shot);
}

#[test]
fn push_line_reports_position_and_leaves_state() {
    let mut conv = Converter::new();
    for line in header() {
        conv.push_line(&line).unwrap();
    }
    conv.push_line(b"1").unwrap();
    let err = conv.push_line(b"not a number").unwrap_err();
    match err {
        ConvError::Parse { line_no, text } => {
            assert_eq!(line_no, 6);
            assert_eq!(text, b"not a number".to_vec());
        }
        ConvError::TooManySamples => panic!("wrong error kind"),
    }
    // the failed line left the converter unchanged: finishing still works
    let out = conv.finish();
    assert_eq!(out.len(), OUT_LEN);
    assert_eq!(word_at(&out, 0), 1);
    assert_eq!(word_at(&out, CELLS), 1);
    assert_eq!(word_at(&out, CELLS + 1), 1);
}
