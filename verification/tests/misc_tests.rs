use bench_cases::compression::{self, DeflateStatus};
use bench_cases::json_parse::{self, count_nodes, count_nodes_checked, JsonValue};
use bench_cases::mandelbrot::{self, store_row, MAX_ITER};
use bench_cases::matrix_mul::transpose;
use bench_cases::spectralnorm::matrix_denominator;

#[test]
fn compression_of_zeros_saves_most_bytes() {
    let mut data = compression::setup(4096);
    let status = compression::run(&mut data);
    assert_eq!(status, DeflateStatus::Done);
    let saved = data.len_compressed();
    assert!(saved > 4000 && saved < 4096);
}

#[test]
fn compression_written_matches_the_crate() {
    let mut data = compression::setup(1000);
    for (i, b) in data.input().iter_mut().enumerate() {
        *b = (i % 7) as u8 + b'a';
    }
    let input: Vec<u8> = data.input().to_vec();
    assert_eq!(compression::run(&mut data), DeflateStatus::Done);
    let flags = miniz_oxide::deflate::core::create_comp_flags_from_zip_params(6, 0, 0);
    let mut c = miniz_oxide::deflate::core::CompressorOxide::new(flags);
    let mut out = vec![0u8; 1000 + 1000 / 16 + 64];
    let (_, _, written) = miniz_oxide::deflate::core::compress(
        &mut c,
        &input,
        &mut out,
        miniz_oxide::deflate::core::TDEFLFlush::Finish,
    );
    assert_eq!(data.len_compressed(), 1000 - written);
    assert_eq!(data.bytes_written(), written);
    let decoded = miniz_oxide::inflate::decompress_to_vec(&out[..written]).unwrap();
    assert_eq!(decoded, input);
    // A second run on the reset compressor gives the same length.
    assert_eq!(compression::run(&mut data), DeflateStatus::Done);
    assert_eq!(data.len_compressed(), 1000 - written);
}

#[test]
fn compression_of_empty_input() {
    let mut data = compression::setup(0);
    assert_eq!(compression::run(&mut data), DeflateStatus::Done);
}

fn num(s: &str) -> JsonValue {
    JsonValue::Number(s.to_string())
}

#[test]
fn counts_json_nodes() {
    let doc = JsonValue::Array(vec![
        num("1"),
        JsonValue::Object(vec![
            ("a".to_string(), JsonValue::Null),
            ("b".to_string(), JsonValue::Array(vec![JsonValue::Bool(true)])),
        ]),
    ]);
    assert_eq!(count_nodes(&doc), 6);
    assert_eq!(count_nodes(&JsonValue::Null), 1);
    assert_eq!(count_nodes(&JsonValue::String("x".to_string())), 1);
    assert_eq!(count_nodes(&JsonValue::Array(vec![])), 1);
    assert_eq!(count_nodes(&JsonValue::Object(vec![])), 1);
}

#[test]
fn json_state_keeps_the_document() {
    let mut data = json_parse::setup(4);
    assert_eq!(json_parse::node_count(&data), 1);
    data.input_mut().copy_from_slice(b"[1 ]");
    assert_eq!(data.input(), b"[1 ]");
    assert!(json_parse::run(&mut data));
    assert_eq!(json_parse::node_count(&data), 2);
    assert_eq!(json_parse::node_count_checked(&data), Some(2));
}

#[test]
fn json_run_parses_the_input() {
    let doc = br#"{"b": [true, null, 1.5], "a": {"x": "y"}}"#;
    let mut data = json_parse::setup(doc.len());
    data.input_mut().copy_from_slice(doc);
    assert!(json_parse::run(&mut data));
    // object, array with three scalars, object with one string
    assert_eq!(json_parse::node_count(&data), 7);
}

#[test]
fn json_run_rejects_invalid_input_and_keeps_the_document() {
    let mut data = json_parse::setup(3);
    data.input_mut().copy_from_slice(b"[1]");
    assert!(json_parse::run(&mut data));
    data.input_mut().copy_from_slice(b"[1,");
    assert!(!json_parse::run(&mut data));
    assert_eq!(json_parse::node_count(&data), 2);
}

#[test]
fn checked_count_matches_count() {
    let doc = JsonValue::Object(vec![("k".to_string(), JsonValue::Array(vec![JsonValue::Null, JsonValue::Null, JsonValue::Null, JsonValue::Null, JsonValue::Null]))]);
    assert_eq!(count_nodes_checked(&doc), Some(count_nodes(&doc)));
    assert_eq!(count_nodes(&doc), 7);
}

#[test]
fn mandelbrot_rows_and_sum() {
    let mut data = mandelbrot::setup(3);
    assert_eq!(data.size(), 3);
    assert_eq!(mandelbrot::output(&data), 0);
    store_row(&mut data, 1, &[1, 2, 3]);
    store_row(&mut data, 2, &[MAX_ITER, 0, 5]);
    assert_eq!(mandelbrot::output(&data), 1 + 2 + 3 + 1000 + 5);
    store_row(&mut data, 1, &[0, 0, 0]);
    assert_eq!(mandelbrot::output(&data), 1005);
}

#[test]
fn transposes_square_matrices() {
    let src = [1, 2, 3, 4, 5, 6, 7, 8, 9];
    let mut dst = [0; 9];
    transpose(&src, &mut dst, 3);
    assert_eq!(dst, [1, 4, 7, 2, 5, 8, 3, 6, 9]);
    let mut back = [0; 9];
    transpose(&dst, &mut back, 3);
    assert_eq!(back, src);
    let empty: [u8; 0] = [];
    let mut out: [u8; 0] = [];
    transpose(&empty, &mut out, 0);
}

#[test]
fn spectral_denominators() {
    assert_eq!(matrix_denominator(0, 0), 1);
    assert_eq!(matrix_denominator(0, 1), 2);
    assert_eq!(matrix_denominator(1, 0), 3);
    assert_eq!(matrix_denominator(2, 3), 18);
    assert_eq!(matrix_denominator(100_000, 100_000), 20_000_100_000 + 100_001);
}

#[test]
fn record_run_keeps_what_was_reported() {
    let mut data = compression::setup(100);
    let status = compression::record_run(&mut data, (DeflateStatus::PutBufFailed, 3, 40));
    assert_eq!(status, DeflateStatus::PutBufFailed);
    assert_eq!(data.bytes_written(), 40);
    assert_eq!(data.len_compressed(), 60);
}
