use point_cloud::model::{PointRecord, PropValue, ReadError, VertexField};
use point_cloud::reader::load_point_cloud;

fn ascii_header(count: usize) -> String {
    let mut h = String::new();
    h.push_str("ply\n");
    h.push_str("format ascii 1.0\n");
    h.push_str(&format!("element vertex {}\n", count));
    h.push_str("property float x\n");
    h.push_str("property float y\n");
    h.push_str("property float z\n");
    h.push_str("property float nx\n");
    h.push_str("property float ny\n");
    h.push_str("property float nz\n");
    h.push_str("property uchar red\n");
    h.push_str("property uchar green\n");
    h.push_str("property uchar blue\n");
    h.push_str("end_header\n");
    h
}

#[test]
fn ascii_round_trip_count() {
    let mut text = ascii_header(3);
    text.push_str("1.0 2.0 3.0 0.0 0.0 1.0 255 0 0\n");
    text.push_str("4.5 -2.25 0.5 0.0 1.0 0.0 0 128 0\n");
    text.push_str("0 0 0 1 0 0 1 2 3\n");
    let recs = load_point_cloud(&text.into_bytes()).unwrap();
    assert_eq!(recs.len(), 3);
}

#[test]
fn ascii_schema_fidelity_row0() {
    let mut text = ascii_header(2);
    text.push_str("1.0 2.0 3.0 0.0 0.0 1.0 255 0 0\n");
    text.push_str("4.5 -2.25 0.5 0.0 1.0 0.0 0 128 7\n");
    let recs = load_point_cloud(&text.into_bytes()).unwrap();
    let r0 = recs[0];
    assert_eq!(r0.x, 1.0f32.to_bits());
    assert_eq!(r0.y, 2.0f32.to_bits());
    assert_eq!(r0.z, 3.0f32.to_bits());
    assert_eq!(r0.nx, 0.0f32.to_bits());
    assert_eq!(r0.ny, 0.0f32.to_bits());
    assert_eq!(r0.nz, 1.0f32.to_bits());
    assert_eq!((r0.red, r0.green, r0.blue), (255, 0, 0));
    let r1 = recs[1];
    assert_eq!(r1.x, 4.5f32.to_bits());
    assert_eq!(r1.y, (-2.25f32).to_bits());
    assert_eq!(r1.z, 0.5f32.to_bits());
    assert_eq!((r1.red, r1.green, r1.blue), (0, 128, 7));
}

#[test]
fn unknown_property_is_fatal() {
    let text = "ply\nformat ascii 1.0\nelement vertex 0\nproperty float intensity\nend_header\n";
    let r = load_point_cloud(&text.as_bytes().to_vec());
    assert_eq!(r.unwrap_err(), ReadError::UnexpectedProperty);
}

#[test]
fn wrong_type_for_known_name_is_fatal() {
    let text = "ply\nformat ascii 1.0\nelement vertex 1\nproperty double x\nend_header\n0.5\n";
    let r = load_point_cloud(&text.as_bytes().to_vec());
    assert_eq!(r.unwrap_err(), ReadError::UnexpectedProperty);
}

#[test]
fn unsupported_element_is_fatal() {
    let text = "ply\nformat ascii 1.0\nelement face 1\nproperty float x\nend_header\n1.0\n";
    let r = load_point_cloud(&text.as_bytes().to_vec());
    assert_eq!(r.unwrap_err(), ReadError::UnsupportedElement);
}

#[test]
fn missing_magic_is_malformed() {
    let text = "plyx\nformat ascii 1.0\nend_header\n";
    let r = load_point_cloud(&text.as_bytes().to_vec());
    assert_eq!(r.unwrap_err(), ReadError::MalformedHeader);
}

#[test]
fn unrecognized_declaration_is_malformed() {
    let text = "ply\nformat ascii 1.0\nelement vertex 0\nwhatever 1 2\nend_header\n";
    let r = load_point_cloud(&text.as_bytes().to_vec());
    assert_eq!(r.unwrap_err(), ReadError::MalformedHeader);
}

#[test]
fn missing_format_line_is_malformed() {
    let text = "ply\nelement vertex 0\nend_header\n";
    let r = load_point_cloud(&text.as_bytes().to_vec());
    assert_eq!(r.unwrap_err(), ReadError::MalformedHeader);
}

#[test]
fn property_before_element_is_malformed() {
    let text = "ply\nformat ascii 1.0\nproperty float x\nend_header\n";
    let r = load_point_cloud(&text.as_bytes().to_vec());
    assert_eq!(r.unwrap_err(), ReadError::MalformedHeader);
}

#[test]
fn bad_token_is_malformed_payload() {
    let text = "ply\nformat ascii 1.0\nelement vertex 1\nproperty float x\nend_header\nabc\n";
    let r = load_point_cloud(&text.as_bytes().to_vec());
    assert_eq!(r.unwrap_err(), ReadError::MalformedPayload);
}

#[test]
fn short_row_is_malformed_payload() {
    let mut text = ascii_header(1);
    text.push_str("1.0 2.0 3.0\n");
    let r = load_point_cloud(&text.into_bytes());
    assert_eq!(r.unwrap_err(), ReadError::MalformedPayload);
}

#[test]
fn missing_row_is_malformed_payload() {
    let text = ascii_header(2).into_bytes();
    let mut with_one = text.clone();
    with_one.extend_from_slice(b"1.0 2.0 3.0 0.0 0.0 1.0 1 2 3\n");
    let r = load_point_cloud(&with_one);
    assert_eq!(r.unwrap_err(), ReadError::MalformedPayload);
}

#[test]
fn subset_schema_defaults_to_zero() {
    let text = "ply\nformat ascii 1.0\nelement vertex 1\nproperty float x\nend_header\n7.25\n";
    let recs = load_point_cloud(&text.as_bytes().to_vec()).unwrap();
    assert_eq!(recs[0].x, 7.25f32.to_bits());
    assert_eq!(recs[0].y, 0);
    assert_eq!(recs[0].nz, 0);
    assert_eq!(recs[0].blue, 0);
}

#[test]
fn crlf_lines_are_accepted() {
    let text = "ply\r\nformat ascii 1.0\r\nelement vertex 1\r\nproperty float x\r\nproperty uchar red\r\nend_header\r\n3.5 200\r\n";
    let recs = load_point_cloud(&text.as_bytes().to_vec()).unwrap();
    assert_eq!(recs.len(), 1);
    assert_eq!(recs[0].x, 3.5f32.to_bits());
    assert_eq!(recs[0].red, 200);
}

#[test]
fn comments_are_skipped() {
    let text = "ply\nformat ascii 1.0\ncomment made somewhere\nobj_info extra\nelement vertex 1\nproperty uchar red\nend_header\n9\n";
    let recs = load_point_cloud(&text.as_bytes().to_vec()).unwrap();
    assert_eq!(recs[0].red, 9);
}

fn binary_header(encoding: &str, count: usize) -> Vec<u8> {
    let mut h = String::new();
    h.push_str("ply\n");
    h.push_str(&format!("format {} 1.0\n", encoding));
    h.push_str(&format!("element vertex {}\n", count));
    for p in ["x", "y", "z", "nx", "ny", "nz"] {
        h.push_str(&format!("property float {}\n", p));
    }
    for p in ["red", "green", "blue"] {
        h.push_str(&format!("property uchar {}\n", p));
    }
    h.push_str("end_header\n");
    h.into_bytes()
}

#[test]
fn binary_little_endian_row() {
    let mut data = binary_header("binary_little_endian", 1);
    for v in [1.5f32, -2.0, 0.25, 0.0, 1.0, 0.0] {
        data.extend_from_slice(&v.to_le_bytes());
    }
    data.extend_from_slice(&[10, 20, 30]);
    let recs = load_point_cloud(&data).unwrap();
    assert_eq!(recs.len(), 1);
    assert_eq!(recs[0].x, 1.5f32.to_bits());
    assert_eq!(recs[0].y, (-2.0f32).to_bits());
    assert_eq!(recs[0].z, 0.25f32.to_bits());
    assert_eq!(recs[0].ny, 1.0f32.to_bits());
    assert_eq!((recs[0].red, recs[0].green, recs[0].blue), (10, 20, 30));
}

#[test]
fn binary_big_endian_row() {
    let mut data = binary_header("binary_big_endian", 1);
    for v in [1.5f32, -2.0, 0.25, 0.0, 1.0, 0.0] {
        data.extend_from_slice(&v.to_be_bytes());
    }
    data.extend_from_slice(&[10, 20, 30]);
    let recs = load_point_cloud(&data).unwrap();
    assert_eq!(recs[0].x, 1.5f32.to_bits());
    assert_eq!(recs[0].y, (-2.0f32).to_bits());
    assert_eq!((recs[0].red, recs[0].green, recs[0].blue), (10, 20, 30));
}

#[test]
fn truncated_binary_payload_is_malformed() {
    let mut data = binary_header("binary_little_endian", 2);
    for v in [1.5f32, -2.0, 0.25, 0.0, 1.0, 0.0] {
        data.extend_from_slice(&v.to_le_bytes());
    }
    data.extend_from_slice(&[10, 20, 30]);
    let r = load_point_cloud(&data);
    assert_eq!(r.unwrap_err(), ReadError::MalformedPayload);
}

#[test]
fn zero_count_loads_empty() {
    let text = ascii_header(0);
    let recs = load_point_cloud(&text.into_bytes()).unwrap();
    assert_eq!(recs.len(), 0);
}

#[test]
fn set_property_dispatches_by_field() {
    let mut r = PointRecord::new();
    assert!(r.set_property(VertexField::X, PropValue::Float(1.25f32.to_bits())));
    assert!(r.set_property(VertexField::Red, PropValue::UChar(77)));
    assert_eq!(r.x, 1.25f32.to_bits());
    assert_eq!(r.red, 77);
    let before = r;
    assert!(!r.set_property(VertexField::X, PropValue::UChar(1)));
    assert_eq!(r, before);
}

#[test]
fn duplicate_property_last_wins() {
    let text = "ply\nformat ascii 1.0\nelement vertex 1\nproperty float x\nproperty float x\nend_header\n1.0 2.0\n";
    let recs = load_point_cloud(&text.as_bytes().to_vec()).unwrap();
    assert_eq!(recs[0].x, 2.0f32.to_bits());
}

#[test]
fn second_format_line_is_malformed() {
    let text = "ply\nformat ascii 1.0\nformat ascii 1.0\nelement vertex 0\nend_header\n";
    let r = load_point_cloud(&text.as_bytes().to_vec());
    assert_eq!(r.unwrap_err(), ReadError::MalformedHeader);
}

#[test]
fn second_vertex_block_replaces_first() {
    let text = "ply\nformat ascii 1.0\nelement vertex 1\nproperty uchar red\nelement vertex 2\nproperty uchar green\nend_header\n5\n6\n7\n";
    let recs = load_point_cloud(&text.as_bytes().to_vec()).unwrap();
    assert_eq!(recs.len(), 2);
    assert_eq!(recs[0].green, 6);
    assert_eq!(recs[1].green, 7);
    assert_eq!(recs[0].red, 0);
}

#[test]
fn repeated_spaces_between_tokens() {
    let text = "ply\nformat ascii 1.0\nelement vertex 1\nproperty float x\nproperty uchar red\nend_header\n  1.5\t 42 \n";
    let recs = load_point_cloud(&text.as_bytes().to_vec()).unwrap();
    assert_eq!(recs[0].x, 1.5f32.to_bits());
    assert_eq!(recs[0].red, 42);
}

#[test]
fn extra_token_in_row_is_malformed() {
    let text = "ply\nformat ascii 1.0\nelement vertex 1\nproperty float x\nend_header\n1.0 2.0\n";
    let r = load_point_cloud(&text.as_bytes().to_vec());
    assert_eq!(r.unwrap_err(), ReadError::MalformedPayload);
}

#[test]
fn overlong_channel_value_is_malformed() {
    let text = "ply\nformat ascii 1.0\nelement vertex 1\nproperty uchar red\nend_header\n256\n";
    let r = load_point_cloud(&text.as_bytes().to_vec());
    assert_eq!(r.unwrap_err(), ReadError::MalformedPayload);
}

#[test]
fn negative_exponent_float_token() {
    let text = "ply\nformat ascii 1.0\nelement vertex 1\nproperty float x\nend_header\n-1.25e-2\n";
    let recs = load_point_cloud(&text.as_bytes().to_vec()).unwrap();
    assert_eq!(recs[0].x, (-1.25e-2f32).to_bits());
}
