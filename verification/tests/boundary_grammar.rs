use uclient::boundary::multipart_boundary;
use uclient::header::Header;

fn headers_with_ct(value: &str) -> Vec<Header> {
    vec![
        Header { name: b"X-Extra".to_vec(), value: b"1".to_vec() },
        Header { name: b"Content-Type".to_vec(), value: value.as_bytes().to_vec() },
    ]
}

#[test]
fn plain_boundary_parameter() {
    let hs = headers_with_ct("multipart/form-data; boundary=XYZ");
    assert_eq!(multipart_boundary(&hs), Some(b"XYZ".to_vec()));
}

#[test]
fn quoted_boundary_parameter() {
    let hs = headers_with_ct("multipart/mixed; boundary=\"compound boundary\"");
    assert_eq!(multipart_boundary(&hs), Some(b"compound boundary".to_vec()));
}

#[test]
fn boundary_after_other_parameters() {
    let hs = headers_with_ct("multipart/related; charset=utf-8; boundary=abc; type=text");
    assert_eq!(multipart_boundary(&hs), Some(b"abc".to_vec()));
}

#[test]
fn names_match_up_to_ascii_case() {
    let hs = vec![Header {
        name: b"CONTENT-TYPE".to_vec(),
        value: b"Multipart/Mixed; BOUNDARY=q1w2".to_vec(),
    }];
    assert_eq!(multipart_boundary(&hs), Some(b"q1w2".to_vec()));
}

#[test]
fn blanks_around_pieces_are_trimmed() {
    let hs = headers_with_ct("  multipart/mixed ;  boundary = abc  ");
    assert_eq!(multipart_boundary(&hs), Some(b"abc".to_vec()));
}

#[test]
fn missing_boundary_parameter() {
    let hs = headers_with_ct("multipart/mixed; charset=utf-8");
    assert_eq!(multipart_boundary(&hs), None);
}

#[test]
fn non_multipart_type_has_no_boundary() {
    let hs = headers_with_ct("text/plain; boundary=XYZ");
    assert_eq!(multipart_boundary(&hs), None);
}

#[test]
fn empty_boundary_counts_as_absent() {
    assert_eq!(multipart_boundary(&headers_with_ct("multipart/mixed; boundary=")), None);
    assert_eq!(multipart_boundary(&headers_with_ct("multipart/mixed; boundary=\"\"")), None);
}

#[test]
fn no_content_type_header() {
    let hs = vec![Header { name: b"X-Extra".to_vec(), value: b"1".to_vec() }];
    assert_eq!(multipart_boundary(&hs), None);
}

#[test]
fn first_content_type_header_wins() {
    let hs = vec![
        Header { name: b"Content-Type".to_vec(), value: b"multipart/mixed; boundary=one".to_vec() },
        Header { name: b"Content-Type".to_vec(), value: b"multipart/mixed; boundary=two".to_vec() },
    ];
    assert_eq!(multipart_boundary(&hs), Some(b"one".to_vec()));
}
