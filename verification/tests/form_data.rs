use std::io::Cursor;

use uclient::form::FormData;
use uclient::header::Header;
use uclient::node::{FileLen, FilePart, MultipartNode};
use uclient::stream::Segment;
use uclient::Error;

fn header_pair(h: &Header) -> (String, String) {
    (
        String::from_utf8(h.name.clone()).unwrap(),
        String::from_utf8(h.value.clone()).unwrap(),
    )
}

#[test]
fn field_becomes_text_plain_part() {
    let mut fd = FormData::new();
    fd.fields.push(("title".to_string(), "hello".to_string()));
    let nodes = fd.to_multipart().expect("nodes");
    assert_eq!(nodes.len(), 1);
    match &nodes[0] {
        MultipartNode::Part(p) => {
            let hs: Vec<(String, String)> = p.headers.iter().map(header_pair).collect();
            assert_eq!(hs[0], ("Content-Type".to_string(), "text/plain".to_string()));
            assert_eq!(
                hs[1],
                ("Content-Disposition".to_string(), "form-data; name=\"title\"".to_string()),
            );
            assert_eq!(p.body, b"hello".to_vec());
        },
        _ => panic!("expected a part"),
    }
}

#[test]
fn file_gets_disposition_and_guessed_type() {
    let mut fd = FormData::new();
    fd.files.push((
        "avatar".to_string(),
        FilePart {
            headers: vec![Header { name: b"X-Tag".to_vec(), value: b"7".to_vec() }],
            path: "pics/photo.png".to_string(),
            size: Some(3),
        },
    ));
    let nodes = fd.to_multipart().expect("nodes");
    assert_eq!(nodes.len(), 1);
    match &nodes[0] {
        MultipartNode::File(g) => {
            assert_eq!(g.path, "pics/photo.png");
            assert_eq!(g.size, Some(3));
            let hs: Vec<(String, String)> = g.headers.iter().map(header_pair).collect();
            assert_eq!(hs[0], ("X-Tag".to_string(), "7".to_string()));
            assert_eq!(
                hs[1],
                (
                    "Content-Disposition".to_string(),
                    "form-data; name=\"avatar\"; filename=\"photo.png\"".to_string(),
                ),
            );
            assert_eq!(hs[2], ("Content-Type".to_string(), "image/png".to_string()));
        },
        _ => panic!("expected a file"),
    }
}

#[test]
fn caller_content_type_is_kept_and_disposition_replaced() {
    let mut fd = FormData::new();
    fd.files.push((
        "doc".to_string(),
        FilePart {
            headers: vec![
                Header { name: b"content-disposition".to_vec(), value: b"inline".to_vec() },
                Header { name: b"Content-Type".to_vec(), value: b"application/x-own".to_vec() },
            ],
            path: "a/report.txt".to_string(),
            size: Some(1),
        },
    ));
    let nodes = fd.to_multipart().expect("nodes");
    match &nodes[0] {
        MultipartNode::File(g) => {
            let hs: Vec<(String, String)> = g.headers.iter().map(header_pair).collect();
            assert_eq!(hs.len(), 2);
            assert_eq!(hs[0], ("Content-Type".to_string(), "application/x-own".to_string()));
            assert_eq!(
                hs[1],
                (
                    "Content-Disposition".to_string(),
                    "form-data; name=\"doc\"; filename=\"report.txt\"".to_string(),
                ),
            );
        },
        _ => panic!("expected a file"),
    }
}

#[test]
fn txt_extension_guesses_text_plain() {
    let mut fd = FormData::new();
    fd.files.push((
        "notes".to_string(),
        FilePart { headers: vec![], path: "notes.txt".to_string(), size: Some(1) },
    ));
    let nodes = fd.to_multipart().expect("nodes");
    match &nodes[0] {
        MultipartNode::File(g) => {
            let hs: Vec<(String, String)> = g.headers.iter().map(header_pair).collect();
            assert_eq!(hs[1], ("Content-Type".to_string(), "text/plain".to_string()));
        },
        _ => panic!("expected a file"),
    }
}

#[test]
fn path_without_file_name_is_invalid() {
    for path in ["", "/", "some/dir/..", "..", "./"] {
        let mut fd = FormData::new();
        fd.files.push((
            "x".to_string(),
            FilePart { headers: vec![], path: path.to_string(), size: Some(1) },
        ));
        assert!(matches!(fd.to_multipart(), Err(Error::InvalidFile)), "path {:?}", path);
    }
}

#[test]
fn trailing_slashes_and_dot_components_are_ignored() {
    for path in ["pics/photo.png/", "pics/photo.png//", "pics/photo.png/.", "pics/photo.png/./"] {
        let mut fd = FormData::new();
        fd.files.push((
            "avatar".to_string(),
            FilePart { headers: vec![], path: path.to_string(), size: Some(1) },
        ));
        let nodes = fd.to_multipart().expect("nodes");
        match &nodes[0] {
            MultipartNode::File(g) => {
                let hs: Vec<(String, String)> = g.headers.iter().map(header_pair).collect();
                assert_eq!(
                    hs[0],
                    (
                        "Content-Disposition".to_string(),
                        "form-data; name=\"avatar\"; filename=\"photo.png\"".to_string(),
                    ),
                    "path {:?}",
                    path,
                );
            },
            _ => panic!("expected a file"),
        }
    }
}

#[test]
fn dot_file_has_no_extension_to_guess_from() {
    let mut fd = FormData::new();
    fd.files.push((
        "hidden".to_string(),
        FilePart { headers: vec![], path: "dir/.png".to_string(), size: Some(1) },
    ));
    let nodes = fd.to_multipart().expect("nodes");
    match &nodes[0] {
        MultipartNode::File(g) => {
            let hs: Vec<(String, String)> = g.headers.iter().map(header_pair).collect();
            assert_eq!(
                hs[1],
                ("Content-Type".to_string(), "application/octet-stream".to_string()),
            );
        },
        _ => panic!("expected a file"),
    }
}

#[test]
fn form_stream_has_fresh_boundary_and_exact_count() {
    let mut fd = FormData::new();
    fd.fields.push(("title".to_string(), "hello".to_string()));
    fd.fields.push(("body".to_string(), "world".to_string()));
    let stream = fd.into_form_stream(&Vec::new()).expect("stream");
    assert_eq!(stream.boundary.len(), 68);
    assert!(!stream.boundary.contains(&b'\r') && !stream.boundary.contains(&b'\n'));
    let mut reader = stream.reader;
    let mut body: Vec<u8> = Vec::new();
    while let Some(seg) = reader.next_segment() {
        match seg {
            Segment::Data(d) => body.extend_from_slice(&d),
            Segment::FileRef { .. } => panic!("no files in this form"),
        }
    }
    assert_eq!(stream.count, body.len());
}

#[test]
fn encoded_form_parses_back_with_a_multipart_parser() {
    let mut fd = FormData::new();
    fd.fields.push(("title".to_string(), "hello".to_string()));
    fd.fields.push(("note".to_string(), "second value".to_string()));
    let stream = fd.into_form_stream(&Vec::new()).expect("stream");
    let boundary = String::from_utf8(stream.boundary.clone()).unwrap();
    let mut wire: Vec<u8> = Vec::new();
    wire.extend_from_slice(
        format!("Content-Type: multipart/form-data; boundary=\"{}\"\r\n\r\n", boundary)
            .as_bytes(),
    );
    let mut reader = stream.reader;
    while let Some(seg) = reader.next_segment() {
        match seg {
            Segment::Data(d) => wire.extend_from_slice(&d),
            Segment::FileRef { .. } => panic!("no files in this form"),
        }
    }
    let mut cursor = Cursor::new(wire);
    let nodes = mime_multipart::read_multipart(&mut cursor, false).expect("parse");
    assert_eq!(nodes.len(), 2);
    match &nodes[0] {
        mime_multipart::Node::Part(p) => assert_eq!(p.body, b"hello".to_vec()),
        _ => panic!("expected an in-memory part"),
    }
    match &nodes[1] {
        mime_multipart::Node::Part(p) => assert_eq!(p.body, b"second value".to_vec()),
        _ => panic!("expected an in-memory part"),
    }
}

#[test]
fn missing_file_fails_whole_form_stream() {
    let mut fd = FormData::new();
    fd.fields.push(("title".to_string(), "hello".to_string()));
    fd.files.push((
        "data".to_string(),
        FilePart { headers: vec![], path: "absent.bin".to_string(), size: None },
    ));
    let table = vec![FileLen { path: "other.bin".to_string(), len: 5 }];
    assert!(matches!(fd.into_form_stream(&table), Err(Error::InvalidFile)));
}

#[test]
fn error_messages_name_each_case() {
    assert_eq!(Error::InvalidFile.message(), "invalid file: not found or not readable");
    assert_eq!(Error::MalformedNestedBoundary.message(), "malformed nested boundary");
    assert_eq!(Error::PayloadError.message(), "payload error");
    assert_eq!(Error::TooLarge.message(), "body length overflows a machine integer");
}
