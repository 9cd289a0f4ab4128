use uclient::assemble::multipart_to_read;
use uclient::header::Header;
use uclient::node::{FileLen, FilePart, FormPart, MultipartNode};
use uclient::stream::{BodyReader, Segment};
use uclient::Error;

fn hdr(name: &str, value: &str) -> Header {
    Header { name: name.as_bytes().to_vec(), value: value.as_bytes().to_vec() }
}

fn part(name: &str, body: &str) -> MultipartNode {
    MultipartNode::Part(FormPart {
        headers: vec![hdr("Content-Disposition", &format!("form-data; name=\"{}\"", name))],
        body: body.as_bytes().to_vec(),
    })
}

/// Drains a reader to bytes, substituting `files` for file references and
/// checking each declared length.
fn drain(reader: &mut BodyReader, files: &[(&str, &[u8])]) -> Vec<u8> {
    let mut out: Vec<u8> = Vec::new();
    while let Some(seg) = reader.next_segment() {
        match seg {
            Segment::Data(d) => out.extend_from_slice(&d),
            Segment::FileRef { path, len } => {
                let content = files.iter().find(|(p, _)| *p == path).expect("unknown file").1;
                assert_eq!(content.len() as u64, len);
                out.extend_from_slice(content);
            },
        }
    }
    out
}

#[test]
fn concrete_scenario_single_field() {
    let nodes = vec![part("title", "hello")];
    let (count, mut reader) =
        multipart_to_read(b"XYZ".to_vec(), nodes, &Vec::new()).expect("build");
    let body = drain(&mut reader, &[]);
    let expected =
        b"--XYZ\r\nContent-Disposition: form-data; name=\"title\"\r\n\r\nhello\r\n--XYZ--";
    assert_eq!(body, expected.to_vec());
    assert_eq!(count, expected.len());
}

#[test]
fn empty_node_list_is_closing_delimiter_only() {
    let (count, mut reader) =
        multipart_to_read(b"XYZ".to_vec(), Vec::new(), &Vec::new()).expect("build");
    let body = drain(&mut reader, &[]);
    assert_eq!(body, b"--XYZ--".to_vec());
    assert_eq!(count, 7);
}

#[test]
fn order_is_preserved_across_parts_and_files() {
    let nodes = vec![
        part("a", "first"),
        MultipartNode::File(FilePart {
            headers: vec![hdr("Content-Disposition", "form-data; name=\"b\"; filename=\"b.bin\"")],
            path: "b.bin".to_string(),
            size: None,
        }),
        part("c", "third"),
    ];
    let table = vec![FileLen { path: "b.bin".to_string(), len: 4 }];
    let (count, mut reader) = multipart_to_read(b"B".to_vec(), nodes, &table).expect("build");
    let body = drain(&mut reader, &[("b.bin", b"1234")]);
    let text = String::from_utf8(body.clone()).expect("utf8");
    let pos_a = text.find("name=\"a\"").expect("a");
    let pos_b = text.find("name=\"b\"").expect("b");
    let pos_c = text.find("name=\"c\"").expect("c");
    assert!(pos_a < pos_b && pos_b < pos_c);
    let pos_first = text.find("first").expect("first");
    let pos_file = text.find("1234").expect("file content");
    let pos_third = text.find("third").expect("third");
    assert!(pos_first < pos_file && pos_file < pos_third);
    assert_eq!(count, body.len());
    assert!(text.ends_with("--B--"));
}

#[test]
fn count_matches_drained_length_with_file() {
    let nodes = vec![
        part("note", "content"),
        MultipartNode::File(FilePart {
            headers: vec![hdr("Content-Type", "application/octet-stream")],
            path: "data.bin".to_string(),
            size: None,
        }),
    ];
    let table = vec![FileLen { path: "data.bin".to_string(), len: 10 }];
    let (count, mut reader) = multipart_to_read(b"zz9".to_vec(), nodes, &table).expect("build");
    let body = drain(&mut reader, &[("data.bin", b"0123456789")]);
    assert_eq!(count, body.len());
}

#[test]
fn premeasured_size_wins_over_table() {
    let nodes = vec![MultipartNode::File(FilePart {
        headers: vec![],
        path: "f".to_string(),
        size: Some(6),
    })];
    let (count, mut reader) =
        multipart_to_read(b"Q".to_vec(), nodes, &Vec::new()).expect("build");
    let body = drain(&mut reader, &[("f", b"sixsix")]);
    assert_eq!(count, body.len());
    // --Q\r\n + \r\n (blank line, no headers) + 6 + \r\n + --Q--
    assert_eq!(count, 5 + 2 + 6 + 2 + 5);
}

#[test]
fn missing_file_fails_closed() {
    let unmeasured = FilePart::new(vec![], "/no/such/file".to_string());
    assert!(unmeasured.size.is_none());
    let nodes = vec![part("ok", "fine"), MultipartNode::File(unmeasured)];
    let r = multipart_to_read(b"XYZ".to_vec(), nodes, &Vec::new());
    assert!(matches!(r, Err(Error::InvalidFile)));
}

#[test]
fn missing_file_inside_nested_part_fails_closed() {
    let nodes = vec![MultipartNode::Nested {
        headers: vec![hdr("Content-Type", "multipart/mixed; boundary=sub")],
        children: vec![MultipartNode::File(FilePart {
            headers: vec![],
            path: "gone.bin".to_string(),
            size: None,
        })],
    }];
    let r = multipart_to_read(b"OUT".to_vec(), nodes, &Vec::new());
    assert!(matches!(r, Err(Error::InvalidFile)));
}

#[test]
fn first_error_in_node_order_wins() {
    let nodes = vec![
        MultipartNode::Nested { headers: vec![hdr("Content-Type", "text/plain")], children: vec![] },
        MultipartNode::File(FilePart { headers: vec![], path: "gone".to_string(), size: None }),
    ];
    let r = multipart_to_read(b"X".to_vec(), nodes, &Vec::new());
    assert!(matches!(r, Err(Error::MalformedNestedBoundary)));
}

#[test]
fn nested_without_boundary_is_malformed() {
    let nodes = vec![MultipartNode::Nested {
        headers: vec![hdr("Content-Type", "multipart/mixed")],
        children: vec![],
    }];
    let r = multipart_to_read(b"X".to_vec(), nodes, &Vec::new());
    assert!(matches!(r, Err(Error::MalformedNestedBoundary)));
}

#[test]
fn nested_bytes_are_spliced_into_parent() {
    let nodes = vec![MultipartNode::Nested {
        headers: vec![hdr("Content-Type", "multipart/mixed; boundary=sub")],
        children: vec![part("a", "x")],
    }];
    let (count, mut reader) =
        multipart_to_read(b"OUT".to_vec(), nodes, &Vec::new()).expect("build");
    let body = drain(&mut reader, &[]);
    let expected = b"--OUT\r\nContent-Type: multipart/mixed; boundary=sub\r\n\r\n\
--sub\r\nContent-Disposition: form-data; name=\"a\"\r\n\r\nx\r\n--sub--\r\n--OUT--";
    assert_eq!(String::from_utf8(body.clone()).unwrap(), String::from_utf8(expected.to_vec()).unwrap());
    assert_eq!(count, expected.len());
}

#[test]
fn in_memory_bytes_do_not_depend_on_file_size() {
    let make_nodes = || {
        vec![
            part("a", "alpha"),
            MultipartNode::File(FilePart { headers: vec![], path: "big".to_string(), size: None }),
        ]
    };
    let small = vec![FileLen { path: "big".to_string(), len: 3 }];
    let large = vec![FileLen { path: "big".to_string(), len: 1 << 40 }];
    let (_c1, mut r1) = multipart_to_read(b"XYZ".to_vec(), make_nodes(), &small).expect("build");
    let (_c2, mut r2) = multipart_to_read(b"XYZ".to_vec(), make_nodes(), &large).expect("build");
    loop {
        match (r1.next_segment(), r2.next_segment()) {
            (None, None) => break,
            (Some(Segment::Data(d1)), Some(Segment::Data(d2))) => assert_eq!(d1, d2),
            (
                Some(Segment::FileRef { path: p1, len: l1 }),
                Some(Segment::FileRef { path: p2, len: l2 }),
            ) => {
                assert_eq!(p1, p2);
                assert_eq!(l1, 3);
                assert_eq!(l2, 1 << 40);
            },
            _ => panic!("plans differ in shape"),
        }
    }
}

#[test]
fn stream_is_single_pass() {
    let nodes = vec![part("one", "1"), part("two", "2")];
    let (_count, mut reader) =
        multipart_to_read(b"XYZ".to_vec(), nodes, &Vec::new()).expect("build");
    let first = drain(&mut reader, &[]);
    assert!(!first.is_empty());
    assert!(reader.next_segment().is_none());
    assert!(reader.next_segment().is_none());
    assert_eq!(reader.remaining(), 0);
    let second = drain(&mut reader, &[]);
    assert!(second.is_empty());
}
