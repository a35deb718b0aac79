use raytracer::obj::{
    blank, copy_range, find_marker, parse_face, parse_index, parse_line, parse_number,
    parse_vertex, split_words, triangles_of, LineItem, ObjError,
};

fn words(line: &str, from: usize) -> Vec<String> {
    split_words(line.as_bytes(), from)
        .into_iter()
        .map(|w| String::from_utf8(w).unwrap())
        .collect()
}

#[test]
fn blank_bytes() {
    for b in [b' ', b'\t', b'\n', b'\r', 11u8, 12u8] {
        assert!(blank(b));
    }
    for b in [b'a', b'0', b'/', 0u8, 8u8, 14u8, 255u8] {
        assert!(!blank(b));
    }
}

#[test]
fn marker_is_found_at_its_first_place() {
    assert_eq!(find_marker(b"v 1 2 3", b'v'), Some(0));
    assert_eq!(find_marker(b"  v 1 v 3", b'v'), Some(2));
    assert_eq!(find_marker(b"vn 1 2 3", b'v'), None);
    assert_eq!(find_marker(b"v", b'v'), None);
    assert_eq!(find_marker(b"", b'v'), None);
    assert_eq!(find_marker(b"f 1 2 3", b'v'), None);
    assert_eq!(find_marker(b"xf ", b'f'), Some(1));
}

#[test]
fn words_are_split_on_spaces_and_trimmed() {
    assert_eq!(words("1 2 3", 0), vec!["1", "2", "3"]);
    assert_eq!(words("  1   2  ", 0), vec!["1", "2"]);
    assert_eq!(words("v 1.5 -2 3e4\r", 2), vec!["1.5", "-2", "3e4"]);
    assert_eq!(words("a\tb c", 0), vec!["a\tb", "c"]);
    assert_eq!(words("\t \t", 0), Vec::<String>::new());
    assert_eq!(words("", 0), Vec::<String>::new());
    assert_eq!(words("abc", 3), Vec::<String>::new());
    assert_eq!(copy_range(b"hello", 1, 4), b"ell".to_vec());
}

#[test]
fn numbers_are_read_as_the_standard_library_reads_them() {
    let max = format!("{}", usize::MAX);
    let over = format!("{}0", usize::MAX);
    let beyond = "18446744073709551616";
    for text in ["0", "7", "007", "+12", "42", "", "+", "-1", "1a", "a1", " 1", "1 ", "++1", &max, &over, beyond] {
        let expected = text.parse::<usize>().ok();
        assert_eq!(parse_number(text.as_bytes(), 0, text.len()), expected, "{:?}", text);
    }
    assert_eq!(parse_number(b"xx123yy", 2, 5), Some(123));
    assert_eq!(parse_number(b"xx123yy", 2, 2), None);
}

#[test]
fn index_is_the_number_before_the_first_slash() {
    assert_eq!(parse_index(&b"12".to_vec()), Some(12));
    assert_eq!(parse_index(&b"12/5/7".to_vec()), Some(12));
    assert_eq!(parse_index(&b"3//9".to_vec()), Some(3));
    assert_eq!(parse_index(&b"/3".to_vec()), None);
    assert_eq!(parse_index(&b"x/3".to_vec()), None);
    assert_eq!(parse_index(&b"".to_vec()), None);
}

#[test]
fn vertex_line() {
    match parse_line(b"v 1.0 -2.5 3e2") {
        Ok(Some(LineItem::Vertex(x, y, z))) => {
            assert_eq!((x, y, z), (b"1.0".to_vec(), b"-2.5".to_vec(), b"3e2".to_vec()));
        },
        other => panic!("{:?}", other),
    }
    // Only the first three coordinates count.
    match parse_line(b"v 1 2 3 4") {
        Ok(Some(LineItem::Vertex(x, y, z))) => {
            assert_eq!((x, y, z), (b"1".to_vec(), b"2".to_vec(), b"3".to_vec()));
        },
        other => panic!("{:?}", other),
    }
    assert!(matches!(parse_line(b"v 1 2"), Err(ObjError::MissingCoordinate)));
    assert!(matches!(parse_line(b"v "), Err(ObjError::MissingCoordinate)));
    assert!(matches!(
        parse_vertex(vec![b"1".to_vec()]),
        Err(ObjError::MissingCoordinate)
    ));
}

#[test]
fn face_lines() {
    assert!(matches!(parse_line(b"f 1 2 3"), Ok(Some(LineItem::Triangle(1, 2, 3)))));
    assert!(matches!(parse_line(b"f 1/4/7 2/5/8 3/6/9"), Ok(Some(LineItem::Triangle(1, 2, 3)))));
    assert!(matches!(parse_line(b"f 4 3 2 1\r"), Ok(Some(LineItem::Quad(4, 3, 2, 1)))));
    assert!(matches!(parse_line(b"f 1//2 2//3  3//4 4//5"), Ok(Some(LineItem::Quad(1, 2, 3, 4)))));
    assert!(matches!(parse_line(b"f 1 2"), Err(ObjError::BadFace)));
    assert!(matches!(parse_line(b"f 1 2 3 4 5"), Err(ObjError::BadFace)));
    assert!(matches!(parse_line(b"f "), Err(ObjError::BadFace)));
    assert!(matches!(parse_line(b"f 1 x 3"), Err(ObjError::BadIndex)));
    assert!(matches!(parse_line(b"f 1 -2 3"), Err(ObjError::BadIndex)));
    assert!(matches!(parse_line(b"f 1 2 3 4 y"), Err(ObjError::BadIndex)));
    assert!(matches!(
        parse_face(&vec![b"1".to_vec(), b"2".to_vec(), b"3".to_vec()]),
        Ok(Some(LineItem::Triangle(1, 2, 3)))
    ));
}

#[test]
fn other_lines_hold_nothing() {
    for line in ["", "# a comment", "vn 0 1 0", "vt 0.5 0.5", "g group", "usemtl red", "v", "f"] {
        assert!(matches!(parse_line(line.as_bytes()), Ok(None)), "{:?}", line);
    }
}

#[test]
fn triangles_count_from_zero_and_quads_are_cut_in_two() {
    let tri = LineItem::Triangle(1, 2, 3);
    assert_eq!(triangles_of(&tri, 3), Ok(vec![(0, 1, 2)]));
    assert_eq!(triangles_of(&tri, 2), Err(ObjError::OutOfRange));
    assert_eq!(triangles_of(&LineItem::Triangle(0, 1, 2), 3), Err(ObjError::OutOfRange));
    let quad = LineItem::Quad(1, 2, 3, 4);
    assert_eq!(triangles_of(&quad, 4), Ok(vec![(0, 1, 2), (0, 2, 3)]));
    assert_eq!(triangles_of(&quad, 7), Ok(vec![(0, 1, 2), (0, 2, 3)]));
    assert_eq!(triangles_of(&quad, 3), Err(ObjError::OutOfRange));
    assert_eq!(triangles_of(&LineItem::Quad(5, 0, 1, 2), 5), Err(ObjError::OutOfRange));
    let vertex = LineItem::Vertex(b"1".to_vec(), b"2".to_vec(), b"3".to_vec());
    assert_eq!(triangles_of(&vertex, 0), Ok(vec![]));
}
