use jst::mesh::MeshError;
use jst::Mesh;

#[derive(Clone, Copy, Debug, PartialEq)]
struct Point {
    x: f64,
    y: f64,
}

fn read_point(a: &[char], b: &[char]) -> Option<Point> {
    let x: String = a.iter().collect();
    let y: String = b.iter().collect();
    match (x.parse::<f64>(), y.parse::<f64>()) {
        (Ok(x), Ok(y)) => Some(Point { x, y }),
        _ => None,
    }
}

fn coincide(p: &Point, q: &Point) -> bool {
    (p.x - q.x).abs() <= 1e-10 && (p.y - q.y).abs() <= 1e-10
}

fn parse(text: &str) -> Result<Mesh<Point>, MeshError> {
    Mesh::parse(text, |a: &[char], b: &[char]| read_point(a, b), |p: &Point, q: &Point| coincide(p, q))
}

fn ring_mesh(rings: usize, theta: usize, closed: bool) -> String {
    let per = if closed { theta + 1 } else { theta };
    let mut s = format!("{rings} {per}\n");
    for r in 0..rings {
        let rad = 1.0 + r as f64;
        for t in 0..per {
            let a = 2.0 * std::f64::consts::PI * (t % theta) as f64 / theta as f64;
            s += &format!("{:.10} {:.10}\n", rad * a.cos(), rad * a.sin());
        }
    }
    s
}

#[test]
fn parses_open_mesh() {
    let m = parse(&ring_mesh(5, 16, false)).unwrap();
    assert_eq!((m.n_rings(), m.n_theta()), (5, 16));
    assert_eq!(m.n_cells(), 4 * 16);
}

#[test]
fn trims_closed_mesh() {
    let m = parse(&ring_mesh(5, 16, true)).unwrap();
    assert_eq!(m.n_theta(), 16);
    assert_eq!(m.n_cells(), 4 * 16);
}

#[test]
fn node_wraps_in_theta() {
    let m = parse(&ring_mesh(5, 16, false)).unwrap();
    assert_eq!(m.node(0, 16), m.node(0, 0));
    assert_eq!(m.node(2, 17), m.node(2, 1));
}

#[test]
fn rejects_bad_header() {
    assert!(matches!(
        parse("not a header\n1.0 2.0\n"),
        Err(MeshError::BadHeader(_))
    ));
}

#[test]
fn rejects_count_mismatch() {
    assert!(matches!(
        parse("4 8\n1.0 2.0\n"),
        Err(MeshError::CountMismatch { .. })
    ));
}

#[test]
fn rejects_too_small() {
    assert!(matches!(
        parse(&ring_mesh(3, 16, false)),
        Err(MeshError::TooSmall { .. })
    ));
}

#[test]
fn empty_text_and_header_only_are_empty() {
    assert!(matches!(parse(""), Err(MeshError::Empty)));
    assert!(matches!(parse("4 8\n"), Err(MeshError::Empty)));
    assert!(matches!(parse("4 8\n\n   \n"), Err(MeshError::Empty)));
}

#[test]
fn bad_header_keeps_the_trimmed_header() {
    match parse("  12 x  \n1 2\n") {
        Err(MeshError::BadHeader(h)) => assert_eq!(h, "12 x"),
        other => panic!("unexpected {other:?}"),
    }
    match parse("7\n") {
        Err(MeshError::BadHeader(h)) => assert_eq!(h, "7"),
        other => panic!("unexpected {other:?}"),
    }
    assert!(matches!(parse("-4 8\n1 2\n"), Err(MeshError::BadHeader(_))));
    assert!(matches!(
        parse("18446744073709551616 8\n1 2\n"),
        Err(MeshError::BadHeader(_))
    ));
}

#[test]
fn count_mismatch_reports_both_counts() {
    match parse("4 8\n1.0 2.0\n3 4\n") {
        Err(MeshError::CountMismatch { expected, got }) => assert_eq!((expected, got), (32, 2)),
        other => panic!("unexpected {other:?}"),
    }
    // a leading '+' and extra words are accepted, as by `str::parse` and
    // `split_whitespace`
    match parse("+2 +1\n1 2 extra\n3 4\n") {
        Err(MeshError::CountMismatch { .. }) => panic!("counts should agree"),
        Err(MeshError::TooSmall { ni, nj }) => assert_eq!((ni, nj), (2, 1)),
        other => panic!("unexpected {other:?}"),
    }
}

#[test]
fn bad_point_names_the_file_line() {
    match parse("4 8\n1.0 2.0\n\n  3.0 zz \n") {
        Err(MeshError::BadPoint { line, text }) => {
            assert_eq!(line, 4);
            assert_eq!(text, "3.0 zz");
        }
        other => panic!("unexpected {other:?}"),
    }
    match parse("4 8\r\n1.0\r\n") {
        Err(MeshError::BadPoint { line, text }) => {
            assert_eq!(line, 2);
            assert_eq!(text, "1.0");
        }
        other => panic!("unexpected {other:?}"),
    }
}

#[test]
fn closed_ring_that_becomes_too_small_is_rejected() {
    // 8 nodes per ring of which the last repeats the first: 7 remain
    match parse(&ring_mesh(4, 7, true)) {
        Err(MeshError::TooSmall { ni, nj }) => assert_eq!((ni, nj), (4, 7)),
        other => panic!("unexpected {other:?}"),
    }
}

#[test]
fn trimming_keeps_the_other_nodes_in_place() {
    let open = parse(&ring_mesh(4, 8, false)).unwrap();
    let closed = parse(&ring_mesh(4, 8, true)).unwrap();
    for r in 0..4 {
        for t in 0..8 {
            assert_eq!(open.node(r, t), closed.node(r, t));
        }
    }
}

#[test]
fn crlf_and_unicode_whitespace_are_accepted() {
    let mut s = String::from("4\u{3000}8\r\n");
    for r in 0..4 {
        for t in 0..8 {
            s += &format!("{}\t{}\r\n", r, t);
        }
    }
    let m = parse(&s).unwrap();
    assert_eq!((m.n_rings(), m.n_theta()), (4, 8));
    assert_eq!(m.node(3, 9), Point { x: 3.0, y: 1.0 });
}

#[test]
fn io_errors_convert() {
    let e: MeshError = std::io::Error::new(std::io::ErrorKind::NotFound, "gone").into();
    assert!(matches!(e, MeshError::Io(_)));
}

#[test]
fn mesh_clone_is_equal() {
    let m = parse(&ring_mesh(4, 8, false)).unwrap();
    let c = m.clone();
    assert_eq!(c.n_cells(), m.n_cells());
    assert_eq!(c.node(3, 5), m.node(3, 5));
}

#[test]
fn error_messages_read_as_before() {
    let e = parse("not a header\n1.0 2.0\n").unwrap_err();
    assert_eq!(e.message(), "bad header \"not a header\": expected `i_total j_total`");
    let e = parse("4 8\n1.0 2.0\n").unwrap_err();
    assert_eq!(e.message(), "expected 32 points from header, found 1");
    let e = parse("").unwrap_err();
    assert_eq!(e.message(), "mesh file contains no points");
    let e = parse("2 2\n1.0 2.0\n  x\ty \"z\"  \n").unwrap_err();
    assert_eq!(e.message(), "line 3: cannot parse point \"x\\ty \\\"z\\\"\"");
    let e = parse(&ring_mesh(3, 16, false)).unwrap_err();
    assert_eq!(e.message(), "mesh 3x16 too small: the JST 4th-order stencil needs at least 4 rings and 8 circumferential points");
    let io = std::io::Error::new(std::io::ErrorKind::NotFound, "no such mesh");
    assert_eq!(MeshError::from(io).message(), "I/O error: no such mesh");
}

#[test]
fn message_with_uses_the_given_texts() {
    let e = MeshError::BadHeader("h".to_string());
    assert_eq!(e.message_with("<h>", "ignored"), "bad header <h>: expected `i_total j_total`");
    let e = MeshError::TooSmall { ni: 0, nj: 1_234_567 };
    assert_eq!(
        e.message_with("", ""),
        "mesh 0x1234567 too small: the JST 4th-order stencil needs at least 4 rings and 8 circumferential points"
    );
}

#[test]
fn reads_a_ten_ring_twelve_point_mesh() {
    let m = parse(&ring_mesh(10, 12, true)).unwrap();
    assert_eq!((m.n_rings(), m.n_theta()), (10, 12));
    assert_eq!(m.n_cells(), 108);
    assert!((m.node(0, 0).x - 1.0).abs() < 1e-12);
}
