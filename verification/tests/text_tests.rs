use dijkstra::graph::{Graph, ImportError};
use dijkstra::text::{parse_i64, parse_u64, split_chars, trim_chars, IntErrorKind};
use dijkstra::vertex::{Arc, Vertex};

fn chars(s: &str) -> Vec<char> {
    s.chars().collect()
}

#[test]
fn parse_u64_cases() {
    assert_eq!(parse_u64(&chars("0")), Ok(0));
    assert_eq!(parse_u64(&chars("+17")), Ok(17));
    assert_eq!(parse_u64(&chars("18446744073709551615")), Ok(u64::MAX));
    assert_eq!(parse_u64(&chars("18446744073709551616")), Err(IntErrorKind::PosOverflow));
    assert_eq!(parse_u64(&chars("")), Err(IntErrorKind::Empty));
    assert_eq!(parse_u64(&chars("+")), Err(IntErrorKind::InvalidDigit));
    assert_eq!(parse_u64(&chars("-1")), Err(IntErrorKind::InvalidDigit));
    assert_eq!(parse_u64(&chars("1a")), Err(IntErrorKind::InvalidDigit));
    assert_eq!(parse_u64(&chars(" 1")), Err(IntErrorKind::InvalidDigit));
}

#[test]
fn parse_i64_cases() {
    assert_eq!(parse_i64(&chars("-5")), Ok(-5));
    assert_eq!(parse_i64(&chars("+5")), Ok(5));
    assert_eq!(parse_i64(&chars("-9223372036854775808")), Ok(i64::MIN));
    assert_eq!(parse_i64(&chars("9223372036854775807")), Ok(i64::MAX));
    assert_eq!(parse_i64(&chars("9223372036854775808")), Err(IntErrorKind::PosOverflow));
    assert_eq!(parse_i64(&chars("-9223372036854775809")), Err(IntErrorKind::NegOverflow));
    assert_eq!(parse_i64(&chars("-")), Err(IntErrorKind::InvalidDigit));
    assert_eq!(parse_i64(&chars("--1")), Err(IntErrorKind::InvalidDigit));
    assert_eq!(parse_i64(&chars("")), Err(IntErrorKind::Empty));
}

#[test]
fn parse_agrees_with_std() {
    for s in ["12", "+3", "-4", "", "+", "-", "99999999999999999999", "-99999999999999999999", "7x", "x7"] {
        let c = chars(s);
        assert_eq!(parse_u64(&c).ok(), s.parse::<u64>().ok());
        assert_eq!(parse_i64(&c).ok(), s.parse::<i64>().ok());
    }
}

#[test]
fn trim_and_split() {
    assert_eq!(trim_chars(&chars(" \t a b \r\n")), chars("a b"));
    assert_eq!(trim_chars(&chars("\u{3000}x\u{a0}")), chars("x"));
    assert_eq!(trim_chars(&chars("   ")), chars(""));
    assert_eq!(
        split_chars(&chars("a,,b,"), ','),
        vec![chars("a"), chars(""), chars("b"), chars("")]
    );
    assert_eq!(split_chars(&chars(""), ','), vec![chars("")]);
}

#[test]
fn export_formats() {
    let a = Arc { to: 7, distance: -12 };
    assert_eq!(a.export(), "7,-12");
    let mut v = Vertex::new(3);
    assert_eq!(v.export(), "3 ");
    v.add_arc(1, 2);
    v.add_arc(4, i64::MIN);
    assert_eq!(v.export(), "3 1,2 4,-9223372036854775808");
    let mut g = Graph::new();
    assert_eq!(g.export(), "");
    g.add_vertex(v);
    g.add_vertex(Vertex::new(18446744073709551615));
    assert_eq!(g.export(), "3 1,2 4,-9223372036854775808\r\n18446744073709551615 ");
}

#[test]
fn import_reads_export() {
    let mut g = Graph::new();
    let mut v = Vertex::new(0);
    v.add_arc(1, -3);
    v.add_arc(0, 0);
    g.add_vertex(v);
    g.add_vertex(Vertex::new(1));
    let mut w = Vertex::new(9);
    w.add_arc(2, i64::MAX);
    g.add_vertex(w);
    let back = Graph::import(&g.export()).unwrap();
    assert_eq!(back, g);
}

#[test]
fn import_errors() {
    assert!(matches!(Graph::import("0 1,x"), Err(ImportError::ParseI(IntErrorKind::InvalidDigit))));
    assert!(matches!(Graph::import("0 1"), Err(ImportError::FileFormat)));
    assert!(matches!(Graph::import("0 1,\t"), Err(ImportError::FileFormat)));
    assert!(matches!(Graph::import("0 99999999999999999999,1"), Err(ImportError::ParseI(IntErrorKind::PosOverflow))));
    assert!(matches!(Graph::import("0 1,-99999999999999999999"), Err(ImportError::ParseI(IntErrorKind::NegOverflow))));
    assert!(matches!(Graph::import("-1"), Err(ImportError::ParseI(IntErrorKind::InvalidDigit))));
    // the first line in error decides
    assert!(matches!(Graph::import("0 1\nx"), Err(ImportError::FileFormat)));
}

#[test]
fn import_passes_over_blank_lines_and_items() {
    let g = Graph::import("\n  \n0   1,2  \r\n\t\n1 0,1,9\n").unwrap();
    assert_eq!(g.verticies.len(), 2);
    assert_eq!(g.verticies[0].arcs, vec![Arc { to: 1, distance: 2 }]);
    assert_eq!(g.verticies[1].arcs, vec![Arc { to: 0, distance: 1 }]);
}
