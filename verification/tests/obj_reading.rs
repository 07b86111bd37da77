use mars_core::mesh::{collect_grid, GridError};
use mars_core::obj::{ObjError, ObjFile};
use mars_core::text::{chars_of, float_literal, parse_isize_exec, tokens_in};

fn parse(s: &str) -> ObjFile {
    match ObjFile::parse(s) {
        Ok(f) => f,
        Err(_) => panic!("the text should parse"),
    }
}

#[test]
fn parses_vertices_lines_and_faces_per_object() {
    let f = parse("# a comment\no grid\nv 0 0 0\nv 1 0 0\nv 1 1 0\nl 1 2 3\no dual\nv 0.5 0.5 0\nf 1 2 4\n");
    assert_eq!(f.vertices.len(), 4);
    assert_eq!(f.vertices[1].x, "1");
    assert_eq!(f.vertices[3].y, "0.5");
    assert_eq!(f.objects.len(), 2);
    assert_eq!(f.objects[0].name, "grid");
    assert_eq!(f.objects[0].vertices, vec![0, 1, 2]);
    assert_eq!(f.objects[0].lines, vec![(0, 1), (1, 2)]);
    assert!(f.objects[0].faces.is_empty());
    assert_eq!(f.objects[1].name, "dual");
    assert_eq!(f.objects[1].vertices, vec![3]);
    assert_eq!(f.objects[1].faces, vec![vec![0, 1, 3]]);
}

#[test]
fn slash_syntax_and_negative_indices() {
    let f = parse("v 0 0 0\nv 1 0 0\nv 0 1 0\nvn 0 0 1\nf 1//1 2/5/1 -1\n");
    assert_eq!(f.vertices.len(), 3, "vn lines are not vertices");
    assert_eq!(f.objects[0].faces, vec![vec![0, 1, 2]]);
}

#[test]
fn o_line_names_an_empty_object() {
    let f = parse("o first name\nv 0 0 0\no second\no third\n");
    assert_eq!(f.objects.len(), 2);
    assert_eq!(f.objects[0].name, "first name");
    assert_eq!(f.objects[1].name, "third");
}

#[test]
fn errors_name_the_line() {
    assert!(matches!(ObjFile::parse("v 0 0\n"), Err(ObjError::MissingCoordinate { line: 1 })));
    assert!(matches!(ObjFile::parse("\nv 0 x 0\n"), Err(ObjError::BadCoordinate { line: 2 })));
    match ObjFile::parse("v 0 0 0\nl 1 a\n") {
        Err(ObjError::BadIndex { line, token }) => {
            assert_eq!(line, 2);
            assert_eq!(token, "a");
        }
        _ => panic!("expected a bad index"),
    }
    assert!(matches!(ObjFile::parse("v 0 0 0\nl 0 1\n"), Err(ObjError::ZeroIndex { line: 2 })));
    assert!(matches!(
        ObjFile::parse("v 0 0 0\nl 1 2\n"),
        Err(ObjError::NoSuchVertex { line: 2, index: 2 })
    ));
    assert!(matches!(
        ObjFile::parse("v 0 0 0\nf -2 1 1\n"),
        Err(ObjError::NoSuchVertex { line: 2, index: -2 })
    ));
}

#[test]
fn float_syntax_follows_rust() {
    for t in ["1", "-0.5", "+3.", ".25", "1e5", "2.5E-3", "inf", "-Infinity", "NaN"] {
        assert!(float_literal(&chars_of(t)), "{}", t);
    }
    for t in ["", "-", ".", "e5", "1e", "1.2.3", "0x10", "infinit", "1,5"] {
        assert!(!float_literal(&chars_of(t)), "{}", t);
    }
}

#[test]
fn integers_parse_like_isize() {
    let p = |t: &str| {
        let v = chars_of(t);
        parse_isize_exec(&v, v.len())
    };
    assert_eq!(p("42"), Some(42));
    assert_eq!(p("-7"), Some(-7));
    assert_eq!(p("+3"), Some(3));
    assert_eq!(p("9223372036854775807"), Some(isize::MAX));
    assert_eq!(p("-9223372036854775808"), Some(isize::MIN));
    assert_eq!(p("9223372036854775808"), None);
    assert_eq!(p(""), None);
    assert_eq!(p("-"), None);
    assert_eq!(p("1a"), None);
}

#[test]
fn tokens_split_on_ascii_whitespace() {
    let v = chars_of("  l 1\t 2  ");
    let t = tokens_in(&v, 0, v.len());
    let words: Vec<String> = t.iter().map(|w| w.iter().collect()).collect();
    assert_eq!(words, vec!["l", "1", "2"]);
}

#[test]
fn collect_grid_takes_points_lines_and_dual_faces() {
    let f = parse("o grid\nv 0 0 0\nv 1 0 0\nl 1 2\no dual\nv 5 5 5\nv 6 5 5\nv 6 6 5\nf 3 4 5\n");
    let parts = match collect_grid(&f) {
        Ok(p) => p,
        Err(_) => panic!("collect"),
    };
    assert_eq!(parts.points, vec![0, 1]);
    assert_eq!(parts.line_edges, vec![(0, 1)]);
    assert_eq!(parts.faces, vec![vec![2, 3, 4]]);
}

#[test]
fn an_l_line_into_a_dual_object_is_an_error() {
    let f = parse("o dual\nv 0 0 0\nv 1 0 0\nv 1 1 0\nf 1 2 3\no grid\nl 1 2\n");
    match collect_grid(&f) {
        Err(GridError::LineIntoDual { object }) => assert_eq!(object, "grid"),
        _ => panic!("expected an error"),
    }
}
