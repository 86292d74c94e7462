use wsl_tray::glyph::lexer::{number_end, path_data, tokenize, Tok};
use wsl_tray::glyph::mask::{bounding_box, dilate, find_holes};
use wsl_tray::glyph::path::{walk_path, PathError, Segment, Value};

/// A token with its number read.
#[derive(Debug, PartialEq)]
enum Read {
    Cmd(u8),
    Num(f64),
}

fn read(d: &str) -> Vec<Read> {
    tokenize(d)
        .iter()
        .map(|t| match *t {
            Tok::Cmd(c) => Read::Cmd(c),
            Tok::Num { start, end } => Read::Num(d[start..end].parse().unwrap()),
        })
        .collect()
}

#[test]
fn tokenizer_mirrors_go_regexp() {
    let toks = read("M220.8 123.3c1 .5-.4.2 1e2,3z 5.");
    assert_eq!(
        toks,
        vec![
            Read::Cmd(b'M'),
            Read::Num(220.8),
            Read::Num(123.3),
            Read::Cmd(b'c'),
            Read::Num(1.0),
            Read::Num(0.5),
            Read::Num(-0.4),
            Read::Num(0.2),
            Read::Num(100.0),
            Read::Num(3.0),
            Read::Cmd(b'z'),
            Read::Num(5.0),
        ]
    );
}

#[test]
fn numbers_are_read_to_their_end() {
    assert_eq!(number_end(b"-1.5e-3x", 0), Some(7));
    assert_eq!(number_end(b"1e", 0), Some(1));
    assert_eq!(number_end(b"1.", 0), Some(1));
    assert_eq!(number_end(b"-", 0), None);
    assert_eq!(number_end(b".", 0), None);
    assert_eq!(number_end(b"7", 9), None);
}

#[test]
fn path_data_extracts_first_d_attribute() {
    assert_eq!(path_data(r#"<svg><path d="M1 2z"/></svg>"#), Some("M1 2z"));
    assert_eq!(path_data("<svg/>"), None);
}

#[test]
fn path_data_needs_both_quotes() {
    assert_eq!(path_data("<path d=\"M1"), None);
    assert_eq!(path_data("<path d=\"\"/>"), Some(""));
    assert_eq!(path_data("é d=\"µ\" d=\"x\""), Some("µ"));
}

#[test]
fn holes_are_enclosed_low_coverage_pixels() {
    // 5x5 ring of solid pixels around one transparent centre pixel.
    let mut m = vec![0u8; 25];
    for y in 1..4 {
        for x in 1..4 {
            m[y * 5 + x] = 255;
        }
    }
    m[2 * 5 + 2] = 0;
    let holes = find_holes(&m, 5, 5);
    assert_eq!(holes.iter().filter(|&&h| h == 255).count(), 1);
    assert_eq!(holes[2 * 5 + 2], 255);
}

#[test]
fn open_areas_are_no_holes() {
    // The same ring with a gap: the middle is reachable from the border.
    let mut m = vec![0u8; 25];
    for y in 1..4 {
        for x in 1..4 {
            m[y * 5 + x] = 128;
        }
    }
    m[2 * 5 + 2] = 127;
    assert_eq!(find_holes(&m, 5, 5)[2 * 5 + 2], 255);
    m[2 * 5 + 3] = 0;
    assert!(find_holes(&m, 5, 5).iter().all(|&h| h == 0));
}

#[test]
fn dilate_uses_disc_neighbourhood() {
    let mut m = vec![0u8; 49];
    m[3 * 7 + 3] = 200;
    let d = dilate(&m, 7, 7, 3);
    assert_eq!(d[3 * 7 + 0], 200); // distance 3 on axis is inside
    assert_eq!(d[0], 0); // corner (3,3 away) is outside r*r=9
    assert_eq!(d[1 * 7 + 1], 200); // (2,2): 8 <= 9
}

#[test]
fn dilation_by_nothing_keeps_the_mask() {
    let m = vec![1u8, 0, 9, 4];
    assert_eq!(dilate(&m, 2, 2, 0), m);
    assert_eq!(dilate(&m, 2, 2, -1), vec![0; 4]);
}

#[test]
fn bounding_box_is_tight() {
    let mut m = vec![0u8; 30];
    assert_eq!(bounding_box(&m, 6, 5), None);
    m[6 + 2] = 1;
    m[3 * 6 + 4] = 1;
    assert_eq!(bounding_box(&m, 6, 5), Some((2, 1, 5, 4)));
}

/// The value of a coordinate, as the rasterizer computes it.
fn eval(d: &str, values: &[Value], i: usize) -> f64 {
    match values[i] {
        Value::Zero => 0.0,
        Value::Number { start, end } => d[start..end].parse().unwrap(),
        Value::Sum(a, b) => eval(d, values, a) + eval(d, values, b),
        Value::Mirror(a, b) => 2.0 * eval(d, values, a) - eval(d, values, b),
    }
}

/// The points of a path, segment by segment.
fn points(d: &str) -> Vec<Vec<f64>> {
    let p = walk_path(d).unwrap();
    let at = |i: usize| eval(d, &p.values, i);
    p.segments
        .iter()
        .map(|s| match *s {
            Segment::Move(x, y) | Segment::Line(x, y) => vec![at(x), at(y)],
            Segment::Cubic(a, b, c, d2, x, y) => {
                vec![at(a), at(b), at(c), at(d2), at(x), at(y)]
            }
            Segment::Close => vec![],
        })
        .collect()
}

#[test]
fn relative_commands_start_at_the_pen() {
    assert_eq!(
        points("m1 2 3 4h5v-6H1V1z l2 2"),
        vec![
            vec![1.0, 2.0],
            vec![4.0, 6.0],
            vec![9.0, 6.0],
            vec![9.0, 0.0],
            vec![1.0, 0.0],
            vec![1.0, 1.0],
            vec![],
            vec![3.0, 4.0],
        ]
    );
}

#[test]
fn smooth_curves_mirror_the_control_point() {
    assert_eq!(
        points("M0 0C1 1 2 2 3 1s2 2 3 3"),
        vec![
            vec![0.0, 0.0],
            vec![1.0, 1.0, 2.0, 2.0, 3.0, 1.0],
            vec![4.0, 0.0, 5.0, 3.0, 6.0, 4.0],
        ]
    );
    // After anything but a curve, the mirrored point is the pen itself.
    assert_eq!(points("M5 6S7 8 9 9")[1], vec![5.0, 6.0, 7.0, 8.0, 9.0, 9.0]);
}

#[test]
fn broken_paths_are_refused() {
    assert!(matches!(walk_path("M1"), Err(PathError::ExpectedNumber(2))));
    assert!(matches!(walk_path("M1 L2 3"), Err(PathError::ExpectedNumber(2))));
    assert!(matches!(walk_path("1 2"), Err(PathError::UnsupportedCommand(0))));
    assert!(matches!(walk_path("M1 1z2"), Err(PathError::UnsupportedCommand(b'z'))));
}

#[test]
fn repeated_letters_may_be_left_out() {
    assert_eq!(points("M1 1 2 2 3 3"), points("M1 1L2 2L3 3"));
    assert_eq!(points("m1 1h2 3"), points("m1 1h2h3"));
    assert_eq!(points("M0 0c1 1 2 2 3 3 4 4 5 5 6 6"), points("M0 0c1 1 2 2 3 3c4 4 5 5 6 6"));
}

#[test]
fn dilation_only_grows() {
    let m: Vec<u8> = (0..63u32).map(|i| (i * 37 % 251) as u8).collect();
    let d = dilate(&m, 9, 7, 2);
    assert!(m.iter().zip(&d).all(|(a, b)| a <= b));
    assert_eq!(d[0], *[m[0], m[1], m[2], m[9], m[10], m[18]].iter().max().unwrap());
}

#[test]
fn tokens_of_joined_texts() {
    let (a, b) = ("M1 2.5c-3", ".5e1z,7");
    for blank in [" ", ",", "\n"] {
        let mut both = read(a);
        both.extend(read(b));
        assert_eq!(read(&format!("{a}{blank}{b}")), both);
    }
    // Without a blank a number may run on.
    assert_ne!(read("M12"), [read("M1"), read("2")].into_iter().flatten().collect::<Vec<_>>());
}

#[test]
fn commands_are_the_command_letters() {
    let d = "M1e2 2xq;c.5-4 Z!z";
    let commands: Vec<u8> = tokenize(d)
        .iter()
        .filter_map(|t| match *t {
            Tok::Cmd(c) => Some(c),
            Tok::Num { .. } => None,
        })
        .collect();
    assert_eq!(commands, b"McZz".to_vec());
}

#[test]
fn every_letter_may_be_written_out() {
    assert_eq!(
        points("m1 2 3 4h5 6v7 8c1 1 2 2 3 3 4 4 5 5 6 6s1 2 3 4 5 6 7 8zl1 1 2 2M0 0 9 9"),
        points(
            "m1 2l3 4h5h6v7v8c1 1 2 2 3 3c4 4 5 5 6 6s1 2 3 4s5 6 7 8zl1 1l2 2M0 0L9 9"
        )
    );
}
