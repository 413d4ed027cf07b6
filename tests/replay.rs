use turtle::{Coord, Line, Op, Path, Pen};

fn c(v: f32) -> Coord {
    Coord { bits: v.to_bits() }
}

fn seg(start: (i32, i32), end: (i32, i32), color: (u8, u8, u8), color_changed: bool) -> Line {
    Line { start, end, color, color_changed }
}

#[test]
fn to_pixel_matches_cast() {
    let values: Vec<f32> = vec![
        0.0, -0.0, 0.5, -0.5, 0.999_999, 1.0, -1.0, 1.5, -1.5, 2.0, 10.0, 60.0, 99.999_99,
        100.0, -100.0, 123.456, -123.456, 8_388_607.5, 8_388_608.0, 16_777_215.0,
        16_777_216.0, 1.0e9, -1.0e9, 2_147_483_520.0, 2_147_483_648.0, -2_147_483_648.0,
        -2_147_483_904.0, 3.0e10, -3.0e10, 1.0e-40, -1.0e-40, f32::MIN_POSITIVE, f32::MAX,
        f32::MIN, f32::INFINITY, f32::NEG_INFINITY, f32::NAN, -f32::NAN,
    ];
    for v in values {
        assert_eq!(c(v).to_pixel(), v as i32, "value {}", v);
    }
}

#[test]
fn to_pixel_over_many_bit_patterns() {
    let mut bits: u32 = 0;
    for _ in 0..200_000 {
        let v = f32::from_bits(bits);
        assert_eq!(Coord { bits }.to_pixel(), v as i32, "bits {:#x}", bits);
        bits = bits.wrapping_add(21_474);
    }
}

#[test]
fn empty_path_has_no_segments() {
    let p = Path::new();
    assert_eq!(p.len(), 0);
    assert!(p.segments().is_empty());
    let mut lines = p.lines();
    assert_eq!(lines.next(), None);
    assert_eq!(lines.next(), None);
}

#[test]
fn move_without_draw() {
    let mut p = Path::new();
    p.move_to(c(50.0), c(50.0));
    p.line_to(c(60.0), c(50.0));
    assert_eq!(p.segments(), vec![seg((50, 50), (60, 50), (255, 255, 255), false)]);
}

#[test]
fn color_mid_stroke() {
    let mut p = Path::new();
    p.set_color(255, 0, 0);
    p.line_to(c(10.0), c(0.0));
    p.set_color(0, 255, 0);
    p.line_to(c(20.0), c(0.0));
    let s = p.segments();
    assert_eq!(s.len(), 2);
    assert_eq!(s[0], seg((0, 0), (10, 0), (255, 0, 0), true));
    assert_eq!(s[1], seg((10, 0), (20, 0), (0, 255, 0), true));
}

#[test]
fn color_flag_clears_after_a_segment() {
    let mut p = Path::new();
    p.set_color(1, 2, 3);
    p.line_to(c(1.0), c(1.0));
    p.line_to(c(2.0), c(2.0));
    let s = p.segments();
    assert!(s[0].color_changed);
    assert!(!s[1].color_changed);
    assert_eq!(s[1].color, (1, 2, 3));
}

#[test]
fn stroke_in_place_is_zero_length() {
    let mut p = Path::new();
    p.move_to(c(7.25), c(-3.5));
    p.line_to(c(7.75), c(-3.0));
    assert_eq!(p.segments(), vec![seg((7, -3), (7, -3), (255, 255, 255), false)]);
}

#[test]
fn replays_are_identical() {
    let mut p = Path::new();
    p.line_to(c(3.7), c(-2.2));
    p.set_color(9, 8, 7);
    p.move_to(c(-40.0), c(12.9));
    p.line_to(c(1.0e12), c(-1.0e12));
    p.line_to(c(f32::NAN), c(5.5));
    let first = p.segments();
    let mut lines = p.lines();
    let mut second = Vec::new();
    while let Some(l) = lines.next() {
        second.push(l);
    }
    assert_eq!(first, second);
    assert_eq!(first, p.segments());
    assert_eq!(first.len(), 3);
    assert_eq!(first[1], seg((-40, 12), (i32::MAX, i32::MIN), (9, 8, 7), true));
    assert_eq!(first[2], seg((i32::MAX, i32::MIN), (0, 5), (9, 8, 7), false));
}

#[test]
fn segments_without_color_are_white() {
    let mut p = Path::new();
    p.line_to(c(1.0), c(2.0));
    p.move_to(c(5.0), c(5.0));
    p.line_to(c(-1.0), c(2.0));
    for l in p.segments() {
        assert_eq!(l.color, (255, 255, 255));
    }
}

#[test]
fn one_segment_per_stroke() {
    let mut p = Path::new();
    let mut strokes = 0;
    for i in 0..50 {
        match i % 4 {
            0 | 1 => {
                p.line_to(c(i as f32), c(0.5 * i as f32));
                strokes += 1;
            }
            2 => p.move_to(c(-(i as f32)), c(3.0)),
            _ => p.set_color(i as u8, 0, 0),
        }
    }
    assert_eq!(p.len(), 50);
    assert_eq!(p.segments().len(), strokes);
}

#[test]
fn log_keeps_operations_in_order() {
    let mut p = Path::new();
    p.move_to(c(1.0), c(2.0));
    p.set_color(4, 5, 6);
    p.line_to(c(3.0), c(4.0));
    assert_eq!(p.op(0), Op::MoveTo(c(1.0), c(2.0)));
    assert_eq!(p.op(1), Op::SetColor(4, 5, 6));
    assert_eq!(p.op(2), Op::LineTo(c(3.0), c(4.0)));
}

#[test]
fn pen_applies_operations() {
    let mut pen = Pen::new();
    assert_eq!(pen, Pen { x: 0, y: 0, color: (255, 255, 255), color_changed: false });
    assert_eq!(pen.apply(&Op::MoveTo(c(4.9), c(-4.9))), None);
    assert_eq!((pen.x, pen.y), (4, -4));
    assert_eq!(pen.apply(&Op::SetColor(1, 1, 1)), None);
    assert!(pen.color_changed);
    let l = pen.apply(&Op::LineTo(c(0.0), c(0.0)));
    assert_eq!(l, Some(seg((4, -4), (0, 0), (1, 1, 1), true)));
    assert!(!pen.color_changed);
}
