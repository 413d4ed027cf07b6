use turtle::{draw_line_img, Canvas, Coord, Line, Path, PngTurtle};

fn c(v: f32) -> Coord {
    Coord { bits: v.to_bits() }
}

fn line(start: (i32, i32), end: (i32, i32), color: (u8, u8, u8)) -> Line {
    Line { start, end, color, color_changed: false }
}

fn lit(img: &Canvas, bg: (u8, u8, u8)) -> Vec<(u32, u32)> {
    let mut out = Vec::new();
    for y in 0..img.get_height() {
        for x in 0..img.get_width() {
            if img.pixel(x, y) != bg {
                out.push((x, y));
            }
        }
    }
    out
}

#[test]
fn horizontal_segment_renders_eleven_pixels() {
    let mut p = Path::new();
    p.move_to(c(10.0), c(10.0));
    p.line_to(c(20.0), c(10.0));
    let img = p.draw_png().render();
    assert_eq!((img.get_width(), img.get_height()), (500, 500));
    let on = lit(&img, (0, 0, 0));
    let expected: Vec<(u32, u32)> = (10..=20).map(|x| (x, 10)).collect();
    assert_eq!(on, expected);
    for (x, y) in on {
        assert_eq!(img.pixel(x, y), (255, 255, 255));
    }
}

#[test]
fn render_options() {
    let p = Path::new();
    let opts = PngTurtle::new(&p);
    assert_eq!(opts.size, (500, 500));
    assert!(!opts.antialias);
    assert_eq!(opts.bg, (0, 0, 0));
    let opts = opts.size(3, 2).background(60, 60, 60).antialias(true);
    assert_eq!(opts.size, (3, 2));
    assert!(opts.antialias);
    let img = opts.render();
    assert_eq!((img.get_width(), img.get_height()), (3, 2));
    assert_eq!(img.into_bytes(), vec![60u8; 18]);
}

#[test]
fn bytes_are_row_major_rgb() {
    let mut img = Canvas::new(2, 2, (0, 0, 0));
    img.put(1, 0, (1, 2, 3));
    img.put(0, 1, (4, 5, 6));
    assert_eq!(img.into_bytes(), vec![0, 0, 0, 1, 2, 3, 4, 5, 6, 0, 0, 0]);
}

#[test]
fn later_segments_paint_over_earlier_ones() {
    let mut p = Path::new();
    p.line_to(c(4.0), c(0.0));
    p.set_color(200, 0, 0);
    p.move_to(c(2.0), c(0.0));
    p.line_to(c(2.0), c(2.0));
    let img = p.draw_png().size(5, 3).render();
    assert_eq!(img.pixel(0, 0), (255, 255, 255));
    assert_eq!(img.pixel(2, 0), (200, 0, 0));
    assert_eq!(img.pixel(2, 2), (200, 0, 0));
    assert_eq!(img.pixel(4, 0), (255, 255, 255));
    assert_eq!(lit(&img, (0, 0, 0)).len(), 7);
}

#[test]
fn shallow_line_pixels() {
    let mut img = Canvas::new(10, 10, (0, 0, 0));
    draw_line_img(&mut img, &line((0, 0), (2, 1), (9, 9, 9)));
    assert_eq!(lit(&img, (0, 0, 0)), vec![(0, 0), (1, 1), (2, 1)]);
}

#[test]
fn reversed_shallow_line_pixels() {
    let mut img = Canvas::new(10, 10, (0, 0, 0));
    draw_line_img(&mut img, &line((2, 1), (0, 0), (9, 9, 9)));
    assert_eq!(lit(&img, (0, 0, 0)), vec![(0, 0), (1, 0), (2, 1)]);
}

#[test]
fn steep_line_pixels() {
    let mut img = Canvas::new(10, 10, (0, 0, 0));
    draw_line_img(&mut img, &line((1, 1), (3, 7), (9, 9, 9)));
    let on = lit(&img, (0, 0, 0));
    assert_eq!(on.len(), 7);
    assert_eq!(
        on,
        vec![(1, 1), (1, 2), (2, 3), (2, 4), (2, 5), (3, 6), (3, 7)]
    );
}

#[test]
fn line_without_halfway_pixel_is_symmetric() {
    let mut a = Canvas::new(8, 8, (0, 0, 0));
    draw_line_img(&mut a, &line((0, 0), (3, 1), (5, 5, 5)));
    let mut b = Canvas::new(8, 8, (0, 0, 0));
    draw_line_img(&mut b, &line((3, 1), (0, 0), (5, 5, 5)));
    assert_eq!(lit(&a, (0, 0, 0)), vec![(0, 0), (1, 0), (2, 1), (3, 1)]);
    assert_eq!(lit(&a, (0, 0, 0)), lit(&b, (0, 0, 0)));
}

#[test]
fn diagonal_line_is_symmetric() {
    let mut a = Canvas::new(8, 8, (0, 0, 0));
    draw_line_img(&mut a, &line((1, 6), (6, 1), (5, 5, 5)));
    let mut b = Canvas::new(8, 8, (0, 0, 0));
    draw_line_img(&mut b, &line((6, 1), (1, 6), (5, 5, 5)));
    assert_eq!(lit(&a, (0, 0, 0)), lit(&b, (0, 0, 0)));
    assert_eq!(lit(&a, (0, 0, 0)).len(), 6);
}

#[test]
fn zero_length_line_is_one_pixel() {
    let mut img = Canvas::new(4, 4, (0, 0, 0));
    draw_line_img(&mut img, &line((3, 2), (3, 2), (1, 1, 1)));
    assert_eq!(lit(&img, (0, 0, 0)), vec![(3, 2)]);
}

#[test]
fn line_starting_outside_draws_nothing() {
    let mut img = Canvas::new(10, 10, (0, 0, 0));
    draw_line_img(&mut img, &line((-5, 5), (5, 5), (1, 1, 1)));
    assert!(lit(&img, (0, 0, 0)).is_empty());
    draw_line_img(&mut img, &line((12, 3), (2, 3), (1, 1, 1)));
    assert!(lit(&img, (0, 0, 0)).is_empty());
}

#[test]
fn line_leaving_the_canvas_stops() {
    let mut img = Canvas::new(10, 10, (0, 0, 0));
    draw_line_img(&mut img, &line((7, 2), (20, 2), (1, 1, 1)));
    assert_eq!(lit(&img, (0, 0, 0)), vec![(7, 2), (8, 2), (9, 2)]);
}

#[test]
fn extreme_endpoints_do_not_overflow() {
    let mut img = Canvas::new(4, 4, (0, 0, 0));
    draw_line_img(&mut img, &line((0, 0), (i32::MAX, i32::MIN), (1, 1, 1)));
    assert_eq!(lit(&img, (0, 0, 0)), vec![(0, 0)]);
    let mut img = Canvas::new(4, 4, (0, 0, 0));
    draw_line_img(&mut img, &line((0, 3), (i32::MAX, 3), (1, 1, 1)));
    assert_eq!(lit(&img, (0, 0, 0)), vec![(0, 3), (1, 3), (2, 3), (3, 3)]);
}
