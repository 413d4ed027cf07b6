//! Rendering a path log to a raster image: the options of the image and the
//! drawing of every segment onto a canvas.
use crate::path::{segments, Color, Line, Path};
use crate::raster::{draw_line_img, is_grid, line_points, painted, visible, Canvas};
use vstd::prelude::*;

verus! {

/// A grid of `width` by `height` pixels, all `c`.
pub open spec fn filled(width: u32, height: u32, c: Color) -> Seq<Seq<Color>> {
    Seq::new(height as nat, |y: int| Seq::new(width as nat, |x: int| c))
}

/// `rows` with `line` drawn on it.
pub open spec fn with_line(rows: Seq<Seq<Color>>, line: Line, width: int, height: int) -> Seq<
    Seq<Color>,
> {
    painted(
        rows,
        visible(
            line_points(line.start.0 as int, line.start.1 as int, line.end.0 as int, line.end.1 as int),
            width,
            height,
        ),
        line.color,
    )
}

/// `rows` with every line of `lines` drawn on it, in order.
pub open spec fn with_lines(rows: Seq<Seq<Color>>, lines: Seq<Line>, width: int, height: int) -> Seq<
    Seq<Color>,
>
    decreases lines.len(),
{
    if lines.len() == 0 {
        rows
    } else {
        with_line(with_lines(rows, lines.drop_last(), width, height), lines.last(), width, height)
    }
}

/// The options for rendering a path log to an image.
pub struct PngTurtle<'a> {
    /// Width and height in pixels.
    pub size: (u32, u32),
    /// Kept as an option; drawing is aliased either way.
    pub antialias: bool,
    /// The colour that fills the image before any line is drawn.
    pub bg: Color,
    /// The log to render.
    pub path: &'a Path,
}

impl<'a> PngTurtle<'a> {
    /// The default options for `path`: 500 by 500 pixels, no antialiasing,
    /// a black background.
    pub fn new(path: &'a Path) -> (r: PngTurtle<'a>)
        ensures
            r.size == (500u32, 500u32),
            r.antialias == false,
            r.bg == (0u8, 0u8, 0u8),
            r.path == path,
    {
        PngTurtle { size: (500, 500), antialias: false, bg: (0, 0, 0), path }
    }

    /// Sets the size of the image in pixels.
    pub fn size(self, width: u32, height: u32) -> (r: PngTurtle<'a>)
        ensures
            r == (PngTurtle { size: (width, height), ..self }),
    {
        PngTurtle { size: (width, height), ..self }
    }

    /// Sets whether lines are to be antialiased.
    pub fn antialias(self, aa: bool) -> (r: PngTurtle<'a>)
        ensures
            r == (PngTurtle { antialias: aa, ..self }),
    {
        PngTurtle { antialias: aa, ..self }
    }

    /// Sets the background colour.
    pub fn background(self, r: u8, g: u8, b: u8) -> (res: PngTurtle<'a>)
        ensures
            res == (PngTurtle { bg: (r, g, b), ..self }),
    {
        PngTurtle { bg: (r, g, b), ..self }
    }

    /// The image: the background, then every segment of the log drawn on it
    /// in order.
    pub fn render(&self) -> (r: Canvas)
        requires
            3 * self.size.0 * self.size.1 <= isize::MAX,
        ensures
            r.wf(),
            r.width() == self.size.0,
            r.height() == self.size.1,
            r.pixels() == with_lines(
                filled(self.size.0, self.size.1, self.bg),
                segments(self.path@),
                self.size.0 as int,
                self.size.1 as int,
            ),
    {
        let w = self.size.0;
        let h = self.size.1;
        let mut img = Canvas::new(w, h, self.bg);
        let ghost all = segments(self.path@);
        let ghost base = filled(w, h, self.bg);
        let mut lines = self.path.lines();
        assert(all.take(0) =~= Seq::<Line>::empty());
        loop
            invariant
                img.wf(),
                w == self.size.0,
                h == self.size.1,
                base == filled(w, h, self.bg),
                img.width() == w,
                img.height() == h,
                lines.ops() == self.path@,
                lines.done() <= all.len(),
                all == segments(self.path@),
                img.pixels() == with_lines(base, all.take(lines.done() as int), w as int, h as int),
            decreases all.len() - lines.done(),
        {
            let ghost before = all.take(lines.done() as int);
            match lines.next() {
                Some(line) => {
                    draw_line_img(&mut img, &line);
                    proof {
                        let now = all.take(lines.done() as int);
                        assert(now.drop_last() =~= before);
                    }
                },
                None => {
                    assert(before =~= all);
                    return img;
                },
            }
        }
    }
}

impl Path {
    /// The default rendering options for this log.
    pub fn draw_png(&self) -> (r: PngTurtle<'_>)
        ensures
            r.size == (500u32, 500u32),
            r.antialias == false,
            r.bg == (0u8, 0u8, 0u8),
            r.path == self,
    {
        PngTurtle::new(self)
    }
}

} // verus!
