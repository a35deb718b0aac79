//! A grid of colours, row-major from the top, and its plain-text form.

use vstd::prelude::*;
use vstd::string::*;
use crate::color::Color;
use crate::text::{append_decimal, decimal};

verus! {

/// What an image stands for: its dimensions and its pixels, row after row
/// from the top.
pub struct Grid {
    pub width: nat,
    pub height: nat,
    pub pixels: Seq<Color>,
}

/// The text line of one pixel: its three channels in decimal, separated by
/// one space, and a line feed.
pub open spec fn pixel_line(color: Color) -> Seq<char> {
    decimal(color.red as nat) + seq![' '] + decimal(color.green as nat) + seq![' '] + decimal(
        color.blue as nat,
    ) + seq!['\n']
}

/// The text lines of a run of pixels.
pub open spec fn pixel_lines(pixels: Seq<Color>) -> Seq<char>
    decreases pixels.len(),
{
    if pixels.len() == 0 {
        Seq::<char>::empty()
    } else {
        pixel_lines(pixels.drop_last()) + pixel_line(pixels.last())
    }
}

impl Grid {
    /// There is one pixel for each place of the grid.
    pub open spec fn wf(self) -> bool {
        self.pixels.len() == self.width * self.height
    }

    /// Column `x` and row `y` lie in the grid.
    pub open spec fn holds(self, x: int, y: int) -> bool {
        0 <= x < self.width && 0 <= y < self.height
    }

    /// The place of column `x`, row `y` among the pixels.
    pub open spec fn index(self, x: int, y: int) -> int {
        y * self.width + x
    }

    /// The pixel at column `x`, row `y`.
    pub open spec fn at(self, x: int, y: int) -> Color
        recommends
            self.wf(),
            self.holds(x, y),
    {
        self.pixels[self.index(x, y)]
    }

    /// The grid of the given dimensions with every pixel black.
    pub open spec fn black(width: nat, height: nat) -> Grid {
        Grid {
            width,
            height,
            pixels: Seq::new(width * height, |i: int| Color { red: 0, green: 0, blue: 0 }),
        }
    }

    /// The grid with the pixel at column `x`, row `y` replaced.
    pub open spec fn with(self, x: int, y: int, color: Color) -> Grid
        recommends
            self.wf(),
            self.holds(x, y),
    {
        Grid { pixels: self.pixels.update(self.index(x, y), color), ..self }
    }

    /// The plain-text form: the magic `P3`, the dimensions, the largest
    /// channel value, then one line for each pixel.
    pub open spec fn ppm(self) -> Seq<char> {
        seq!['P', '3', '\n'] + decimal(self.width) + seq![' '] + decimal(self.height) + seq![
            '\n',
            '2',
            '5',
            '5',
            '\n',
        ] + pixel_lines(self.pixels)
    }
}

/// A place of the grid has its index among the pixels, and no two places
/// share one.
pub proof fn lemma_index_in_range(grid: Grid, x: int, y: int)
    requires
        grid.wf(),
        grid.holds(x, y),
    ensures
        0 <= grid.index(x, y) < grid.pixels.len(),
        grid.index(x, y) % (grid.width as int) == x,
        grid.index(x, y) / (grid.width as int) == y,
{
    let w = grid.width as int;
    let h = grid.height as int;
    assert(0 <= y * w + x < w * h) by (nonlinear_arith)
        requires
            0 <= x < w,
            0 <= y < h,
    ;
    assert((y * w + x) % w == x && (y * w + x) / w == y) by (nonlinear_arith)
        requires
            0 <= x < w,
            0 <= y,
    ;
}

/// A grid of pixels, all black at first.
#[derive(Debug)]
pub struct Image {
    width: usize,
    height: usize,
    pixels: Vec<Color>,
}

impl View for Image {
    type V = Grid;

    closed spec fn view(&self) -> Grid {
        Grid { width: self.width as nat, height: self.height as nat, pixels: self.pixels@ }
    }
}

impl Clone for Image {
    fn clone(&self) -> (copy: Image)
        ensures
            copy@ == self@,
    {
        proof {
            use_type_invariant(self);
        }
        let mut pixels: Vec<Color> = Vec::new();
        let mut i: usize = 0;
        while i < self.pixels.len()
            invariant
                i <= self.pixels.len(),
                pixels@ == self.pixels@.take(i as int),
            decreases self.pixels.len() - i,
        {
            pixels.push(self.pixels[i]);
            assert(pixels@ =~= self.pixels@.take(i + 1));
            i += 1;
        }
        assert(pixels@ =~= self.pixels@);
        Image { width: self.width, height: self.height, pixels }
    }
}

impl Image {
    #[verifier::type_invariant]
    closed spec fn inv(self) -> bool {
        self.pixels@.len() == self.width * self.height
    }

    /// A black image of the given dimensions.
    pub fn new(width: usize, height: usize) -> (image: Image)
        requires
            width * height <= usize::MAX,
        ensures
            image@ == Grid::black(width as nat, height as nat),
            image@.wf(),
    {
        let count: usize = width * height;
        let mut pixels: Vec<Color> = Vec::new();
        let mut i: usize = 0;
        while i < count
            invariant
                i <= count,
                pixels@ == Seq::new(i as nat, |k: int| Color { red: 0, green: 0, blue: 0 }),
            decreases count - i,
        {
            pixels.push(Color::new(0, 0, 0));
            assert(pixels@ =~= Seq::new((i + 1) as nat, |k: int| Color { red: 0, green: 0, blue: 0 }));
            i += 1;
        }
        Image { width, height, pixels }
    }

    /// The dimensions: width, then height. There is one pixel for each place.
    pub fn get_dimensions(&self) -> (dimensions: (usize, usize))
        ensures
            dimensions.0 == self@.width,
            dimensions.1 == self@.height,
            self@.wf(),
    {
        proof {
            use_type_invariant(self);
        }
        (self.width, self.height)
    }

    /// The pixel at column `x`, row `y`.
    pub fn get_pixel(&self, x: usize, y: usize) -> (color: Color)
        requires
            self@.holds(x as int, y as int),
        ensures
            color == self@.at(x as int, y as int),
    {
        let count: usize = self.pixels.len();
        proof {
            use_type_invariant(self);
            lemma_index_in_range(self@, x as int, y as int);
            assert(self@.index(x as int, y as int) == y * self.width + x);
            assert(0 <= y * self.width) by (nonlinear_arith);
        }
        self.pixels[y * self.width + x]
    }

    /// Replaces the pixel at column `x`, row `y`.
    pub fn set_pixel(&mut self, x: usize, y: usize, color: Color)
        requires
            old(self)@.holds(x as int, y as int),
        ensures
            final(self)@ == old(self)@.with(x as int, y as int, color),
    {
        let count: usize = self.pixels.len();
        proof {
            use_type_invariant(&*self);
            lemma_index_in_range(self@, x as int, y as int);
            assert(self@.index(x as int, y as int) == y * self.width + x);
            assert(0 <= y * self.width) by (nonlinear_arith);
        }
        let index: usize = y * self.width + x;
        self.pixels[index] = color;
    }

    /// A cursor over the places of this image, row after row from the top.
    pub fn pixel_mut_iter(&mut self) -> (cursor: ImagePixelIter)
        ensures
            *final(self) == *old(self),
            cursor.width() == old(self)@.width,
            cursor.height() == old(self)@.height,
            cursor.position() == 0,
    {
        let count: usize = self.pixels.len();
        proof {
            use_type_invariant(&*self);
        }
        ImagePixelIter { current: 0, width: self.width, height: self.height }
    }

    /// The plain-text form of the image.
    pub fn to_ppm(&self) -> (text: String)
        ensures
            text@ == self@.ppm(),
    {
        proof {
            use_type_invariant(self);
            reveal_strlit("P3\n");
            reveal_strlit(" ");
            reveal_strlit("\n255\n");
            reveal_strlit("\n");
        }
        let mut text = String::new();
        text.append("P3\n");
        append_decimal(&mut text, self.width);
        text.append(" ");
        append_decimal(&mut text, self.height);
        text.append("\n255\n");
        let ghost header = text@;
        assert(header =~= seq!['P', '3', '\n'] + decimal(self.width as nat) + seq![' '] + decimal(
            self.height as nat,
        ) + seq!['\n', '2', '5', '5', '\n']);
        let mut i: usize = 0;
        while i < self.pixels.len()
            invariant
                i <= self.pixels.len(),
                text@ == header + pixel_lines(self.pixels@.take(i as int)),
            decreases self.pixels.len() - i,
        {
            let color = self.pixels[i];
            let ghost before = text@;
            append_decimal(&mut text, color.red as usize);
            text.append(" ");
            append_decimal(&mut text, color.green as usize);
            text.append(" ");
            append_decimal(&mut text, color.blue as usize);
            text.append("\n");
            proof {
                reveal_strlit(" ");
                reveal_strlit("\n");
                assert(" "@ =~= seq![' ']);
                assert("\n"@ =~= seq!['\n']);
                let next = self.pixels@.take(i + 1);
                assert(next.drop_last() =~= self.pixels@.take(i as int));
                assert(next.last() == color);
                assert(text@ =~= before + pixel_line(color));
                assert(text@ =~= header + pixel_lines(next));
            }
            i += 1;
        }
        assert(self.pixels@.take(i as int) =~= self.pixels@);
        text
    }
}

/// A cursor over the places of a grid, row after row from the top.
#[derive(Debug)]
pub struct ImagePixelIter {
    current: usize,
    width: usize,
    height: usize,
}

impl ImagePixelIter {
    #[verifier::type_invariant]
    closed spec fn inv(self) -> bool {
        self.width * self.height <= usize::MAX && self.current <= self.width * self.height
    }

    /// The width of the grid.
    pub closed spec fn width(&self) -> nat {
        self.width as nat
    }

    /// The height of the grid.
    pub closed spec fn height(&self) -> nat {
        self.height as nat
    }

    /// How many places the cursor has handed out.
    pub closed spec fn position(&self) -> nat {
        self.current as nat
    }

    /// The next place, as column and row, or nothing once every place was
    /// handed out.
    pub fn next(&mut self) -> (place: Option<(usize, usize)>)
        ensures
            final(self).width() == old(self).width(),
            final(self).height() == old(self).height(),
            old(self).position() < old(self).width() * old(self).height() ==> {
                &&& place == Some(
                    (
                        (old(self).position() % old(self).width()) as usize,
                        (old(self).position() / old(self).width()) as usize,
                    ),
                )
                &&& place.unwrap().0 < old(self).width()
                &&& place.unwrap().1 < old(self).height()
                &&& place.unwrap().1 * old(self).width() + place.unwrap().0 == old(self).position()
                &&& final(self).position() == old(self).position() + 1
            },
            old(self).position() >= old(self).width() * old(self).height() ==> {
                &&& place.is_none()
                &&& final(self).position() == old(self).position()
            },
    {
        proof {
            use_type_invariant(&*self);
        }
        let total: usize = self.width * self.height;
        if self.current >= total {
            return None;
        }
        assert(self.width > 0) by (nonlinear_arith)
            requires
                self.current < self.width * self.height,
        ;
        let y: usize = self.current / self.width;
        let x: usize = self.current % self.width;
        proof {
            let w = self.width as int;
            let c = self.current as int;
            assert(c == w * (c / w) + c % w && 0 <= c % w < w) by (nonlinear_arith)
                requires
                    w > 0,
                    c >= 0,
            ;
            assert(c / w < self.height) by (nonlinear_arith)
                requires
                    w > 0,
                    c >= 0,
                    c < w * self.height,
                    c == w * (c / w) + c % w,
                    0 <= c % w,
            ;
            assert((c / w) * w == w * (c / w)) by (nonlinear_arith);
        }
        self.current += 1;
        Some((x, y))
    }
}

} // verus!
