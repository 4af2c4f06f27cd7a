//! The output pixel grid and its PPM "P3" text.
use vstd::prelude::*;
use vstd::string::StringExecFns;
use crate::color::{Color, color_text};
use crate::text::{decimal, push_decimal};

verus! {

/// A grid of `height` rows of `width` pixels each. Row 0 is the bottom of
/// the image.
pub struct Window {
    pub height: usize,
    pub width: usize,
    pub pixels: Vec<Vec<Color>>,
}

/// The PPM header: magic number, dimensions and the largest channel value.
pub open spec fn header_text(width: nat, height: nat) -> Seq<char> {
    seq!['P', '3', '\n'] + decimal(width) + seq![' '] + decimal(height) + seq!['\n', '2', '5', '5', '\n']
}

/// One row of pixels: each pixel's text followed by a space.
pub open spec fn row_text(row: Seq<Color>) -> Seq<char>
    decreases row.len(),
{
    if row.len() == 0 {
        Seq::empty()
    } else {
        row_text(row.drop_last()) + color_text(row.last()) + seq![' ']
    }
}

/// The rows, last row first, each ended by a newline.
pub open spec fn rows_text(rows: Seq<Seq<Color>>) -> Seq<char>
    decreases rows.len(),
{
    if rows.len() == 0 {
        Seq::empty()
    } else {
        rows_text(rows.drop_first()) + row_text(rows.first()) + seq!['\n']
    }
}

/// The PPM text of a grid of pixels whose row 0 is the bottom of the image:
/// the header, then the rows from the top down.
pub open spec fn image_text(width: nat, height: nat, rows: Seq<Seq<Color>>) -> Seq<char> {
    header_text(width, height) + rows_text(rows)
}

impl Window {
    /// The view of the pixel grid, row by row.
    pub open spec fn rows(&self) -> Seq<Seq<Color>> {
        Seq::new(self.pixels@.len(), |j: int| self.pixels@[j]@)
    }

    /// The grid holds `height` rows of `width` pixels.
    pub open spec fn wf(&self) -> bool {
        &&& self.pixels@.len() == self.height
        &&& forall|j: int| 0 <= j < self.height ==> #[trigger] self.pixels@[j]@.len() == self.width
    }

    /// A black image of the given size.
    pub fn new(width: usize, height: usize) -> (r: Window)
        ensures
            r.wf(),
            r.width == width,
            r.height == height,
            forall|j: int, i: int|
                0 <= j < height && 0 <= i < width ==> #[trigger] r.pixels@[j]@[i] == Color::default_spec(),
    {
        let mut pixels: Vec<Vec<Color>> = Vec::new();
        let mut j: usize = 0;
        while j < height
            invariant
                j <= height,
                pixels@.len() == j,
                forall|jj: int| 0 <= jj < j ==> #[trigger] pixels@[jj]@.len() == width,
                forall|jj: int, i: int|
                    0 <= jj < j && 0 <= i < width ==> #[trigger] pixels@[jj]@[i] == Color::default_spec(),
            decreases height - j,
        {
            let mut row: Vec<Color> = Vec::new();
            let mut i: usize = 0;
            while i < width
                invariant
                    i <= width,
                    row@.len() == i,
                    forall|ii: int| 0 <= ii < i ==> #[trigger] row@[ii] == Color::default_spec(),
                decreases width - i,
            {
                row.push(Color::default());
                i = i + 1;
            }
            pixels.push(row);
            j = j + 1;
        }
        Window { width, height, pixels }
    }

    /// The image as PPM "P3" text: the header, then the rows from the last
    /// (top of the image) to the first, each pixel followed by a space and
    /// each row by a newline.
    pub fn to_ppm(&self) -> (r: String)
        ensures
            r@ == image_text(self.width as nat, self.height as nat, self.rows()),
    {
        let mut out = String::new();
        proof {
            reveal_strlit("P3\n");
            reveal_strlit(" ");
            reveal_strlit("\n255\n");
        }
        out.append("P3\n");
        push_decimal(&mut out, self.width as u64);
        out.append(" ");
        push_decimal(&mut out, self.height as u64);
        out.append("\n255\n");
        let ghost head = out@;
        assert(head =~= header_text(self.width as nat, self.height as nat));
        let n = self.pixels.len();
        let mut j: usize = n;
        while j > 0
            invariant
                j <= n,
                n == self.pixels@.len(),
                out@ == head + rows_text(self.rows().subrange(j as int, n as int)),
            decreases j,
        {
            j = j - 1;
            let row = &self.pixels[j];
            let ghost before = out@;
            let mut i: usize = 0;
            while i < row.len()
                invariant
                    i <= row@.len(),
                    out@ == before + row_text(row@.subrange(0, i as int)),
                decreases row@.len() - i,
            {
                proof {
                    reveal_strlit(" ");
                }
                row[i].push_ppm(&mut out);
                out.append(" ");
                i = i + 1;
                assert(row@.subrange(0, i as int).drop_last() =~= row@.subrange(0, i - 1));
            }
            proof {
                reveal_strlit("\n");
            }
            out.append("\n");
            proof {
                let s = self.rows().subrange(j as int, n as int);
                assert(s.drop_first() =~= self.rows().subrange(j + 1, n as int));
                assert(row@.subrange(0, row@.len() as int) =~= row@);
                assert(s.first() == row@);
            }
        }
        assert(self.rows().subrange(0, n as int) =~= self.rows());
        out
    }
}

} // verus!
