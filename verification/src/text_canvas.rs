//! A fixed-size character grid with a cursor, used only to draw the
//! expression tree for diagnostic display.

use vstd::prelude::*;

use crate::big_dec::push_char;

verus! {

/// A character grid of width x height cells, a cursor, and a high-water
/// mark of the lowest row touched.
pub struct TextCanvas {
    pub text: Vec<char>,
    pub x: usize,
    pub y: usize,
    pub width: usize,
    pub height: usize,
    pub y_max: usize,
}

/// A saved cursor position.
pub struct TextCanvasState {
    pub x: usize,
    pub y: usize,
}

/// The rows 0 to count-1 of the grid, each followed by a newline.
pub open spec fn grid_rows(text: Seq<char>, width: int, count: int) -> Seq<char>
    decreases count,
{
    if count <= 0 {
        Seq::empty()
    } else {
        grid_rows(text, width, count - 1) + text.subrange((count - 1) * width, count * width)
            + seq!['\n']
    }
}

impl TextCanvas {
    /// The cursor is inside (or just past the right edge of) the grid and
    /// the buffer holds exactly the grid.
    pub open spec fn wf(self) -> bool {
        &&& self.width >= 1
        &&& self.height >= 1
        &&& self.text@.len() == self.width * self.height
        &&& self.x <= self.width
        &&& self.y < self.height
        &&& self.y_max < self.height
    }

    /// A blank grid with the cursor in the top left corner.
    pub fn new(width: usize, height: usize) -> (r: TextCanvas)
        requires
            width >= 1,
            height >= 1,
            width * height <= usize::MAX,
        ensures
            r.wf(),
            r.width == width,
            r.height == height,
            r.x == 0,
            r.y == 0,
            r.y_max == 0,
            r.text@.len() == width * height,
            forall|k: int| 0 <= k < r.text@.len() ==> r.text@[k] == ' ',
    {
        let size = width * height;
        let mut text: Vec<char> = Vec::new();
        let mut i: usize = 0;
        while i < size
            invariant
                i <= size,
                text@.len() == i,
                forall|k: int| 0 <= k < i ==> text@[k] == ' ',
            decreases size - i,
        {
            text.push(' ');
            i = i + 1;
        }
        TextCanvas { text, x: 0, y: 0, width, height, y_max: 0 }
    }

    /// Moves the cursor one row down, clamped to the bottom row, and
    /// pushes the high-water mark along.
    pub fn down(&mut self)
        requires
            old(self).wf(),
        ensures
            final(self).wf(),
            final(self).y == if old(self).y + 1 <= old(self).height - 1 {
                old(self).y + 1
            } else {
                old(self).height - 1
            },
            final(self).y_max == if final(self).y > old(self).y_max {
                final(self).y
            } else {
                old(self).y_max
            },
            final(self).x == old(self).x,
            final(self).text == old(self).text,
            final(self).width == old(self).width,
            final(self).height == old(self).height,
    {
        let mut new_y = self.y + 1;
        if new_y > self.height - 1 {
            new_y = self.height - 1;
        }
        self.y = new_y;
        if self.y > self.y_max {
            self.y_max = self.y;
        }
    }

    /// Moves the cursor left, clamped to the left edge.
    pub fn left(&mut self, len: usize)
        requires
            old(self).wf(),
        ensures
            final(self).wf(),
            final(self).x == if len > old(self).x {
                0
            } else {
                old(self).x - len
            },
            final(self).y == old(self).y,
            final(self).y_max == old(self).y_max,
            final(self).text == old(self).text,
            final(self).width == old(self).width,
            final(self).height == old(self).height,
    {
        if len > self.x {
            self.x = 0;
        } else {
            self.x = self.x - len;
        }
    }

    /// Moves the cursor right, clamped to the last column.
    pub fn right(&mut self, len: usize)
        requires
            old(self).wf(),
            old(self).x + len <= usize::MAX,
        ensures
            final(self).wf(),
            final(self).x == if old(self).x + len <= old(self).width - 1 {
                old(self).x + len
            } else {
                old(self).width - 1
            },
            final(self).y == old(self).y,
            final(self).y_max == old(self).y_max,
            final(self).text == old(self).text,
            final(self).width == old(self).width,
            final(self).height == old(self).height,
    {
        let mut new_x = self.x + len;
        if new_x > self.width - 1 {
            new_x = self.width - 1;
        }
        self.x = new_x;
    }

    /// Writes the characters of s on the cursor's row, from the cursor's
    /// column, truncating at the right edge; the cursor stays put.
    /// Returns how many characters were written.
    pub fn do_str_fix(&mut self, s: &str) -> (r: usize)
        requires
            old(self).wf(),
        ensures
            final(self).wf(),
            r == if s@.len() <= old(self).width - old(self).x {
                s@.len() as int
            } else {
                old(self).width - old(self).x
            },
            final(self).x == old(self).x,
            final(self).y == old(self).y,
            final(self).y_max == old(self).y_max,
            final(self).width == old(self).width,
            final(self).height == old(self).height,
            final(self).text@.len() == old(self).text@.len(),
            forall|k: int|
                0 <= k < final(self).text@.len() ==> final(self).text@[k] == if old(self).y * old(
                    self,
                ).width + old(self).x <= k < old(self).y * old(self).width + old(self).x + r {
                    s@[k - (old(self).y * old(self).width + old(self).x)]
                } else {
                    old(self).text@[k]
                },
    {
        let n = s.unicode_len();
        let tl = self.text.len();
        proof {
            assert((self.y * self.width) + self.width <= self.height * self.width)
                by (nonlinear_arith)
                requires self.y < self.height, self.width >= 1;
            assert(self.width * self.height == self.height * self.width) by (nonlinear_arith);
            assert(self.y * self.width + self.width <= tl);
        }
        let offset = self.y * self.width;
        let mut i: usize = 0;
        while i < n
            invariant
                old(self).wf(),
                self.wf(),
                i <= n,
                n == s@.len(),
                offset == old(self).y * old(self).width,
                offset + old(self).width <= self.text@.len(),
                self.text@.len() <= usize::MAX,
                self.x == old(self).x,
                self.y == old(self).y,
                self.y_max == old(self).y_max,
                self.width == old(self).width,
                self.height == old(self).height,
                self.text@.len() == old(self).text@.len(),
                i <= old(self).width - old(self).x || i == 0,
                forall|k: int|
                    0 <= k < self.text@.len() ==> self.text@[k] == if offset + old(self).x <= k
                        < offset + old(self).x + i {
                        s@[k - (offset + old(self).x)]
                    } else {
                        old(self).text@[k]
                    },
            decreases n - i,
        {
            let cursor = self.x + i;
            if cursor > self.width - 1 {
                proof {
                    assert(i >= old(self).width - old(self).x);
                }
                return i;
            }
            let c = s.get_char(i);
            let ghost prev = self.text@;
            self.text[offset + cursor] = c;
            proof {
                assert(self.text@ =~= prev.update((offset + cursor) as int, c));
            }
            i = i + 1;
        }
        i
    }

    /// Writes the characters of s and advances the cursor past them.
    pub fn do_str(&mut self, s: &str) -> (r: ())
        requires
            old(self).wf(),
        ensures
            final(self).wf(),
            final(self).y == old(self).y,
            final(self).y_max == old(self).y_max,
            final(self).width == old(self).width,
            final(self).height == old(self).height,
            final(self).text@.len() == old(self).text@.len(),
    {
        let len = self.do_str_fix(s);
        self.x = self.x + len;
    }

    /// Writes s, advancing, n times over.
    pub fn do_str_n(&mut self, s: &str, n: usize)
        requires
            old(self).wf(),
        ensures
            final(self).wf(),
            final(self).y == old(self).y,
            final(self).y_max == old(self).y_max,
            final(self).width == old(self).width,
            final(self).height == old(self).height,
            final(self).text@.len() == old(self).text@.len(),
    {
        let mut i: usize = 0;
        while i < n
            invariant
                self.wf(),
                self.y == old(self).y,
                self.y_max == old(self).y_max,
                self.width == old(self).width,
                self.height == old(self).height,
                self.text@.len() == old(self).text@.len(),
            decreases n - i,
        {
            self.do_str(s);
            i = i + 1;
        }
    }

    /// The rows down to the high-water mark, each closed with a newline.
    pub fn to_string(&self) -> (r: String)
        requires
            self.wf(),
        ensures
            r@ == grid_rows(self.text@, self.width as int, self.y_max + 1),
    {
        let mut ret = String::new();
        let mut offset: usize = 0;
        let mut row: usize = 0;
        let tl = self.text.len();
        proof {
            assert((self.y_max + 1) * self.width <= self.height * self.width) by (nonlinear_arith)
                requires self.y_max < self.height, self.width >= 1;
            assert(self.width * self.height == self.height * self.width) by (nonlinear_arith);
            assert((self.y_max + 1) * self.width <= tl);
        }
        while row < self.y_max + 1
            invariant
                self.wf(),
                row <= self.y_max + 1,
                offset == row * self.width,
                (self.y_max + 1) * self.width <= self.text@.len(),
                self.text@.len() <= usize::MAX,
                ret@ == grid_rows(self.text@, self.width as int, row as int),
            decreases self.y_max + 1 - row,
        {
            proof {
                assert((row + 1) * self.width <= (self.y_max + 1) * self.width)
                    by (nonlinear_arith)
                    requires row + 1 <= self.y_max + 1, self.width >= 1;
                assert((row + 1) * self.width == row * self.width + self.width)
                    by (nonlinear_arith);
            }
            let mut j: usize = 0;
            while j < self.width
                invariant
                    self.wf(),
                    j <= self.width,
                    offset == row * self.width,
                    offset + self.width <= self.text@.len(),
                    self.text@.len() <= usize::MAX,
                    ret@ == grid_rows(self.text@, self.width as int, row as int) + self.text@
                        .subrange(offset as int, offset + j),
                decreases self.width - j,
            {
                push_char(&mut ret, self.text[offset + j]);
                proof {
                    assert(ret@ =~= grid_rows(self.text@, self.width as int, row as int)
                        + self.text@.subrange(offset as int, offset + j + 1));
                }
                j = j + 1;
            }
            push_char(&mut ret, '\n');
            proof {
                assert(ret@ =~= grid_rows(self.text@, self.width as int, row as int + 1));
            }
            offset = offset + self.width;
            row = row + 1;
        }
        ret
    }

    /// The current cursor position.
    pub fn get_state(&self) -> (r: TextCanvasState)
        ensures
            r.x == self.x,
            r.y == self.y,
    {
        TextCanvasState { x: self.x, y: self.y }
    }

    /// Restores a saved cursor position.
    pub fn set_state(&mut self, state: TextCanvasState)
        requires
            old(self).wf(),
            state.x <= old(self).width,
            state.y < old(self).height,
        ensures
            final(self).wf(),
            final(self).x == state.x,
            final(self).y == state.y,
            final(self).y_max == old(self).y_max,
            final(self).text == old(self).text,
            final(self).width == old(self).width,
            final(self).height == old(self).height,
    {
        self.x = state.x;
        self.y = state.y;
    }
}

} // verus!
