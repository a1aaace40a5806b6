//! A dense two-dimensional grid stored in row-major order.
//!
//! The grid has fixed dimensions chosen at construction time.  Reads and
//! writes come in two flavours: a safe flavour (`get`, `put`) that treats
//! every out-of-bounds coordinate as a valid input — reads yield the
//! element type's default value and writes are silently dropped — and a
//! strict flavour (`index`, `index_assign`) that reports an
//! [`IndexOutOfRange`] error carrying the offending coordinates.
//!
//! Beyond the contracts on each method, two laws are stated on their
//! own: [`lemma_coords_seq_complete`] — the iteration order visits
//! every in-bounds coordinate exactly once, row-major — and
//! [`lemma_render_round_trip`] — a rendering through a decodable cell
//! encoding splits into exactly `height` lines of `width` characters
//! and decodes back to the cells.

use vstd::prelude::*;

verus! {

/// Position of cell `(x, y)` inside the row-major backing store of a
/// grid of width `w`.
pub open spec fn cell_index(x: usize, y: usize, w: usize) -> int {
    x + y * w
}

/// Position of the character for cell `(x, y)` inside the rendering of a
/// grid of width `w`: each row holds `w` characters plus one separating
/// line break.
pub open spec fn char_pos(x: usize, y: usize, w: usize) -> int {
    y * (w + 1) + x
}

/// The coordinates of a `w` by `h` grid in row-major order:
/// `(0,0), (1,0), ..., (w-1,0), (0,1), ...`.
pub open spec fn coords_seq(w: usize, h: usize) -> Seq<(usize, usize)> {
    Seq::new(
        (w * h) as nat,
        |k: int| (((k % (w as int)) as usize, (k / (w as int)) as usize)),
    )
}

/// A cell position within the bounds lies strictly inside the backing
/// store of length `w * h`.
pub proof fn lemma_cell_index_in_range(x: usize, y: usize, w: usize, h: usize)
    by (nonlinear_arith)
    requires
        x < w,
        y < h,
    ensures
        0 <= cell_index(x, y, w) < w * h,
        y * w <= (h - 1) * w,
{
}

/// Distinct in-bounds cell positions occupy distinct places in the
/// backing store: the row-major index is injective.
pub proof fn lemma_cell_index_injective(x1: usize, y1: usize, x2: usize, y2: usize, w: usize)
    by (nonlinear_arith)
    requires
        x1 < w,
        x2 < w,
        cell_index(x1, y1, w) == cell_index(x2, y2, w),
    ensures
        x1 == x2 && y1 == y2,
{
}

/// Error raised by the strict accessors: the offending coordinates
/// together with the grid's dimensions, for diagnostics.
#[derive(Clone, Copy, Debug, PartialEq, Eq, Structural)]
pub struct IndexOutOfRange {
    pub x: usize,
    pub y: usize,
    pub width: usize,
    pub height: usize,
}

/// A fixed-size two-dimensional grid of `T`, stored row-major.
#[derive(Clone, Eq, PartialEq, Hash)]
pub struct Array2d<T> {
    data: Vec<T>,
    width: usize,
    height: usize,
}

impl<T> Array2d<T> {
    /// The backing store, row by row.
    pub closed spec fn cells(self) -> Seq<T> {
        self.data@
    }

    /// The width fixed at construction time.
    pub closed spec fn spec_width(self) -> usize {
        self.width
    }

    /// The height fixed at construction time.
    pub closed spec fn spec_height(self) -> usize {
        self.height
    }

    /// The grid's structural invariant: the backing store holds exactly
    /// `width * height` cells.  Every constructor establishes it and
    /// every method preserves it.
    pub open spec fn wf(self) -> bool {
        &&& self.cells().len() == self.spec_width() * self.spec_height()
        &&& self.spec_width() * self.spec_height() <= usize::MAX
    }

    /// `(x, y)` addresses a stored cell.
    pub open spec fn in_bounds(self, x: usize, y: usize) -> bool {
        x < self.spec_width() && y < self.spec_height()
    }

    /// The stored value of the in-bounds cell `(x, y)`.
    pub open spec fn spec_get(self, x: usize, y: usize) -> T {
        self.cells()[cell_index(x, y, self.spec_width())]
    }

    /// Builds a grid by calling the generator once per cell, rows in
    /// ascending `y` order and cells within a row in ascending `x`
    /// order, so that cell `(x, y)` holds `f(x, y)`.
    pub fn new_with<F: Fn(usize, usize) -> T>(width: usize, height: usize, f: F) -> (r: Self)
        requires
            width * height <= usize::MAX,
            forall|x: usize, y: usize|
                x < width && y < height ==> #[trigger] call_requires(f, (x, y)),
        ensures
            r.wf(),
            r.spec_width() == width,
            r.spec_height() == height,
            forall|x: usize, y: usize|
                x < width && y < height ==> call_ensures(f, (x, y), #[trigger] r.spec_get(x, y)),
    {
        let mut data: Vec<T> = Vec::with_capacity(width * height);
        let mut y: usize = 0;
        while y < height
            invariant
                y <= height,
                width * height <= usize::MAX,
                forall|x2: usize, y2: usize|
                    x2 < width && y2 < height ==> #[trigger] call_requires(f, (x2, y2)),
                data@.len() == y * width,
                forall|x2: usize, y2: usize|
                    x2 < width && y2 < y ==> call_ensures(
                        f,
                        (x2, y2),
                        #[trigger] data@[cell_index(x2, y2, width)],
                    ),
            decreases height - y,
        {
            let mut x: usize = 0;
            proof {
                if y + 1 <= height {
                    lemma_row_bound(width, height, y);
                }
            }
            while x < width
                invariant
                    x <= width,
                    y < height,
                    width * height <= usize::MAX,
                    (y + 1) * width <= width * height,
                    forall|x2: usize, y2: usize|
                        x2 < width && y2 < height ==> #[trigger] call_requires(f, (x2, y2)),
                    data@.len() == y * width + x,
                    forall|x2: usize, y2: usize|
                        x2 < width && y2 < y ==> call_ensures(
                            f,
                            (x2, y2),
                            #[trigger] data@[cell_index(x2, y2, width)],
                        ),
                    forall|x2: usize|
                        x2 < x ==> call_ensures(
                            f,
                            (x2, y),
                            #[trigger] data@[cell_index(x2, y, width)],
                        ),
                decreases width - x,
            {
                let v = f(x, y);
                data.push(v);
                proof {
                    assert forall|x2: usize, y2: usize| x2 < width && y2 < y implies 0
                        <= #[trigger] cell_index(x2, y2, width) < width * y by {
                        lemma_cell_index_in_range(x2, y2, width, y);
                    }
                    assert(width * y == y * width) by (nonlinear_arith);
                }
                x = x + 1;
            }
            y = y + 1;
        }
        proof {
            assert(data@.len() == height * width);
        }
        let r = Array2d { data, width, height };
        proof {
            assert forall|x2: usize, y2: usize| x2 < width && y2 < height implies call_ensures(
                f,
                (x2, y2),
                #[trigger] r.spec_get(x2, y2),
            ) by {
                lemma_cell_index_in_range(x2, y2, width, height);
            }
        }
        r
    }

    /// Builds a grid with every cell holding a copy of `v`.
    pub fn new_value(width: usize, height: usize, v: T) -> (r: Self) where T: Copy
        requires
            width * height <= usize::MAX,
        ensures
            r.wf(),
            r.spec_width() == width,
            r.spec_height() == height,
            forall|x: usize, y: usize|
                x < width && y < height ==> #[trigger] r.spec_get(x, y) == v,
    {
        let g = |x: usize, y: usize| -> (c: T)
            ensures
                c == v,
            { v };
        Self::new_with(width, height, g)
    }

    /// Builds a grid with every cell holding the element type's default
    /// value: all cells are equal, and each satisfies the contract of
    /// `T::default`.
    pub fn new(width: usize, height: usize) -> (r: Self) where T: Default + Copy
        requires
            width * height <= usize::MAX,
        ensures
            r.wf(),
            r.spec_width() == width,
            r.spec_height() == height,
            forall|x: usize, y: usize|
                x < width && y < height ==> call_ensures(
                    T::default,
                    (),
                    #[trigger] r.spec_get(x, y),
                ),
            forall|x1: usize, y1: usize, x2: usize, y2: usize|
                x1 < width && y1 < height && x2 < width && y2 < height
                    ==> #[trigger] r.spec_get(x1, y1) == #[trigger] r.spec_get(x2, y2),
    {
        Self::new_value(width, height, T::default())
    }

    /// Safe read: the stored value in bounds, the default value of `T`
    /// out of bounds.  Never fails.
    pub fn get(&self, x: usize, y: usize) -> (r: T) where T: Default + Copy
        requires
            self.wf(),
        ensures
            self.in_bounds(x, y) ==> r == self.spec_get(x, y),
            !self.in_bounds(x, y) ==> call_ensures(T::default, (), r),
    {
        if x < self.width && y < self.height {
            proof {
                lemma_cell_index_in_range(x, y, self.width, self.height);
            }
            self.data[x + y * self.width]
        } else {
            T::default()
        }
    }

    /// Checked read: `Some` of a reference to the stored value in
    /// bounds, `None` out of bounds.
    pub fn get_opt(&self, x: usize, y: usize) -> (r: Option<&T>)
        requires
            self.wf(),
        ensures
            r.is_some() <==> self.in_bounds(x, y),
            r matches Some(v) ==> *v == self.spec_get(x, y),
    {
        if x < self.width && y < self.height {
            proof {
                lemma_cell_index_in_range(x, y, self.width, self.height);
            }
            Some(&self.data[x + y * self.width])
        } else {
            None
        }
    }

    /// Safe write: overwrites the cell in bounds, silently does nothing
    /// out of bounds.  Never fails, and never touches any other cell.
    pub fn put(&mut self, x: usize, y: usize, v: T)
        requires
            old(self).wf(),
        ensures
            final(self).wf(),
            final(self).spec_width() == old(self).spec_width(),
            final(self).spec_height() == old(self).spec_height(),
            old(self).in_bounds(x, y) ==> final(self).cells() == old(self).cells().update(
                cell_index(x, y, old(self).spec_width()),
                v,
            ),
            old(self).in_bounds(x, y) ==> final(self).spec_get(x, y) == v,
            !old(self).in_bounds(x, y) ==> final(self).cells() == old(self).cells(),
            forall|x2: usize, y2: usize|
                old(self).in_bounds(x2, y2) && !(x2 == x && y2 == y)
                    ==> final(self).spec_get(x2, y2) == old(self).spec_get(x2, y2),
    {
        if x < self.width && y < self.height {
            proof {
                lemma_cell_index_in_range(x, y, self.width, self.height);
            }
            self.data[x + y * self.width] = v;
            proof {
                assert forall|x2: usize, y2: usize|
                    self.in_bounds(x2, y2) && !(x2 == x && y2 == y) implies self.spec_get(x2, y2)
                    == old(self).spec_get(x2, y2) by {
                    lemma_cell_index_in_range(x2, y2, self.width, self.height);
                    if cell_index(x2, y2, self.width) == cell_index(x, y, self.width) {
                        lemma_cell_index_injective(x2, y2, x, y, self.width);
                    }
                }
            }
        }
    }

    /// The width fixed at construction time.
    pub fn width(&self) -> (r: usize)
        ensures
            r == self.spec_width(),
    {
        self.width
    }

    /// The height fixed at construction time.
    pub fn height(&self) -> (r: usize)
        ensures
            r == self.spec_height(),
    {
        self.height
    }

    /// Overwrites every cell with a copy of `v`.
    pub fn fill(&mut self, v: T) where T: Copy
        requires
            old(self).wf(),
        ensures
            final(self).wf(),
            final(self).spec_width() == old(self).spec_width(),
            final(self).spec_height() == old(self).spec_height(),
            forall|x: usize, y: usize|
                old(self).in_bounds(x, y) ==> #[trigger] final(self).spec_get(x, y) == v,
    {
        let n = self.data.len();
        let mut i: usize = 0;
        while i < n
            invariant
                n == self.data@.len(),
                self.width == old(self).spec_width(),
                self.height == old(self).spec_height(),
                self.wf(),
                i <= n,
                forall|k: int| 0 <= k < i ==> self.data@[k] == v,
            decreases n - i,
        {
            self.data[i] = v;
            i = i + 1;
        }
        proof {
            assert forall|x: usize, y: usize| old(self).in_bounds(x, y) implies #[trigger] self
                .spec_get(x, y) == v by {
                lemma_cell_index_in_range(x, y, self.width, self.height);
            }
        }
    }

    /// Overwrites every cell via the generator, rows in ascending `y`
    /// order and cells within a row in ascending `x` order, so that
    /// cell `(x, y)` ends up holding `f(x, y)`.
    pub fn fill_with<F: Fn(usize, usize) -> T>(&mut self, f: F)
        requires
            old(self).wf(),
            forall|x: usize, y: usize|
                old(self).in_bounds(x, y) ==> #[trigger] call_requires(f, (x, y)),
        ensures
            final(self).wf(),
            final(self).spec_width() == old(self).spec_width(),
            final(self).spec_height() == old(self).spec_height(),
            forall|x: usize, y: usize|
                old(self).in_bounds(x, y) ==> call_ensures(
                    f,
                    (x, y),
                    #[trigger] final(self).spec_get(x, y),
                ),
    {
        let width = self.width;
        let height = self.height;
        let mut y: usize = 0;
        while y < height
            invariant
                y <= height,
                width == self.width == old(self).spec_width(),
                height == self.height == old(self).spec_height(),
                self.wf(),
                forall|x2: usize, y2: usize|
                    x2 < width && y2 < height ==> #[trigger] call_requires(f, (x2, y2)),
                forall|x2: usize, y2: usize|
                    x2 < width && y2 < y ==> call_ensures(
                        f,
                        (x2, y2),
                        #[trigger] self.spec_get(x2, y2),
                    ),
            decreases height - y,
        {
            let mut x: usize = 0;
            while x < width
                invariant
                    x <= width,
                    y < height,
                    width == self.width == old(self).spec_width(),
                    height == self.height == old(self).spec_height(),
                    self.wf(),
                    forall|x2: usize, y2: usize|
                        x2 < width && y2 < height ==> #[trigger] call_requires(f, (x2, y2)),
                    forall|x2: usize, y2: usize|
                        x2 < width && y2 < y ==> call_ensures(
                            f,
                            (x2, y2),
                            #[trigger] self.spec_get(x2, y2),
                        ),
                    forall|x2: usize|
                        x2 < x ==> call_ensures(f, (x2, y), #[trigger] self.spec_get(x2, y)),
                decreases width - x,
            {
                let v = f(x, y);
                let ghost prev = *self;
                proof {
                    lemma_cell_index_in_range(x, y, width, height);
                }
                self.data[x + y * width] = v;
                proof {
                    assert forall|x2: usize, y2: usize|
                        x2 < width && (y2 < y || (y2 == y && x2 <= x)) implies call_ensures(
                        f,
                        (x2, y2),
                        #[trigger] self.spec_get(x2, y2),
                    ) by {
                        lemma_cell_index_in_range(x2, y2, width, height);
                        if x2 == x && y2 == y {
                            assert(self.spec_get(x2, y2) == v);
                        } else {
                            if cell_index(x2, y2, width) == cell_index(x, y, width) {
                                lemma_cell_index_injective(x2, y2, x, y, width);
                            }
                            assert(self.spec_get(x2, y2) == prev.spec_get(x2, y2));
                        }
                    }
                }
                x = x + 1;
            }
            y = y + 1;
        }
    }
}

/// A full row ends no later than the backing store: row `y`'s last cell
/// is below `(y + 1) * w <= w * h`.
proof fn lemma_row_bound(w: usize, h: usize, y: usize)
    by (nonlinear_arith)
    requires
        y < h,
    ensures
        y * w + w == (y + 1) * w,
        (y + 1) * w <= w * h,
        y * w <= w * h,
{
}

impl<T> Array2d<T> {
    /// A cursor over all coordinates of the grid, starting at `(0, 0)`.
    /// A fresh call always restarts from the beginning; the cursor
    /// yields the full row-major coordinate sequence of the grid.
    pub fn iter_xy(&self) -> (r: IterXY)
        ensures
            r.wf(),
            r.spec_w() == self.spec_width(),
            r.spec_h() == self.spec_height(),
            r.remaining() == coords_seq(self.spec_width(), self.spec_height()),
    {
        let r = IterXY { x: 0, y: 0, w: self.width, h: self.height };
        proof {
            assert(r.remaining() =~= coords_seq(self.spec_width(), self.spec_height()));
        }
        r
    }

    /// Strict read: the stored value in bounds, an [`IndexOutOfRange`]
    /// error naming the offending coordinates otherwise.
    pub fn index(&self, x: usize, y: usize) -> (r: Result<T, IndexOutOfRange>) where T: Copy
        requires
            self.wf(),
        ensures
            self.in_bounds(x, y) ==> r == Ok::<T, IndexOutOfRange>(self.spec_get(x, y)),
            !self.in_bounds(x, y) ==> r == Err::<T, IndexOutOfRange>(
                IndexOutOfRange {
                    x,
                    y,
                    width: self.spec_width(),
                    height: self.spec_height(),
                },
            ),
    {
        if x < self.width && y < self.height {
            proof {
                lemma_cell_index_in_range(x, y, self.width, self.height);
            }
            Ok(self.data[x + y * self.width])
        } else {
            Err(IndexOutOfRange { x, y, width: self.width, height: self.height })
        }
    }

    /// Strict write: overwrites the cell in bounds, reports an
    /// [`IndexOutOfRange`] error — and leaves the grid untouched —
    /// otherwise.
    pub fn index_assign(&mut self, x: usize, y: usize, v: T) -> (r: Result<(), IndexOutOfRange>)
        requires
            old(self).wf(),
        ensures
            final(self).wf(),
            final(self).spec_width() == old(self).spec_width(),
            final(self).spec_height() == old(self).spec_height(),
            old(self).in_bounds(x, y) ==> r == Ok::<(), IndexOutOfRange>(())
                && final(self).cells() == old(self).cells().update(
                cell_index(x, y, old(self).spec_width()),
                v,
            ),
            old(self).in_bounds(x, y) ==> final(self).spec_get(x, y) == v,
            !old(self).in_bounds(x, y) ==> r == Err::<(), IndexOutOfRange>(
                IndexOutOfRange {
                    x,
                    y,
                    width: old(self).spec_width(),
                    height: old(self).spec_height(),
                },
            ) && *final(self) == *old(self),
            forall|x2: usize, y2: usize|
                old(self).in_bounds(x2, y2) && !(x2 == x && y2 == y)
                    ==> final(self).spec_get(x2, y2) == old(self).spec_get(x2, y2),
    {
        if x < self.width && y < self.height {
            proof {
                lemma_cell_index_in_range(x, y, self.width, self.height);
            }
            self.data[x + y * self.width] = v;
            proof {
                assert forall|x2: usize, y2: usize|
                    self.in_bounds(x2, y2) && !(x2 == x && y2 == y) implies self.spec_get(x2, y2)
                    == old(self).spec_get(x2, y2) by {
                    lemma_cell_index_in_range(x2, y2, self.width, self.height);
                    if cell_index(x2, y2, self.width) == cell_index(x, y, self.width) {
                        lemma_cell_index_injective(x2, y2, x, y, self.width);
                    }
                }
            }
            Ok(())
        } else {
            Err(IndexOutOfRange { x, y, width: self.width, height: self.height })
        }
    }

    /// Renders the grid as text: one character per cell via `f`, rows
    /// in ascending `y` order, cells within a row in ascending `x`
    /// order, rows separated by a single `'\n'` with no leading or
    /// trailing line break.  A grid without rows — in particular the
    /// `0` by `0` grid — renders as the empty string.
    pub fn to_string<F: Fn(&T) -> char>(&self, f: F) -> (r: String)
        requires
            self.wf(),
            forall|x: usize, y: usize|
                self.in_bounds(x, y) ==> #[trigger] call_requires(f, (&self.spec_get(x, y),)),
        ensures
            self.spec_height() == 0 ==> r@.len() == 0,
            self.spec_height() > 0 ==> r@.len() == self.spec_height() * (self.spec_width() + 1)
                - 1,
            forall|y: usize|
                y + 1 < self.spec_height() ==> r@[#[trigger] char_pos(
                    self.spec_width(),
                    y,
                    self.spec_width(),
                )] == '\n',
            forall|x: usize, y: usize|
                self.in_bounds(x, y) ==> call_ensures(
                    f,
                    (&self.spec_get(x, y),),
                    r@[#[trigger] char_pos(x, y, self.spec_width())],
                ),
    {
        let width = self.width;
        let height = self.height;
        let mut s = String::new();
        let mut y: usize = 0;
        while y < height
            invariant
                y <= height,
                width == self.spec_width(),
                height == self.spec_height(),
                self.wf(),
                forall|x2: usize, y2: usize|
                    self.in_bounds(x2, y2) ==> #[trigger] call_requires(
                        f,
                        (&self.spec_get(x2, y2),),
                    ),
                s@.len() == if y == 0 {
                    0int
                } else {
                    y * (width + 1) - 1
                },
                forall|y2: usize|
                    y2 + 1 < y ==> s@[#[trigger] char_pos(width, y2, width)] == '\n',
                forall|x2: usize, y2: usize|
                    x2 < width && y2 < y ==> call_ensures(
                        f,
                        (&self.spec_get(x2, y2),),
                        s@[#[trigger] char_pos(x2, y2, width)],
                    ),
            decreases height - y,
        {
            proof {
                lemma_char_row_bound(width, height, y);
            }
            if y > 0 {
                let ghost row_s = s@;
                crate::text::push_char(&mut s, '\n');
                proof {
                    lemma_char_row_bound(width, height, (y - 1) as usize);
                    assert(char_pos(width, (y - 1) as usize, width) == s@.len() - 1);
                    assert(s@[char_pos(width, (y - 1) as usize, width)] == '\n');
                    assert forall|y2: usize| y2 + 1 < y implies s@[#[trigger] char_pos(
                        width,
                        y2,
                        width,
                    )] == '\n' by {
                        lemma_char_pos_mono(width, y2, (y - 1) as usize);
                        assert(s@[char_pos(width, y2, width)] == row_s[char_pos(
                            width,
                            y2,
                            width,
                        )]);
                    }
                    assert forall|x2: usize, y2: usize| x2 < width && y2 + 1 <= y - 1 implies
                        call_ensures(
                        f,
                        (&self.spec_get(x2, y2),),
                        s@[#[trigger] char_pos(x2, y2, width)],
                    ) by {
                        lemma_char_pos_mono(width, y2, (y - 1) as usize);
                        assert(s@[char_pos(x2, y2, width)] == row_s[char_pos(x2, y2, width)]);
                    }
                }
            }
            let mut x: usize = 0;
            while x < width
                invariant
                    x <= width,
                    y < height,
                    width == self.spec_width(),
                    height == self.spec_height(),
                    self.wf(),
                    forall|x2: usize, y2: usize|
                        self.in_bounds(x2, y2) ==> #[trigger] call_requires(
                            f,
                            (&self.spec_get(x2, y2),),
                        ),
                    s@.len() == char_pos(x, y, width),
                    forall|y2: usize|
                        y2 + 1 < y || (y2 + 1 == y) ==> s@[#[trigger] char_pos(width, y2, width)]
                            == '\n',
                    forall|x2: usize, y2: usize|
                        x2 < width && (y2 < y || (y2 == y && x2 < x)) ==> call_ensures(
                            f,
                            (&self.spec_get(x2, y2),),
                            s@[#[trigger] char_pos(x2, y2, width)],
                        ),
                decreases width - x,
            {
                proof {
                    lemma_cell_index_in_range(x, y, width, height);
                    assert(call_requires(f, (&self.spec_get(x, y),)));
                }
                let c = f(&self.data[x + y * width]);
                let ghost prev_s = s@;
                crate::text::push_char(&mut s, c);
                proof {
                    assert forall|y2: usize| y2 + 1 <= y implies s@[#[trigger] char_pos(
                        width,
                        y2,
                        width,
                    )] == '\n' by {
                        lemma_char_pos_mono(width, y2, y);
                        assert(s@[char_pos(width, y2, width)] == prev_s[char_pos(
                            width,
                            y2,
                            width,
                        )]);
                    }
                    assert forall|x2: usize, y2: usize|
                        x2 < width && (y2 < y || (y2 == y && x2 <= x)) implies call_ensures(
                        f,
                        (&self.spec_get(x2, y2),),
                        s@[#[trigger] char_pos(x2, y2, width)],
                    ) by {
                        if x2 == x && y2 == y {
                            assert(s@[char_pos(x, y, width)] == c);
                        } else {
                            if y2 < y {
                                lemma_char_pos_mono(width, y2, y);
                            }
                            assert(s@[char_pos(x2, y2, width)] == prev_s[char_pos(
                                x2,
                                y2,
                                width,
                            )]);
                        }
                    }
                }
                x = x + 1;
            }
            y = y + 1;
        }
        s
    }
}

/// Every character position of row `y1` lies strictly before the start
/// of a later row `y2`.
proof fn lemma_char_pos_mono(w: usize, y1: usize, y2: usize)
    by (nonlinear_arith)
    requires
        y1 < y2,
    ensures
        char_pos(w, y1, w) + 1 == (y1 + 1) * (w + 1),
        (y1 + 1) * (w + 1) <= y2 * (w + 1),
        char_pos(0, y2, w) == y2 * (w + 1),
        0 <= char_pos(0, y1, w),
{
}

/// Character positions of row `y` stay below the length of the full
/// rendering.
proof fn lemma_char_row_bound(w: usize, h: usize, y: usize)
    by (nonlinear_arith)
    requires
        y < h,
    ensures
        y * (w + 1) + w + 1 == (y + 1) * (w + 1),
        (y + 1) * (w + 1) <= h * (w + 1),
        0 <= y * (w + 1),
        y > 0 ==> w + 1 <= y * (w + 1),
{
}

/// The coordinate cursor handed out by [`Array2d::iter_xy`].
///
/// `next` yields every coordinate of a `w` by `h` grid exactly once, in
/// row-major order — ascending `y`, and ascending `x` within a row —
/// and then yields nothing.
pub struct IterXY {
    x: usize,
    y: usize,
    w: usize,
    h: usize,
}

impl IterXY {
    /// The next column to yield.
    pub closed spec fn spec_x(self) -> usize {
        self.x
    }

    /// The next row to yield.
    pub closed spec fn spec_y(self) -> usize {
        self.y
    }

    /// The width of the grid being iterated.
    pub closed spec fn spec_w(self) -> usize {
        self.w
    }

    /// The height of the grid being iterated.
    pub closed spec fn spec_h(self) -> usize {
        self.h
    }

    /// Structural invariant of the cursor: it sits on a coordinate of
    /// the grid, or one past the last row with the column reset.
    pub open spec fn wf(self) -> bool {
        if self.spec_w() == 0 {
            self.spec_x() == 0 && self.spec_y() == 0
        } else {
            &&& self.spec_x() < self.spec_w()
            &&& self.spec_y() <= self.spec_h()
            &&& (self.spec_y() == self.spec_h() ==> self.spec_x() == 0)
        }
    }

    /// How many coordinates have been yielded so far.
    pub open spec fn pos(self) -> int {
        cell_index(self.spec_x(), self.spec_y(), self.spec_w())
    }

    /// The coordinates still to be yielded, in order.
    pub open spec fn remaining(self) -> Seq<(usize, usize)> {
        coords_seq(self.spec_w(), self.spec_h()).skip(self.pos())
    }

    /// Yields the next coordinate in row-major order, or `None` once
    /// every coordinate of the grid has been yielded.
    pub fn next(&mut self) -> (r: Option<(usize, usize)>)
        requires
            old(self).wf(),
        ensures
            final(self).wf(),
            final(self).spec_w() == old(self).spec_w(),
            final(self).spec_h() == old(self).spec_h(),
            old(self).remaining().len() == 0 ==> r == None::<(usize, usize)> && *final(self)
                == *old(self),
            old(self).remaining().len() > 0 ==> r == Some(old(self).remaining()[0])
                && final(self).remaining() == old(self).remaining().skip(1),
    {
        if self.y < self.h && self.x < self.w {
            let rx = self.x;
            let ry = self.y;
            proof {
                lemma_cell_index_in_range(rx, ry, self.w, self.h);
                vstd::arithmetic::div_mod::lemma_fundamental_div_mod_converse(
                    self.pos(),
                    self.w as int,
                    ry as int,
                    rx as int,
                );
                assert((self.w as int) * (ry as int) == (ry as int) * (self.w as int))
                    by (nonlinear_arith);
                assert(old(self).remaining()[0] == (rx, ry));
            }
            self.x = self.x + 1;
            if self.x == self.w {
                self.x = 0;
                self.y = self.y + 1;
                proof {
                    assert((ry + 1) * (self.w as int) == ry * (self.w as int) + self.w)
                        by (nonlinear_arith);
                }
            }
            proof {
                lemma_row_bound(self.w, self.h, ry);
                assert(self.pos() == old(self).pos() + 1);
                assert(self.remaining() =~= old(self).remaining().skip(1));
            }
            Some((rx, ry))
        } else {
            proof {
                if self.w == 0 || self.h == 0 {
                    assert((self.w as int) * (self.h as int) == 0) by (nonlinear_arith)
                        requires
                            self.w == 0 || self.h == 0,
                    ;
                    assert(coords_seq(self.spec_w(), self.spec_h()).len() == 0);
                } else {
                    assert(self.spec_y() == self.spec_h() && self.spec_x() == 0);
                    assert(self.pos() == self.spec_h() * self.spec_w());
                    assert((self.h as int) * (self.w as int) == (self.w as int) * (self.h as int))
                        by (nonlinear_arith);
                }
            }
            None
        }
    }
}

/// The row-major coordinate sequence of a `w` by `h` grid contains
/// every in-bounds coordinate exactly once — cell `(x, y)` appears at
/// position `x + y*w` and nowhere else — ordered by ascending `y` and,
/// within a row, ascending `x`.
pub proof fn lemma_coords_seq_complete(w: usize, h: usize)
    ensures
        coords_seq(w, h).len() == w * h,
        forall|k: int|
            0 <= k < coords_seq(w, h).len() ==> (#[trigger] coords_seq(w, h)[k]).0 < w
                && coords_seq(w, h)[k].1 < h,
        forall|x: usize, y: usize|
            x < w && y < h ==> coords_seq(w, h)[#[trigger] cell_index(x, y, w)] == (x, y),
        forall|k1: int, k2: int|
            0 <= k1 < k2 < coords_seq(w, h).len() ==> ((#[trigger] coords_seq(w, h)[k1]).1
                < (#[trigger] coords_seq(w, h)[k2]).1 || (coords_seq(w, h)[k1].1 == coords_seq(
                w,
                h,
            )[k2].1 && coords_seq(w, h)[k1].0 < coords_seq(w, h)[k2].0)),
        forall|k1: int, k2: int|
            0 <= k1 < k2 < coords_seq(w, h).len() ==> #[trigger] coords_seq(w, h)[k1]
                != #[trigger] coords_seq(w, h)[k2],
{
    assert forall|k: int| 0 <= k < coords_seq(w, h).len() implies (#[trigger] coords_seq(w, h)[k]).0
        < w && coords_seq(w, h)[k].1 < h by {
        lemma_coord_at(w, h, k);
    }
    assert forall|x: usize, y: usize| x < w && y < h implies coords_seq(w, h)[#[trigger] cell_index(
        x,
        y,
        w,
    )] == (x, y) by {
        lemma_cell_index_in_range(x, y, w, h);
        vstd::arithmetic::div_mod::lemma_fundamental_div_mod_converse(
            cell_index(x, y, w),
            w as int,
            y as int,
            x as int,
        );
        assert((w as int) * (y as int) == (y as int) * (w as int)) by (nonlinear_arith);
    }
    assert forall|k1: int, k2: int| 0 <= k1 < k2 < coords_seq(w, h).len() implies ((
    #[trigger] coords_seq(w, h)[k1]).1 < (#[trigger] coords_seq(w, h)[k2]).1 || (coords_seq(
        w,
        h,
    )[k1].1 == coords_seq(w, h)[k2].1 && coords_seq(w, h)[k1].0 < coords_seq(w, h)[k2].0)) by {
        lemma_coord_at(w, h, k1);
        lemma_coord_at(w, h, k2);
        vstd::arithmetic::div_mod::lemma_div_is_ordered(k1, k2, w as int);
        if k1 / (w as int) == k2 / (w as int) {
            vstd::arithmetic::div_mod::lemma_fundamental_div_mod(k1, w as int);
            vstd::arithmetic::div_mod::lemma_fundamental_div_mod(k2, w as int);
        }
    }
}

/// Render round trip: in a rendering whose cell characters decode back
/// to the cells they encode, and never collide with the line break,
/// the breaks sit exactly at every `(w+1)`-th position — so the text
/// splits into `h` lines of `w` characters — and decoding the
/// character at column `x` of line `y` recovers cell `(x, y)`.
///
/// The `requires` are exactly the shape [`Array2d::to_string`]
/// guarantees when `f` behaves as `enc` on the grid's cells.
pub proof fn lemma_render_round_trip<T>(
    g: Array2d<T>,
    s: Seq<char>,
    enc: spec_fn(T) -> char,
    dec: spec_fn(char) -> T,
)
    requires
        g.wf(),
        g.spec_height() > 0,
        s.len() == g.spec_height() * (g.spec_width() + 1) - 1,
        forall|y: usize|
            y + 1 < g.spec_height() ==> s[#[trigger] char_pos(
                g.spec_width(),
                y,
                g.spec_width(),
            )] == '\n',
        forall|x: usize, y: usize|
            g.in_bounds(x, y) ==> s[#[trigger] char_pos(x, y, g.spec_width())] == enc(
                g.spec_get(x, y),
            ),
        forall|x: usize, y: usize| g.in_bounds(x, y) ==> enc(#[trigger] g.spec_get(x, y)) != '\n',
        forall|x: usize, y: usize|
            g.in_bounds(x, y) ==> dec(enc(#[trigger] g.spec_get(x, y))) == g.spec_get(x, y),
    ensures
        forall|i: int|
            0 <= i < s.len() ==> (s[i] == '\n' <==> (i + 1) % (g.spec_width() as int + 1) == 0),
        forall|x: usize, y: usize|
            g.in_bounds(x, y) ==> dec(s[#[trigger] char_pos(x, y, g.spec_width())]) == g.spec_get(
                x,
                y,
            ),
{
    let w = g.spec_width() as int;
    let h = g.spec_height() as int;
    assert forall|i: int| 0 <= i < s.len() implies (s[i] == '\n' <==> (i + 1) % (w + 1) == 0) by {
        let q = i / (w + 1);
        let r = i % (w + 1);
        vstd::arithmetic::div_mod::lemma_fundamental_div_mod(i, w + 1);
        vstd::arithmetic::div_mod::lemma_mod_division_less_than_divisor(i, w + 1);
        vstd::arithmetic::div_mod::lemma_div_pos_is_pos(i, w + 1);
        assert(q < h) by (nonlinear_arith)
            requires
                i == (w + 1) * q + r,
                0 <= r <= w,
                0 <= q,
                i < h * (w + 1) - 1,
        ;
        if r == w {
            assert((i + 1) == (q + 1) * (w + 1)) by (nonlinear_arith)
                requires
                    i == (w + 1) * q + r,
                    r == w,
            ;
            vstd::arithmetic::div_mod::lemma_mod_multiples_basic(q + 1, w + 1);
            assert(q + 1 < h) by (nonlinear_arith)
                requires
                    i + 1 == (q + 1) * (w + 1),
                    i + 1 <= h * (w + 1) - 1,
                    w + 1 > 0,
            ;
            assert((w + 1) * q == q * (w + 1)) by (nonlinear_arith);
            assert(i == char_pos(w as usize, q as usize, g.spec_width()));
            assert(s[i] == '\n');
        } else {
            assert((w + 1) * q == q * (w + 1)) by (nonlinear_arith);
            assert(i == char_pos(r as usize, q as usize, g.spec_width()));
            assert(g.in_bounds(r as usize, q as usize));
            assert(s[i] == enc(g.spec_get(r as usize, q as usize)));
            assert(s[i] != '\n');
            vstd::arithmetic::div_mod::lemma_fundamental_div_mod_converse(
                i + 1,
                w + 1,
                q,
                r + 1,
            );
            assert((i + 1) % (w + 1) == r + 1);
        }
    }
}

/// Position `k` of the coordinate sequence decomposes as
/// `(k % w, k / w)`, an in-bounds coordinate.
proof fn lemma_coord_at(w: usize, h: usize, k: int)
    requires
        0 <= k < coords_seq(w, h).len(),
    ensures
        coords_seq(w, h)[k] == (((k % (w as int)) as usize, (k / (w as int)) as usize)),
        0 <= k % (w as int) < w,
        0 <= k / (w as int) < h,
        k == (k / (w as int)) * (w as int) + k % (w as int),
{
    assert(w > 0 && h > 0) by {
        if w == 0 || h == 0 {
            assert((w as int) * (h as int) == 0) by (nonlinear_arith)
                requires
                    w == 0 || h == 0,
            ;
            assert(coords_seq(w, h).len() == 0);
        }
    }
    vstd::arithmetic::div_mod::lemma_fundamental_div_mod(k, w as int);
    vstd::arithmetic::div_mod::lemma_mod_division_less_than_divisor(k, w as int);
    vstd::arithmetic::div_mod::lemma_div_pos_is_pos(k, w as int);
    assert(k / (w as int) < h) by (nonlinear_arith)
        requires
            w > 0,
            k < (w as int) * (h as int),
            k == (w as int) * (k / (w as int)) + k % (w as int),
            0 <= k % (w as int) < w,
            0 <= k / (w as int),
    {
    }
    assert((w as int) * (k / (w as int)) == (k / (w as int)) * (w as int)) by (nonlinear_arith);
}

} // verus!
