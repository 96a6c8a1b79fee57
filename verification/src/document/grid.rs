//! Grid construction, access, and the breadth operations — the only
//! operations that change a grid's width or height.

use vstd::prelude::*;

use super::{CellContent, Grid};

verus! {

/// A grid's cell vector holds exactly `width * height` cells and neither
/// dimension is zero.
pub open spec fn spec_grid_shape_ok(len: int, width: int, height: int) -> bool {
    width >= 1 && height >= 1 && len == width * height
}

/// The cells of a `width`-wide grid of `h` rows after a column of `fill`
/// is inserted at column `at` of every row.
pub open spec fn spec_insert_col_cells<A>(cells: Seq<A>, width: int, at: int, h: nat, fill: A) -> Seq<A>
    decreases h,
{
    if h == 0 {
        Seq::empty()
    } else {
        cells.take(at) + seq![fill] + cells.subrange(at, width) + spec_insert_col_cells(
            cells.skip(width),
            width,
            at,
            (h - 1) as nat,
            fill,
        )
    }
}

/// The cells of a `width`-wide grid of `h` rows after column `col` is
/// removed from every row.
pub open spec fn spec_delete_col_cells<A>(cells: Seq<A>, width: int, col: int, h: nat) -> Seq<A>
    decreases h,
{
    if h == 0 {
        Seq::empty()
    } else {
        cells.take(col) + cells.subrange(col + 1, width) + spec_delete_col_cells(
            cells.skip(width),
            width,
            col,
            (h - 1) as nat,
        )
    }
}

/// The cells after a row of `width` copies of `fill` is inserted at row `at`.
pub open spec fn spec_insert_row_cells<A>(cells: Seq<A>, width: int, at: int, fill: A) -> Seq<A> {
    cells.take(at * width) + Seq::new(width as nat, |i: int| fill) + cells.skip(at * width)
}

/// The cells after row `row` is removed.
pub open spec fn spec_delete_row_cells<A>(cells: Seq<A>, width: int, row: int) -> Seq<A> {
    cells.take(row * width) + cells.skip(row * width + width)
}

pub proof fn lemma_insert_col_len<A>(cells: Seq<A>, width: int, at: int, h: nat, fill: A)
    requires
        0 <= at <= width,
        cells.len() == width * h,
    ensures
        spec_insert_col_cells(cells, width, at, h, fill).len() == (width + 1) * h,
    decreases h,
{
    if h > 0 {
        assert(width * h == width * (h - 1) + width) by (nonlinear_arith);
        assert((width + 1) * h == (width + 1) * (h - 1) + width + 1) by (nonlinear_arith);
        assert(width * (h - 1) >= 0) by (nonlinear_arith)
            requires
                width >= 0,
                h >= 1,
        ;
        lemma_insert_col_len(cells.skip(width), width, at, (h - 1) as nat, fill);
        let rest = spec_insert_col_cells(cells.skip(width), width, at, (h - 1) as nat, fill);
        assert(spec_insert_col_cells(cells, width, at, h, fill) == cells.take(at) + seq![fill]
            + cells.subrange(at, width) + rest);
        assert(width <= cells.len());
        assert(rest.len() == (width + 1) * (h - 1));
        assert((cells.take(at) + seq![fill] + cells.subrange(at, width)).len() == width + 1);
    } else {
        assert((width + 1) * h == 0) by (nonlinear_arith)
            requires
                h == 0,
        ;
    }
}

pub proof fn lemma_delete_col_len<A>(cells: Seq<A>, width: int, col: int, h: nat)
    requires
        0 <= col < width,
        cells.len() == width * h,
    ensures
        spec_delete_col_cells(cells, width, col, h).len() == (width - 1) * h,
    decreases h,
{
    if h > 0 {
        assert(width * h == width * (h - 1) + width) by (nonlinear_arith);
        assert((width - 1) * h == (width - 1) * (h - 1) + width - 1) by (nonlinear_arith);
        assert(width * (h - 1) >= 0) by (nonlinear_arith)
            requires
                width >= 0,
                h >= 1,
        ;
        lemma_delete_col_len(cells.skip(width), width, col, (h - 1) as nat);
        let rest = spec_delete_col_cells(cells.skip(width), width, col, (h - 1) as nat);
        assert(spec_delete_col_cells(cells, width, col, h) == cells.take(col) + cells.subrange(
            col + 1,
            width,
        ) + rest);
    } else {
        assert((width - 1) * h == 0) by (nonlinear_arith)
            requires
                h == 0,
        ;
    }
}

/// Every cell after a column insertion is the fill or one of the old cells.
pub proof fn lemma_insert_col_from<A>(cells: Seq<A>, width: int, at: int, h: nat, fill: A, k: int)
    requires
        0 <= at <= width,
        cells.len() == width * h,
        0 <= k < spec_insert_col_cells(cells, width, at, h, fill).len(),
    ensures
        spec_insert_col_cells(cells, width, at, h, fill)[k] == fill || exists|j: int|
            0 <= j < cells.len() && cells[j] == #[trigger] spec_insert_col_cells(
                cells,
                width,
                at,
                h,
                fill,
            )[k],
    decreases h,
{
    let r = spec_insert_col_cells(cells, width, at, h, fill);
    if h > 0 {
        assert(width * h == width * (h - 1) + width) by (nonlinear_arith);
        assert(width * (h - 1) >= 0) by (nonlinear_arith)
            requires
                width >= 0,
                h >= 1,
        ;
        let rest = cells.skip(width);
        if k < width + 1 {
            if k < at {
                assert(r[k] == cells[k]);
            } else if k > at {
                assert(r[k] == cells[k - 1]);
            }
        } else {
            lemma_insert_col_from(rest, width, at, (h - 1) as nat, fill, k - width - 1);
            let rr = spec_insert_col_cells(rest, width, at, (h - 1) as nat, fill);
            assert(r[k] == rr[k - width - 1]);
            if rr[k - width - 1] != fill {
                let j = choose|j: int| 0 <= j < rest.len() && rest[j] == rr[k - width - 1];
                assert(cells[j + width] == r[k]);
            }
        }
    }
}

/// Every cell after a column deletion is one of the old cells.
pub proof fn lemma_delete_col_from<A>(cells: Seq<A>, width: int, col: int, h: nat, k: int)
    requires
        0 <= col < width,
        cells.len() == width * h,
        0 <= k < spec_delete_col_cells(cells, width, col, h).len(),
    ensures
        exists|j: int|
            0 <= j < cells.len() && cells[j] == #[trigger] spec_delete_col_cells(
                cells,
                width,
                col,
                h,
            )[k],
    decreases h,
{
    let r = spec_delete_col_cells(cells, width, col, h);
    if h > 0 {
        assert(width * h == width * (h - 1) + width) by (nonlinear_arith);
        assert(width * (h - 1) >= 0) by (nonlinear_arith)
            requires
                width >= 0,
                h >= 1,
        ;
        let rest = cells.skip(width);
        if k < width - 1 {
            if k < col {
                assert(r[k] == cells[k]);
            } else {
                assert(r[k] == cells[k + 1]);
            }
        } else {
            lemma_delete_col_from(rest, width, col, (h - 1) as nat, k - (width - 1));
            let rr = spec_delete_col_cells(rest, width, col, (h - 1) as nat);
            assert(r[k] == rr[k - (width - 1)]);
            let j = choose|j: int| 0 <= j < rest.len() && rest[j] == rr[k - (width - 1)];
            assert(cells[j + width] == r[k]);
        }
    }
}

impl Grid {
    /// Build a grid. The grid must be non-empty and rectangular.
    pub fn new(cells: Vec<Option<CellContent>>, width: usize, height: usize) -> (r: Self)
        requires
            width >= 1 && height >= 1,
            cells@.len() == width * height,
        ensures
            r.cells == cells,
            r.width == width,
            r.height == height,
    {
        Grid { cells, width, height }
    }

    /// A 1x1 grid holding a single cell — the shape of a default tree.
    pub fn single(cell: Option<CellContent>) -> (r: Self)
        ensures
            r.cells@ == seq![cell],
            r.width == 1,
            r.height == 1,
    {
        Grid { cells: vec![cell], width: 1, height: 1 }
    }

    pub fn width(&self) -> (r: usize)
        ensures
            r == self.width,
    {
        self.width
    }

    pub fn height(&self) -> (r: usize)
        ensures
            r == self.height,
    {
        self.height
    }

    pub fn cells(&self) -> (r: &[Option<CellContent>])
        ensures
            r@ == self.cells@,
    {
        self.cells.as_slice()
    }

    /// The cell at (`row`, `col`), row-major.
    pub fn get(&self, row: usize, col: usize) -> (r: &Option<CellContent>)
        requires
            row * self.width + col < self.cells@.len(),
        ensures
            *r == self.cells@[row * self.width + col],
    {
        let _len = self.cells.len();
        &self.cells[row * self.width + col]
    }

    pub fn get_mut(&mut self, row: usize, col: usize) -> (r: &mut Option<CellContent>)
        requires
            row * old(self).width + col < old(self).cells@.len(),
        ensures
            *r == old(self).cells@[row * old(self).width + col],
            final(self).cells@ == old(self).cells@.update(
                row * old(self).width + col,
                *final(r),
            ),
            final(self).width == old(self).width,
            final(self).height == old(self).height,
    {
        let w = self.width;
        let _len = self.cells.len();
        &mut self.cells[row * w + col]
    }

    // -- breadth operations --------------------------------------------------
    /// Insert a row of empty cells before row `at_row`.
    pub(crate) fn insert_row(&mut self, at_row: usize)
        requires
            spec_grid_shape_ok(
                old(self).cells@.len() as int,
                old(self).width as int,
                old(self).height as int,
            ),
            at_row <= old(self).height,
        ensures
            final(self).cells@ == spec_insert_row_cells(
                old(self).cells@,
                old(self).width as int,
                at_row as int,
                None,
            ),
            final(self).width == old(self).width,
            final(self).height == old(self).height + 1,
            spec_grid_shape_ok(
                final(self).cells@.len() as int,
                final(self).width as int,
                final(self).height as int,
            ),
    {
        let w = self.width;
        let h = self.height;
        let _len = self.cells.len();
        let ghost old_cells = self.cells@;
        assert(at_row * w <= h * w) by (nonlinear_arith)
            requires
                at_row <= h,
        ;
        assert(h * w == w * h) by (nonlinear_arith);
        let start = at_row * w;
        let mut i: usize = 0;
        while i < w
            invariant
                i <= w,
                start == at_row * w,
                start <= old_cells.len(),
                old_cells.len() <= usize::MAX,
                self.cells@.len() == old_cells.len() + i,
                self.width == w,
                self.height == h,
                self.cells@ == old_cells.take(start as int) + Seq::new(i as nat, |k: int| None::<CellContent>)
                    + old_cells.skip(start as int),
            decreases w - i,
        {
            let _l = self.cells.len();
            self.cells.insert(start + i, None);
            assert(self.cells@ =~= old_cells.take(start as int) + Seq::new(
                (i + 1) as nat,
                |k: int| None::<CellContent>,
            ) + old_cells.skip(start as int));
            i = i + 1;
        }
        assert(self.cells@.len() == w * h + w);
        assert(w * h + w == w * (h + 1)) by (nonlinear_arith);
        assert(h + 1 <= w * (h + 1)) by (nonlinear_arith)
            requires
                w >= 1,
        ;
        let _l = self.cells.len();
        self.height = h + 1;
    }

    /// Insert a column of empty cells before column `at_col`.
    pub(crate) fn insert_col(&mut self, at_col: usize)
        requires
            spec_grid_shape_ok(
                old(self).cells@.len() as int,
                old(self).width as int,
                old(self).height as int,
            ),
            at_col <= old(self).width,
        ensures
            final(self).cells@ == spec_insert_col_cells(
                old(self).cells@,
                old(self).width as int,
                at_col as int,
                old(self).height as nat,
                None,
            ),
            final(self).width == old(self).width + 1,
            final(self).height == old(self).height,
            old(self).width >= 2 ==> spec_grid_shape_ok(
                final(self).cells@.len() as int,
                final(self).width as int,
                final(self).height as int,
            ),
    {
        let w = self.width;
        let h = self.height;
        let _len = self.cells.len();
        let ghost old_cells = self.cells@;
        let mut k: usize = h;
        assert(old_cells.skip(w * h) =~= Seq::<Option<CellContent>>::empty());
        assert(old_cells.take(k * w) =~= old_cells) by {
            assert(k * w == w * h) by (nonlinear_arith)
                requires
                    k == h,
            ;
        }
        while k > 0
            invariant
                k <= h,
                self.width == w,
                self.height == h,
                old_cells.len() == w * h,
                at_col <= w,
                w >= 1,
                k * w <= old_cells.len(),
                old_cells.len() <= usize::MAX,
                self.cells@ == old_cells.take(k * w) + spec_insert_col_cells(
                    old_cells.skip(k * w),
                    w as int,
                    at_col as int,
                    (h - k) as nat,
                    None,
                ),
            decreases k,
        {
            let ghost before = self.cells@;
            k = k - 1;
            assert(k * w + w == (k + 1) * w) by (nonlinear_arith);
            assert((k + 1) * w <= w * h) by (nonlinear_arith)
                requires
                    k + 1 <= h,
            ;
            let pos = k * w + at_col;
            self.cells.insert(pos, None);
            proof {
                let c = old_cells.skip(k * w);
                let rest_old = spec_insert_col_cells(
                    old_cells.skip((k + 1) * w),
                    w as int,
                    at_col as int,
                    (h - k - 1) as nat,
                    None,
                );
                assert(c.skip(w as int) =~= old_cells.skip((k + 1) * w));
                assert(spec_insert_col_cells(c, w as int, at_col as int, (h - k) as nat, None) == c.take(
                    at_col as int,
                ) + seq![None] + c.subrange(at_col as int, w as int) + rest_old);
                assert(self.cells@ =~= old_cells.take(k * w) + spec_insert_col_cells(
                    c,
                    w as int,
                    at_col as int,
                    (h - k) as nat,
                    None,
                ));
            }
        }
        proof {
            assert(old_cells.skip(0) =~= old_cells);
            assert(old_cells.take(0) =~= Seq::<Option<CellContent>>::empty());
            assert(self.cells@ =~= spec_insert_col_cells(
                old_cells,
                w as int,
                at_col as int,
                h as nat,
                None,
            ));
            lemma_insert_col_len(old_cells, w as int, at_col as int, h as nat, None);
            assert((w + 1) * h == w * h + h) by (nonlinear_arith);
            assert(w + 1 <= (w + 1) * h) by (nonlinear_arith)
                requires
                    h >= 1,
            ;
        }
        let _l = self.cells.len();
        self.width = w + 1;
    }

    /// Remove row `row`.
    pub(crate) fn delete_row(&mut self, row: usize)
        requires
            spec_grid_shape_ok(
                old(self).cells@.len() as int,
                old(self).width as int,
                old(self).height as int,
            ),
            row < old(self).height,
        ensures
            final(self).cells@ == spec_delete_row_cells(
                old(self).cells@,
                old(self).width as int,
                row as int,
            ),
            final(self).width == old(self).width,
            final(self).height == old(self).height - 1,
            old(self).height >= 2 ==> spec_grid_shape_ok(
                final(self).cells@.len() as int,
                final(self).width as int,
                final(self).height as int,
            ),
    {
        let w = self.width;
        let h = self.height;
        let _len = self.cells.len();
        let ghost old_cells = self.cells@;
        assert(row * w + w <= h * w) by (nonlinear_arith)
            requires
                row < h,
        ;
        assert(h * w == w * h) by (nonlinear_arith);
        let start = row * w;
        let mut i: usize = 0;
        while i < w
            invariant
                i <= w,
                start == row * w,
                start + w <= old_cells.len(),
                old_cells.len() <= usize::MAX,
                self.width == w,
                self.height == h,
                self.cells@ == old_cells.take(start as int) + old_cells.skip(start + i),
            decreases w - i,
        {
            self.cells.remove(start);
            assert(self.cells@ =~= old_cells.take(start as int) + old_cells.skip(start + i + 1));
            i = i + 1;
        }
        assert(w * (h - 1) == w * h - w) by (nonlinear_arith);
        self.height = h - 1;
    }

    /// Remove column `col`.
    pub(crate) fn delete_col(&mut self, col: usize)
        requires
            spec_grid_shape_ok(
                old(self).cells@.len() as int,
                old(self).width as int,
                old(self).height as int,
            ),
            col < old(self).width,
        ensures
            final(self).cells@ == spec_delete_col_cells(
                old(self).cells@,
                old(self).width as int,
                col as int,
                old(self).height as nat,
            ),
            final(self).width == old(self).width - 1,
            final(self).height == old(self).height,
            old(self).width >= 2 ==> spec_grid_shape_ok(
                final(self).cells@.len() as int,
                final(self).width as int,
                final(self).height as int,
            ),
    {
        let w = self.width;
        let h = self.height;
        let _len = self.cells.len();
        let ghost old_cells = self.cells@;
        let mut k: usize = h;
        assert(old_cells.skip(w * h) =~= Seq::<Option<CellContent>>::empty());
        assert(old_cells.take(k * w) =~= old_cells) by {
            assert(k * w == w * h) by (nonlinear_arith)
                requires
                    k == h,
            ;
        }
        while k > 0
            invariant
                k <= h,
                self.width == w,
                self.height == h,
                old_cells.len() == w * h,
                col < w,
                k * w <= old_cells.len(),
                old_cells.len() <= usize::MAX,
                self.cells@ == old_cells.take(k * w) + spec_delete_col_cells(
                    old_cells.skip(k * w),
                    w as int,
                    col as int,
                    (h - k) as nat,
                ),
            decreases k,
        {
            k = k - 1;
            assert(k * w + w == (k + 1) * w) by (nonlinear_arith);
            assert((k + 1) * w <= w * h) by (nonlinear_arith)
                requires
                    k + 1 <= h,
            ;
            let pos = k * w + col;
            self.cells.remove(pos);
            proof {
                let c = old_cells.skip(k * w);
                let rest_old = spec_delete_col_cells(
                    old_cells.skip((k + 1) * w),
                    w as int,
                    col as int,
                    (h - k - 1) as nat,
                );
                assert(c.skip(w as int) =~= old_cells.skip((k + 1) * w));
                assert(spec_delete_col_cells(c, w as int, col as int, (h - k) as nat) == c.take(
                    col as int,
                ) + c.subrange(col + 1, w as int) + rest_old);
                assert(self.cells@ =~= old_cells.take(k * w) + spec_delete_col_cells(
                    c,
                    w as int,
                    col as int,
                    (h - k) as nat,
                ));
            }
        }
        proof {
            assert(old_cells.skip(0) =~= old_cells);
            assert(old_cells.take(0) =~= Seq::<Option<CellContent>>::empty());
            assert(self.cells@ =~= spec_delete_col_cells(old_cells, w as int, col as int, h as nat));
            lemma_delete_col_len(old_cells, w as int, col as int, h as nat);
            assert((w - 1) * h == w * h - h) by (nonlinear_arith);
        }
        self.width = w - 1;
    }
}


/// After a column is inserted at `at`, the cell at column `x`, row `y`
/// stands at column `x` if `x < at`, else `x + 1`, of the same row.
pub proof fn lemma_insert_col_index<A>(cells: Seq<A>, width: int, at: int, h: nat, fill: A, x: int, y: int)
    requires
        0 <= at <= width,
        cells.len() == width * h,
        0 <= x < width,
        0 <= y < h,
    ensures
        spec_insert_col_cells(cells, width, at, h, fill)[(width + 1) * y + if x < at {
            x
        } else {
            x + 1
        }] == cells[width * y + x],
    decreases h,
{
    assert(width * h == width * (h - 1) + width) by (nonlinear_arith);
    assert(width * (h - 1) >= 0) by (nonlinear_arith)
        requires
            width >= 0,
            h >= 1,
    ;
    let head = cells.take(at) + seq![fill] + cells.subrange(at, width);
    let rest = spec_insert_col_cells(cells.skip(width), width, at, (h - 1) as nat, fill);
    assert(spec_insert_col_cells(cells, width, at, h, fill) == head + rest);
    lemma_insert_col_len(cells.skip(width), width, at, (h - 1) as nat, fill);
    let x2 = if x < at {
        x
    } else {
        x + 1
    };
    if y == 0 {
        assert((width + 1) * y == 0) by (nonlinear_arith)
            requires
                y == 0,
        ;
        assert(width * y == 0) by (nonlinear_arith)
            requires
                y == 0,
        ;
    } else {
        lemma_insert_col_index(cells.skip(width), width, at, (h - 1) as nat, fill, x, y - 1);
        assert((width + 1) * y == (width + 1) * (y - 1) + width + 1) by (nonlinear_arith);
        assert(width * y == width * (y - 1) + width) by (nonlinear_arith);
        assert((width + 1) * (y - 1) + x2 < (width + 1) * (h - 1)) by (nonlinear_arith)
            requires
                0 <= x2 <= width,
                0 <= y - 1 < h - 1,
        ;
        assert(width * (y - 1) + x < width * (h - 1)) by (nonlinear_arith)
            requires
                0 <= x < width,
                0 <= y - 1 < h - 1,
        ;
    }
}

/// After column `col` is deleted, the cell at column `x != col`, row `y`
/// stands at column `x` if `x < col`, else `x - 1`, of the same row.
pub proof fn lemma_delete_col_index<A>(cells: Seq<A>, width: int, col: int, h: nat, x: int, y: int)
    requires
        0 <= col < width,
        cells.len() == width * h,
        0 <= x < width,
        x != col,
        0 <= y < h,
    ensures
        spec_delete_col_cells(cells, width, col, h)[(width - 1) * y + if x < col {
            x
        } else {
            x - 1
        }] == cells[width * y + x],
    decreases h,
{
    assert(width * h == width * (h - 1) + width) by (nonlinear_arith);
    assert(width * (h - 1) >= 0) by (nonlinear_arith)
        requires
            width >= 0,
            h >= 1,
    ;
    let head = cells.take(col) + cells.subrange(col + 1, width);
    let rest = spec_delete_col_cells(cells.skip(width), width, col, (h - 1) as nat);
    assert(spec_delete_col_cells(cells, width, col, h) == head + rest);
    lemma_delete_col_len(cells.skip(width), width, col, (h - 1) as nat);
    let x2 = if x < col {
        x
    } else {
        x - 1
    };
    if y == 0 {
        assert((width - 1) * y == 0) by (nonlinear_arith)
            requires
                y == 0,
        ;
        assert(width * y == 0) by (nonlinear_arith)
            requires
                y == 0,
        ;
    } else {
        lemma_delete_col_index(cells.skip(width), width, col, (h - 1) as nat, x, y - 1);
        assert((width - 1) * y == (width - 1) * (y - 1) + width - 1) by (nonlinear_arith);
        assert(width * y == width * (y - 1) + width) by (nonlinear_arith);
        assert((width - 1) * (y - 1) + x2 < (width - 1) * (h - 1)) by (nonlinear_arith)
            requires
                0 <= x2 < width - 1,
                0 <= y - 1 < h - 1,
        ;
        assert(width * (y - 1) + x < width * (h - 1)) by (nonlinear_arith)
            requires
                0 <= x < width,
                0 <= y - 1 < h - 1,
        ;
    }
}


/// After a row of `fill` is inserted at row `at`, row `r` holds the old row
/// `r` above `at`, the fill at `at`, and the old row `r - 1` below it.
pub proof fn lemma_insert_row_index<A>(cells: Seq<A>, width: int, at: int, fill: A, r: int, c: int)
    requires
        0 <= at,
        at * width <= cells.len(),
        0 <= c < width,
        0 <= r,
        width * r + c < cells.len() + width,
    ensures
        width * r + c < spec_insert_row_cells(cells, width, at, fill).len(),
        spec_insert_row_cells(cells, width, at, fill)[width * r + c] == if r < at {
            cells[width * r + c]
        } else if r == at {
            fill
        } else {
            cells[width * (r - 1) + c]
        },
{
    let n = cells.take(at * width) + Seq::new(width as nat, |i: int| fill);
    assert(n.len() == at * width + width);
    if r < at {
        assert(width * r + c < at * width) by (nonlinear_arith)
            requires
                r < at,
                0 <= c < width,
        ;
    } else if r == at {
        assert(width * r == at * width) by (nonlinear_arith)
            requires
                r == at,
        ;
    } else {
        assert(width * r + c >= at * width + width) by (nonlinear_arith)
            requires
                r > at,
                0 <= c,
                width >= 0,
        ;
        assert(width * (r - 1) == width * r - width) by (nonlinear_arith);
    }
}

/// After row `row` is deleted, row `r` holds the old row `r` above it and
/// the old row `r + 1` from it on.
pub proof fn lemma_delete_row_index<A>(cells: Seq<A>, width: int, row: int, r: int, c: int)
    requires
        0 <= row,
        row * width + width <= cells.len(),
        0 <= c < width,
        0 <= r,
        width * r + c < cells.len() - width,
    ensures
        width * r + c < spec_delete_row_cells(cells, width, row).len(),
        spec_delete_row_cells(cells, width, row)[width * r + c] == if r < row {
            cells[width * r + c]
        } else {
            cells[width * (r + 1) + c]
        },
{
    if r < row {
        assert(width * r + c < row * width) by (nonlinear_arith)
            requires
                r < row,
                0 <= c < width,
        ;
    } else {
        assert(width * r + c >= row * width) by (nonlinear_arith)
            requires
                r >= row,
                0 <= c,
                width >= 0,
        ;
        assert(width * (r + 1) == width * r + width) by (nonlinear_arith);
    }
}

/// After a column of `fill` is inserted at column `at`, each row holds the
/// fill at column `at`.
pub proof fn lemma_insert_col_fill<A>(cells: Seq<A>, width: int, at: int, h: nat, fill: A, y: int)
    requires
        0 <= at <= width,
        cells.len() == width * h,
        0 <= y < h,
    ensures
        spec_insert_col_cells(cells, width, at, h, fill)[(width + 1) * y + at] == fill,
    decreases h,
{
    assert(width * h == width * (h - 1) + width) by (nonlinear_arith);
    assert(width * (h - 1) >= 0) by (nonlinear_arith)
        requires
            width >= 0,
            h >= 1,
    ;
    let head = cells.take(at) + seq![fill] + cells.subrange(at, width);
    let rest = spec_insert_col_cells(cells.skip(width), width, at, (h - 1) as nat, fill);
    assert(spec_insert_col_cells(cells, width, at, h, fill) == head + rest);
    lemma_insert_col_len(cells.skip(width), width, at, (h - 1) as nat, fill);
    if y == 0 {
        assert((width + 1) * y == 0) by (nonlinear_arith)
            requires
                y == 0,
        ;
    } else {
        lemma_insert_col_fill(cells.skip(width), width, at, (h - 1) as nat, fill, y - 1);
        assert((width + 1) * y == (width + 1) * (y - 1) + width + 1) by (nonlinear_arith);
        assert((width + 1) * (y - 1) + at < (width + 1) * (h - 1)) by (nonlinear_arith)
            requires
                0 <= at <= width,
                0 <= y - 1 < h - 1,
        ;
    }
}

} // verus!
