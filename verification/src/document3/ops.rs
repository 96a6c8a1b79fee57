//! The editing operations: copy and move (kept only if the document stays
//! valid), the breadth operations on the tree around a cell, and edits of
//! symbols and variants.

use vstd::prelude::*;

use crate::document::{
    spec_delete_col_cells, spec_delete_row_cells, spec_insert_col_cells, spec_insert_row_cells,
};
use super::{
    Cell, CellM, CellPath, CellPathM, Document, DocumentM, PathStep, Region, Tree, TreeM, Types,
    TypesM, clone_cell, clone_document, is_valid, spec_at, spec_default_struct_variant,
    spec_depth, spec_fields_finite, spec_set_at, spec_valid, spec_valid_shape, spec_get,
};

verus! {

// ===========================================================================
// Tree reshaping
// ===========================================================================

impl Tree {
    /// Insert an empty cell before column `at_col` of every row.
    fn insert_col_empty(&mut self, at_col: usize)
        requires
            spec_valid_shape(old(self)@),
            at_col <= old(self).width,
            old(self).width < usize::MAX,
        ensures
            final(self)@ == (TreeM {
                contents: spec_insert_col_cells(
                    old(self)@.contents,
                    old(self).width as int,
                    at_col as int,
                    old(self).height as nat,
                    CellM::Empty,
                ),
                width: (old(self).width + 1) as usize,
                height: old(self).height,
            }),
    {
        broadcast use super::group_cell_view;

        let w = self.width;
        let h = self.height;
        let _len = self.contents.len();
        let ghost old_cells = self@.contents;
        let mut k: usize = h;
        assert(h * w == w * h) by (nonlinear_arith);
        assert(old_cells.skip(w * h) =~= Seq::<CellM>::empty());
        assert(old_cells.take(k * w) =~= old_cells) by {
            assert(k * w == w * h) by (nonlinear_arith)
                requires
                    k == h,
            ;
        }
        while k > 0
            invariant
                k <= h,
                self.width == w,
                self.height == h,
                old_cells.len() == w * h,
                at_col <= w,
                k * w <= old_cells.len(),
                old_cells.len() <= usize::MAX,
                self.contents@.len() == self@.contents.len(),
                self@.contents == old_cells.take(k * w) + spec_insert_col_cells(
                    old_cells.skip(k * w),
                    w as int,
                    at_col as int,
                    (h - k) as nat,
                    CellM::Empty,
                ),
            decreases k,
        {
            k = k - 1;
            assert(k * w + w == (k + 1) * w) by (nonlinear_arith);
            assert((k + 1) * w <= w * h) by (nonlinear_arith)
                requires
                    k + 1 <= h,
            ;
            let pos = k * w + at_col;
            let ghost before = self@.contents;
            self.contents.insert(pos, Cell::Empty);
            proof {
                assert(self@.contents == before.insert(pos as int, CellM::Empty));
                let c = old_cells.skip(k * w);
                let rest_old = spec_insert_col_cells(
                    old_cells.skip((k + 1) * w),
                    w as int,
                    at_col as int,
                    (h - k - 1) as nat,
                    CellM::Empty,
                );
                assert(c.skip(w as int) =~= old_cells.skip((k + 1) * w));
                assert(spec_insert_col_cells(c, w as int, at_col as int, (h - k) as nat, CellM::Empty)
                    == c.take(at_col as int) + seq![CellM::Empty] + c.subrange(at_col as int, w as int)
                    + rest_old);
                assert(self@.contents =~= old_cells.take(k * w) + spec_insert_col_cells(
                    c,
                    w as int,
                    at_col as int,
                    (h - k) as nat,
                    CellM::Empty,
                ));
            }
        }
        proof {
            assert(old_cells.skip(0) =~= old_cells);
            assert(old_cells.take(0) =~= Seq::<CellM>::empty());
            assert(self@.contents =~= spec_insert_col_cells(
                old_cells,
                w as int,
                at_col as int,
                h as nat,
                CellM::Empty,
            ));
        }
        self.width = w + 1;
    }

    /// Insert a row of empty cells before row `at_row`.
    fn insert_row_empty(&mut self, at_row: usize)
        requires
            spec_valid_shape(old(self)@),
            at_row <= old(self).height,
            old(self).height < usize::MAX,
        ensures
            final(self)@ == (TreeM {
                contents: spec_insert_row_cells(
                    old(self)@.contents,
                    old(self).width as int,
                    at_row as int,
                    CellM::Empty,
                ),
                width: old(self).width,
                height: (old(self).height + 1) as usize,
            }),
    {
        broadcast use super::group_cell_view;

        let w = self.width;
        let h = self.height;
        let _len = self.contents.len();
        let ghost old_cells = self@.contents;
        assert(at_row * w <= h * w) by (nonlinear_arith)
            requires
                at_row <= h,
        ;
        assert(h * w == w * h) by (nonlinear_arith);
        let start = at_row * w;
        let mut i: usize = 0;
        while i < w
            invariant
                i <= w,
                start == at_row * w,
                start <= old_cells.len(),
                old_cells.len() <= usize::MAX,
                self.contents@.len() == self@.contents.len(),
                self.width == w,
                self.height == h,
                self@.contents == old_cells.take(start as int) + Seq::new(
                    i as nat,
                    |k: int| CellM::Empty,
                ) + old_cells.skip(start as int),
            decreases w - i,
        {
            let _l = self.contents.len();
            let ghost before = self@.contents;
            self.contents.insert(start + i, Cell::Empty);
            assert(self@.contents == before.insert(start + i, CellM::Empty));
            assert(self@.contents =~= old_cells.take(start as int) + Seq::new(
                (i + 1) as nat,
                |k: int| CellM::Empty,
            ) + old_cells.skip(start as int));
            i = i + 1;
        }
        self.height = h + 1;
    }

    /// Remove row `row`.
    fn delete_row_at(&mut self, row: usize)
        requires
            spec_valid_shape(old(self)@),
            row < old(self).height,
        ensures
            final(self)@ == (TreeM {
                contents: spec_delete_row_cells(old(self)@.contents, old(self).width as int, row as int),
                width: old(self).width,
                height: (old(self).height - 1) as usize,
            }),
    {
        broadcast use super::group_cell_view;

        let w = self.width;
        let h = self.height;
        let _len = self.contents.len();
        let ghost old_cells = self@.contents;
        assert(row * w + w <= h * w) by (nonlinear_arith)
            requires
                row < h,
        ;
        assert(h * w == w * h) by (nonlinear_arith);
        let start = row * w;
        let mut i: usize = 0;
        while i < w
            invariant
                i <= w,
                start == row * w,
                start + w <= old_cells.len(),
                self.contents@.len() == self@.contents.len(),
                self.width == w,
                self.height == h,
                self@.contents == old_cells.take(start as int) + old_cells.skip(start + i),
            decreases w - i,
        {
            let ghost before = self@.contents;
            self.contents.remove(start);
            assert(self@.contents == before.remove(start as int));
            assert(self@.contents =~= old_cells.take(start as int) + old_cells.skip(start + i + 1));
            i = i + 1;
        }
        self.height = h - 1;
    }

    /// Remove column `col` of every row.
    fn delete_col_at(&mut self, col: usize)
        requires
            spec_valid_shape(old(self)@),
            col < old(self).width,
        ensures
            final(self)@ == (TreeM {
                contents: spec_delete_col_cells(
                    old(self)@.contents,
                    old(self).width as int,
                    col as int,
                    old(self).height as nat,
                ),
                width: (old(self).width - 1) as usize,
                height: old(self).height,
            }),
    {
        broadcast use super::group_cell_view;

        let w = self.width;
        let h = self.height;
        let _len = self.contents.len();
        let ghost old_cells = self@.contents;
        let mut k: usize = h;
        assert(h * w == w * h) by (nonlinear_arith);
        assert(old_cells.skip(w * h) =~= Seq::<CellM>::empty());
        assert(old_cells.take(k * w) =~= old_cells) by {
            assert(k * w == w * h) by (nonlinear_arith)
                requires
                    k == h,
            ;
        }
        while k > 0
            invariant
                k <= h,
                self.width == w,
                self.height == h,
                old_cells.len() == w * h,
                col < w,
                k * w <= old_cells.len(),
                old_cells.len() <= usize::MAX,
                self.contents@.len() == self@.contents.len(),
                self@.contents == old_cells.take(k * w) + spec_delete_col_cells(
                    old_cells.skip(k * w),
                    w as int,
                    col as int,
                    (h - k) as nat,
                ),
            decreases k,
        {
            k = k - 1;
            assert(k * w + w == (k + 1) * w) by (nonlinear_arith);
            assert((k + 1) * w <= w * h) by (nonlinear_arith)
                requires
                    k + 1 <= h,
            ;
            let pos = k * w + col;
            let ghost before = self@.contents;
            self.contents.remove(pos);
            proof {
                assert(self@.contents == before.remove(pos as int));
                let c = old_cells.skip(k * w);
                let rest_old = spec_delete_col_cells(
                    old_cells.skip((k + 1) * w),
                    w as int,
                    col as int,
                    (h - k - 1) as nat,
                );
                assert(c.skip(w as int) =~= old_cells.skip((k + 1) * w));
                assert(spec_delete_col_cells(c, w as int, col as int, (h - k) as nat) == c.take(
                    col as int,
                ) + c.subrange(col + 1, w as int) + rest_old);
                assert(self@.contents =~= old_cells.take(k * w) + spec_delete_col_cells(
                    c,
                    w as int,
                    col as int,
                    (h - k) as nat,
                ));
            }
        }
        proof {
            assert(old_cells.skip(0) =~= old_cells);
            assert(old_cells.take(0) =~= Seq::<CellM>::empty());
            assert(self@.contents =~= spec_delete_col_cells(old_cells, w as int, col as int, h as nat));
        }
        self.width = w - 1;
    }
}

// ===========================================================================
// Specifications
// ===========================================================================

/// The path ends with a step into a tree cell, so the cell may be empty
/// and has a tree around it.
pub open spec fn spec_ends_in_tree(p: CellPathM) -> bool {
    p.path.len() > 0 && p.path.last() is Tree
}

/// The path of the cell around the last step.
pub open spec fn spec_parent(p: CellPathM) -> CellPathM {
    CellPathM { region: p.region, path: p.path.drop_last() }
}

/// The column and row of the last step of a path that ends in a tree.
pub open spec fn spec_last_xy(p: CellPathM) -> (usize, usize) {
    match p.path.last() {
        PathStep::Tree(x, y) => (x, y),
        _ => (0, 0),
    }
}

/// The tree around the cell at `p`, when the cell around the last step is
/// a tree.
pub open spec fn spec_breadth_target(d: DocumentM, p: CellPathM) -> Option<TreeM> {
    match spec_at(d, spec_parent(p)) {
        Some(CellM::Tree(t)) => Some(t),
        _ => None,
    }
}

/// Cell `(x, y)` of row-major cells `width` wide.
pub open spec fn spec_cell_xy(cs: Seq<CellM>, width: int, x: int, y: int) -> CellM {
    cs[width * y + x]
}

/// Row `r` of row-major cells `width` wide holds a field cell.
pub open spec fn spec_row_has_field_in(cs: Seq<CellM>, width: int, r: int) -> bool {
    exists|x: int| 0 <= x < width && #[trigger] spec_cell_xy(cs, width, x, r) is Field
}

/// Column `c` of row-major cells `width` wide and `height` tall holds a
/// field cell.
pub open spec fn spec_col_has_field_in(cs: Seq<CellM>, width: int, height: int, c: int) -> bool {
    exists|y: int| 0 <= y < height && #[trigger] spec_cell_xy(cs, width, c, y) is Field
}

/// Row `r` of the tree holds a field cell.
pub open spec fn spec_row_has_field(t: TreeM, r: int) -> bool {
    spec_row_has_field_in(t.contents, t.width as int, r)
}

/// Column `c` of the tree holds a field cell.
pub open spec fn spec_col_has_field(t: TreeM, c: int) -> bool {
    spec_col_has_field_in(t.contents, t.width as int, t.height as int, c)
}

/// The document with the tree around the cell at `p` replaced by `t`.
pub open spec fn spec_with_tree(d: DocumentM, p: CellPathM, t: TreeM) -> DocumentM {
    spec_set_at(d, spec_parent(p), CellM::Tree(t))
}

/// A copy of the cell at `src` onto `dest`, kept only if the document stays
/// valid; the destination is named on refusal. Rom is never a destination.
pub open spec fn spec_copy(types: TypesM, d: DocumentM, dest: CellPathM, src: CellPathM) -> (DocumentM, Result<(), CellPathM>) {
    if dest.region == Region::Rom {
        (d, Err(dest))
    } else {
        let t = spec_set_at(d, dest, spec_at(d, src)->Some_0);
        if spec_valid(types, t) {
            (t, Ok(()))
        } else {
            (d, Err(dest))
        }
    }
}

/// A move of the cell at `src` onto `dest`, leaving an empty cell behind,
/// kept only if the document stays valid. Only tree cells outside Rom may
/// take part, and a `Field` cell is never a source; the offending cell is
/// named on refusal: the source when it cannot be moved, else the
/// destination.
pub open spec fn spec_mova(types: TypesM, d: DocumentM, src: CellPathM, dest: CellPathM) -> (DocumentM, Result<(), CellPathM>) {
    if src.region == Region::Rom || !spec_ends_in_tree(src) || spec_at(d, src) matches Some(
        CellM::Field(_),
    ) {
        (d, Err(src))
    } else if dest.region == Region::Rom || !spec_ends_in_tree(dest) {
        (d, Err(dest))
    } else {
        let v = spec_at(d, src)->Some_0;
        let t = spec_set_at(spec_set_at(d, src, CellM::Empty), dest, v);
        if spec_valid(types, t) {
            (t, Ok(()))
        } else {
            (d, Err(dest))
        }
    }
}

pub open spec fn spec_add_column(d: DocumentM, cell: CellPathM, is_right: bool) -> DocumentM {
    match spec_breadth_target(d, cell) {
        Some(t) => {
            let at = spec_last_xy(cell).0 + if is_right {
                1int
            } else {
                0int
            };
            spec_with_tree(
                d,
                cell,
                TreeM {
                    contents: spec_insert_col_cells(
                        t.contents,
                        t.width as int,
                        at,
                        t.height as nat,
                        CellM::Empty,
                    ),
                    width: (t.width + 1) as usize,
                    height: t.height,
                },
            )
        },
        None => d,
    }
}

pub open spec fn spec_add_row(d: DocumentM, cell: CellPathM, is_down: bool) -> DocumentM {
    match spec_breadth_target(d, cell) {
        Some(t) => {
            let at = spec_last_xy(cell).1 + if is_down {
                1int
            } else {
                0int
            };
            spec_with_tree(
                d,
                cell,
                TreeM {
                    contents: spec_insert_row_cells(t.contents, t.width as int, at, CellM::Empty),
                    width: t.width,
                    height: (t.height + 1) as usize,
                },
            )
        },
        None => d,
    }
}

/// The tree without row `r`, unless the row holds a field cell.
pub open spec fn spec_without_row(d: DocumentM, cell: CellPathM, t: TreeM, r: int) -> DocumentM {
    if spec_row_has_field(t, r) {
        d
    } else {
        spec_with_tree(
            d,
            cell,
            TreeM {
                contents: spec_delete_row_cells(t.contents, t.width as int, r),
                width: t.width,
                height: (t.height - 1) as usize,
            },
        )
    }
}

/// The tree without column `c`, unless the column holds a field cell.
pub open spec fn spec_without_col(d: DocumentM, cell: CellPathM, t: TreeM, c: int) -> DocumentM {
    if spec_col_has_field(t, c) {
        d
    } else {
        spec_with_tree(
            d,
            cell,
            TreeM {
                contents: spec_delete_col_cells(t.contents, t.width as int, c, t.height as nat),
                width: (t.width - 1) as usize,
                height: t.height,
            },
        )
    }
}

pub open spec fn spec_delete_row_above(d: DocumentM, cell: CellPathM) -> DocumentM {
    let y = spec_last_xy(cell).1;
    if y == 0 {
        d
    } else {
        match spec_breadth_target(d, cell) {
            Some(t) => spec_without_row(d, cell, t, y - 1),
            None => d,
        }
    }
}

pub open spec fn spec_delete_row_below(d: DocumentM, cell: CellPathM) -> DocumentM {
    let y = spec_last_xy(cell).1;
    match spec_breadth_target(d, cell) {
        Some(t) => if y == t.height - 1 {
            d
        } else {
            spec_without_row(d, cell, t, y + 1)
        },
        None => d,
    }
}

pub open spec fn spec_delete_column_left(d: DocumentM, cell: CellPathM) -> DocumentM {
    let x = spec_last_xy(cell).0;
    if x == 0 {
        d
    } else {
        match spec_breadth_target(d, cell) {
            Some(t) => spec_without_col(d, cell, t, x - 1),
            None => d,
        }
    }
}

pub open spec fn spec_delete_column_right(d: DocumentM, cell: CellPathM) -> DocumentM {
    let x = spec_last_xy(cell).0;
    match spec_breadth_target(d, cell) {
        Some(t) => if x == t.width - 1 {
            d
        } else {
            spec_without_col(d, cell, t, x + 1)
        },
        None => d,
    }
}

pub open spec fn spec_edit_symbol(d: DocumentM, cell: CellPathM, new: Seq<char>) -> DocumentM {
    spec_set_at(d, cell, CellM::Symbol(new))
}

pub open spec fn spec_edit_variant(types: TypesM, d: DocumentM, cell: CellPathM, variant_to: usize) -> DocumentM {
    let sid = (spec_at(d, cell)->Some_0)->Struct_0.struct_id;
    spec_set_at(d, cell, spec_default_struct_variant(types, sid, variant_to, spec_depth(types)))
}

/// A breadth operation can be carried out at `cell`: the cell's path ends
/// in a tree step, the cell around it resolves, and if that is a tree it is
/// well-shaped and `bound` holds of it.
pub open spec fn spec_breadth_ok(d: DocumentM, cell: CellPathM, bound: spec_fn(TreeM) -> bool) -> bool {
    &&& spec_ends_in_tree(cell)
    &&& spec_at(d, spec_parent(cell)) is Some
    &&& match spec_breadth_target(d, cell) {
        Some(t) => spec_valid_shape(t) && bound(t),
        None => true,
    }
}

// ===========================================================================
// Operations
// ===========================================================================

/// A copy of a path, equal to it in the model.
pub fn clone_path(p: &CellPath) -> (r: CellPath)
    ensures
        r@ == p@,
{
    let path = p.path.clone();
    proof {
        assert(path@ =~= p.path@);
    }
    CellPath { region: p.region, path }
}

/// Whether a path ends by stepping into a tree cell (so the cell may be
/// empty).
fn ends_in_tree(path: &CellPath) -> (r: bool)
    ensures
        r == spec_ends_in_tree(path@),
{
    let n = path.path.len();
    if n == 0 {
        false
    } else {
        match path.path[n - 1] {
            PathStep::Tree(..) => true,
            _ => false,
        }
    }
}

/// The path of the cell around the last step, and that step's column and
/// row.
pub(crate) fn parent_of(cell: &CellPath) -> (r: (CellPath, usize, usize))
    requires
        spec_ends_in_tree(cell@),
    ensures
        r.0@ == spec_parent(cell@),
        (r.1, r.2) == spec_last_xy(cell@),
{
    let n = cell.path.len();
    let (x, y) = match cell.path[n - 1] {
        PathStep::Tree(x, y) => (x, y),
        _ => vstd::pervasive::unreached(),
    };
    let mut path = cell.path.clone();
    path.pop();
    proof {
        assert(path@ =~= cell.path@.drop_last());
    }
    (CellPath { region: cell.region, path }, x, y)
}

/// Whether row `r` of a `width`-wide grid contains a field cell.
pub(crate) fn row_has_field(contents: &[Cell], width: usize, r: usize) -> (b: bool)
    requires
        (r + 1) * width <= contents@.len(),
    ensures
        b == spec_row_has_field_in(super::contents_view(contents@), width as int, r as int),
{
    broadcast use super::group_cell_view;

    let ghost cs = super::contents_view(contents@);
    let _n = contents.len();
    assert(r * width + width == (r + 1) * width) by (nonlinear_arith);
    let mut x: usize = 0;
    while x < width
        invariant
            contents@.len() <= usize::MAX,
            x <= width,
            (r + 1) * width <= contents@.len(),
            r * width + width == (r + 1) * width,
            cs == super::contents_view(contents@),
            forall|j: int| 0 <= j < x ==> !(#[trigger] spec_cell_xy(cs, width as int, j, r as int) is Field),
        decreases width - x,
    {
        assert(r * width + x < contents@.len());
        assert(width * r == r * width) by (nonlinear_arith);
        assert(cs[r * width + x] == contents@[r * width + x]@);
        let is_field = match &contents[r * width + x] {
            Cell::Field(_) => true,
            _ => false,
        };
        if is_field {
            assert(spec_cell_xy(cs, width as int, x as int, r as int) is Field);
            return true;
        }
        x = x + 1;
    }
    false
}

/// Whether column `c` of a `width`-wide, `height`-tall grid contains a
/// field cell.
pub(crate) fn col_has_field(contents: &[Cell], width: usize, height: usize, c: usize) -> (b: bool)
    requires
        c < width,
        width * height <= contents@.len(),
    ensures
        b == spec_col_has_field_in(super::contents_view(contents@), width as int, height as int, c as int),
{
    broadcast use super::group_cell_view;

    let ghost cs = super::contents_view(contents@);
    let _n = contents.len();
    let mut y: usize = 0;
    while y < height
        invariant
            contents@.len() <= usize::MAX,
            y <= height,
            c < width,
            width * height <= contents@.len(),
            cs == super::contents_view(contents@),
            forall|j: int| 0 <= j < y ==> !(#[trigger] spec_cell_xy(cs, width as int, c as int, j) is Field),
        decreases height - y,
    {
        assert(width * y + c < width * height) by (nonlinear_arith)
            requires
                y < height,
                c < width,
        ;
        assert(cs[width * y + c] == contents@[width * y + c]@);
        let is_field = match &contents[width * y + c] {
            Cell::Field(_) => true,
            _ => false,
        };
        if is_field {
            assert(spec_cell_xy(cs, width as int, c as int, y as int) is Field);
            return true;
        }
        y = y + 1;
    }
    false
}

impl Document {
    /// Copy `src` onto `dest`. Applied only if the result is a well-formed
    /// document; on rejection the document is left unchanged and the
    /// destination is returned so that it can be flagged.
    pub fn copy(&mut self, dest: &CellPath, src: &CellPath, types: &Types) -> (r: Result<(), CellPath>)
        requires
            dest.region != Region::Rom ==> spec_at(old(self)@, src@) is Some && spec_at(
                old(self)@,
                dest@,
            ) is Some,
        ensures
            (final(self)@, match r {
                Ok(()) => Ok(()),
                Err(p) => Err(p@),
            }) == spec_copy(types@, old(self)@, dest@, src@),
    {
        if dest.region == Region::Rom {
            return Err(clone_path(dest));
        }
        let mut trial = clone_document(self);
        let v = clone_cell(trial.index(src));
        *trial.index_mut(dest) = v;
        if is_valid(&trial, types) {
            *self = trial;
            Ok(())
        } else {
            Err(clone_path(dest))
        }
    }

    /// Move `src` onto `dest`, leaving an empty cell behind. Applied only
    /// if the result is well-formed; on rejection the document is unchanged
    /// and the offending cell is returned. Only a tree cell may be moved,
    /// and the palette is read-only.
    pub fn mova(&mut self, src: &CellPath, dest: &CellPath, types: &Types) -> (r: Result<(), CellPath>)
        requires
            (src.region != Region::Rom && spec_ends_in_tree(src@)) ==> spec_at(old(self)@, src@) is Some,
            (src.region != Region::Rom && spec_ends_in_tree(src@) && !(spec_at(old(self)@, src@)->Some_0 is Field)
                && dest.region != Region::Rom && spec_ends_in_tree(dest@)) ==> spec_at(
                spec_set_at(old(self)@, src@, CellM::Empty),
                dest@,
            ) is Some,
        ensures
            (final(self)@, match r {
                Ok(()) => Ok(()),
                Err(p) => Err(p@),
            }) == spec_mova(types@, old(self)@, src@, dest@),
    {
        if src.region == Region::Rom || !ends_in_tree(src) {
            return Err(clone_path(src));
        }
        if let Cell::Field(_) = self.index(src) {
            return Err(clone_path(src));
        }
        if dest.region == Region::Rom || !ends_in_tree(dest) {
            return Err(clone_path(dest));
        }
        let mut trial = clone_document(self);
        let mut v = Cell::Empty;
        std::mem::swap(trial.index_mut(src), &mut v);
        *trial.index_mut(dest) = v;
        if is_valid(&trial, types) {
            *self = trial;
            Ok(())
        } else {
            Err(clone_path(dest))
        }
    }

    pub fn add_column_right(&mut self, cell: &CellPath)
        requires
            spec_breadth_ok(
                old(self)@,
                cell@,
                (|t: TreeM| spec_last_xy(cell@).0 + 1 <= t.width && t.width < usize::MAX),
            ),
        ensures
            final(self)@ == spec_add_column(old(self)@, cell@, true),
    {
        self.add_column(cell, true);
    }

    pub fn add_column_left(&mut self, cell: &CellPath)
        requires
            spec_breadth_ok(
                old(self)@,
                cell@,
                (|t: TreeM| spec_last_xy(cell@).0 <= t.width && t.width < usize::MAX),
            ),
        ensures
            final(self)@ == spec_add_column(old(self)@, cell@, false),
    {
        self.add_column(cell, false);
    }

    /// Insert a column of empty cells beside the cell's column, in the tree
    /// around the cell.
    pub fn add_column(&mut self, cell: &CellPath, is_right: bool)
        requires
            spec_breadth_ok(
                old(self)@,
                cell@,
                (|t: TreeM|
                    spec_last_xy(cell@).0 + (if is_right {
                        1int
                    } else {
                        0int
                    }) <= t.width && t.width < usize::MAX),
            ),
        ensures
            final(self)@ == spec_add_column(old(self)@, cell@, is_right),
    {
        broadcast use super::group_cell_view;

        let (parent, x, _y) = parent_of(cell);
        proof {
            super::access::lemma_set_at_same(old(self)@, parent@);
        }
        let p = self.index_mut(&parent);
        match p {
            Cell::Tree(t) => {
                let at = if is_right {
                    x + 1
                } else {
                    x
                };
                t.insert_col_empty(at);
            },
            _ => {},
        }
    }

    pub fn add_row_above(&mut self, cell: &CellPath)
        requires
            spec_breadth_ok(
                old(self)@,
                cell@,
                (|t: TreeM| spec_last_xy(cell@).1 <= t.height && t.height < usize::MAX),
            ),
        ensures
            final(self)@ == spec_add_row(old(self)@, cell@, false),
    {
        self.add_row(cell, false);
    }

    pub fn add_row_below(&mut self, cell: &CellPath)
        requires
            spec_breadth_ok(
                old(self)@,
                cell@,
                (|t: TreeM| spec_last_xy(cell@).1 + 1 <= t.height && t.height < usize::MAX),
            ),
        ensures
            final(self)@ == spec_add_row(old(self)@, cell@, true),
    {
        self.add_row(cell, true);
    }

    /// Insert a row of empty cells above or below the cell's row, in the
    /// tree around the cell.
    pub fn add_row(&mut self, cell: &CellPath, is_down: bool)
        requires
            spec_breadth_ok(
                old(self)@,
                cell@,
                (|t: TreeM|
                    spec_last_xy(cell@).1 + (if is_down {
                        1int
                    } else {
                        0int
                    }) <= t.height && t.height < usize::MAX),
            ),
        ensures
            final(self)@ == spec_add_row(old(self)@, cell@, is_down),
    {
        broadcast use super::group_cell_view;

        let (parent, _x, y) = parent_of(cell);
        proof {
            super::access::lemma_set_at_same(old(self)@, parent@);
        }
        let p = self.index_mut(&parent);
        match p {
            Cell::Tree(t) => {
                let at = if is_down {
                    y + 1
                } else {
                    y
                };
                t.insert_row_empty(at);
            },
            _ => {},
        }
    }

    /// Replace the symbol at `cell` by `new`.
    pub fn edit_symbol(&mut self, cell: &CellPath, new: &str)
        requires
            spec_at(old(self)@, cell@) matches Some(CellM::Symbol(_)),
        ensures
            final(self)@ == spec_edit_symbol(old(self)@, cell@, new@),
    {
        broadcast use super::group_cell_view;

        let c = self.index_mut(cell);
        match c {
            Cell::Symbol(s) => {
                *s = new.to_string();
            },
            _ => vstd::pervasive::unreached(),
        }
    }

    /// Replace the struct at `cell` by the default of its variant
    /// `variant_to`.
    pub fn edit_variant(&mut self, cell: &CellPath, variant_to: usize, types: &Types)
        requires
            spec_at(old(self)@, cell@) matches Some(CellM::Struct(sv)) && {
                &&& sv.struct_id < types@.types.len()
                &&& variant_to < types@.types[sv.struct_id as int].variants.len()
                &&& spec_fields_finite(
                    types@,
                    types@.types[sv.struct_id as int].variants[variant_to as int].fields,
                    (spec_depth(types@) - 1) as nat,
                )
            },
        ensures
            final(self)@ == spec_edit_variant(types@, old(self)@, cell@, variant_to),
    {
        broadcast use super::group_cell_view;

        let edit = self.index_mut(cell);
        let struct_id = match edit {
            Cell::Struct(sv) => sv.struct_id,
            _ => vstd::pervasive::unreached(),
        };
        *edit = types.default_struct_variant(struct_id, variant_to);
    }

    pub fn delete_row_above(&mut self, cell: &CellPath)
        requires
            spec_ends_in_tree(cell@),
            spec_last_xy(cell@).1 > 0 ==> spec_breadth_ok(
                old(self)@,
                cell@,
                (|t: TreeM| spec_last_xy(cell@).1 <= t.height),
            ),
        ensures
            final(self)@ == spec_delete_row_above(old(self)@, cell@),
    {
        broadcast use super::group_cell_view;

        let (parent, _x, y) = parent_of(cell);
        if y == 0 {
            return;
        }
        proof {
            super::access::lemma_set_at_same(old(self)@, parent@);
        }
        let p = self.index_mut(&parent);
        match p {
            Cell::Tree(t) => {
                proof {
                    assert(y * t.width <= t.width * t.height) by (nonlinear_arith)
                        requires
                            y <= t.height,
                    ;
                    assert(t@.contents.len() == t.contents@.len());
                }
                if row_has_field(t.contents.as_slice(), t.width, y - 1) {
                    return;
                }
                t.delete_row_at(y - 1);
            },
            _ => {},
        }
    }

    pub fn delete_row_below(&mut self, cell: &CellPath)
        requires
            spec_breadth_ok(old(self)@, cell@, (|t: TreeM| spec_last_xy(cell@).1 < t.height)),
        ensures
            final(self)@ == spec_delete_row_below(old(self)@, cell@),
    {
        broadcast use super::group_cell_view;

        let (parent, _x, y) = parent_of(cell);
        proof {
            super::access::lemma_set_at_same(old(self)@, parent@);
        }
        let p = self.index_mut(&parent);
        match p {
            Cell::Tree(t) => {
                if y == t.height - 1 {
                    return;
                }
                proof {
                    assert((y + 2) * t.width <= t.width * t.height) by (nonlinear_arith)
                        requires
                            y + 2 <= t.height,
                    ;
                    assert(t@.contents.len() == t.contents@.len());
                }
                if row_has_field(t.contents.as_slice(), t.width, y + 1) {
                    return;
                }
                t.delete_row_at(y + 1);
            },
            _ => {},
        }
    }

    pub fn delete_column_left(&mut self, cell: &CellPath)
        requires
            spec_ends_in_tree(cell@),
            spec_last_xy(cell@).0 > 0 ==> spec_breadth_ok(
                old(self)@,
                cell@,
                (|t: TreeM| spec_last_xy(cell@).0 <= t.width),
            ),
        ensures
            final(self)@ == spec_delete_column_left(old(self)@, cell@),
    {
        broadcast use super::group_cell_view;

        let (parent, x, _y) = parent_of(cell);
        if x == 0 {
            return;
        }
        proof {
            super::access::lemma_set_at_same(old(self)@, parent@);
        }
        let p = self.index_mut(&parent);
        match p {
            Cell::Tree(t) => {
                proof {
                    assert(t@.contents.len() == t.contents@.len());
                }
                if col_has_field(t.contents.as_slice(), t.width, t.height, x - 1) {
                    return;
                }
                t.delete_col_at(x - 1);
            },
            _ => {},
        }
    }

    pub fn delete_column_right(&mut self, cell: &CellPath)
        requires
            spec_breadth_ok(old(self)@, cell@, (|t: TreeM| spec_last_xy(cell@).0 < t.width)),
        ensures
            final(self)@ == spec_delete_column_right(old(self)@, cell@),
    {
        broadcast use super::group_cell_view;

        let (parent, x, _y) = parent_of(cell);
        proof {
            super::access::lemma_set_at_same(old(self)@, parent@);
        }
        let p = self.index_mut(&parent);
        match p {
            Cell::Tree(t) => {
                if x == t.width - 1 {
                    return;
                }
                proof {
                    assert(t@.contents.len() == t.contents@.len());
                }
                if col_has_field(t.contents.as_slice(), t.width, t.height, x + 1) {
                    return;
                }
                t.delete_col_at(x + 1);
            },
            _ => {},
        }
    }
}

} // verus!
