//! Reaching a cell by its path, for reading and for writing.

use vstd::prelude::*;

use super::{
    Cell, CellM, CellPath, CellPathM, Document, DocumentM, FieldValM, PathStep, Region,
    StructValM, Tree, TreeM, cell_view, contents_view,
};

verus! {

// ===========================================================================
// Specifications
// ===========================================================================

/// The place of cell `(x, y)` in a tree's row-major contents.
pub open spec fn spec_tree_index(t: TreeM, x: usize, y: usize) -> int {
    t.width * y + x
}

/// One step into a cell: into a field's value, into a struct's grid, or to
/// a cell of a tree; `None` where the step does not fit the cell.
pub open spec fn spec_step(c: CellM, s: PathStep) -> Option<CellM> {
    match (c, s) {
        (CellM::Field(f), PathStep::IntoField) => Some(*f.value),
        (CellM::Struct(sv), PathStep::IntoStruct) => match sv.grid {
            Some(g) => Some(*g),
            None => None,
        },
        (CellM::Tree(t), PathStep::Tree(x, y)) => if spec_tree_index(t, x, y) < t.contents.len() {
            Some(t.contents[spec_tree_index(t, x, y)])
        } else {
            None
        },
        _ => None,
    }
}

/// The cell reached by walking `path` from `c`, if every step fits.
pub open spec fn spec_get(c: CellM, path: Seq<PathStep>) -> Option<CellM>
    decreases path.len(),
{
    if path.len() == 0 {
        Some(c)
    } else {
        match spec_step(c, path[0]) {
            None => None,
            Some(next) => spec_get(next, path.drop_first()),
        }
    }
}

/// `c` with the cell at `path` replaced by `v`.
pub open spec fn spec_put(c: CellM, path: Seq<PathStep>, v: CellM) -> CellM
    decreases path.len(),
{
    if path.len() == 0 {
        v
    } else {
        let rest = path.drop_first();
        match (c, path[0]) {
            (CellM::Field(f), PathStep::IntoField) => CellM::Field(
                FieldValM { value: Box::new(spec_put(*f.value, rest, v)), ..f },
            ),
            (CellM::Struct(sv), PathStep::IntoStruct) => match sv.grid {
                Some(g) => CellM::Struct(
                    StructValM { grid: Some(Box::new(spec_put(*g, rest, v))), ..sv },
                ),
                None => c,
            },
            (CellM::Tree(t), PathStep::Tree(x, y)) => {
                let k = spec_tree_index(t, x, y);
                if k < t.contents.len() {
                    CellM::Tree(
                        TreeM { contents: t.contents.update(k, spec_put(t.contents[k], rest, v)), ..t },
                    )
                } else {
                    c
                }
            },
            _ => c,
        }
    }
}

/// The root cell of a region.
pub open spec fn spec_region(d: DocumentM, r: Region) -> CellM {
    match r {
        Region::Rim => d.rim,
        Region::Ram => d.ram,
        Region::Rom => d.rom,
    }
}

/// The document with the root of region `r` replaced by `c`.
pub open spec fn spec_with_region(d: DocumentM, r: Region, c: CellM) -> DocumentM {
    match r {
        Region::Rim => DocumentM { rim: c, ..d },
        Region::Ram => DocumentM { ram: c, ..d },
        Region::Rom => DocumentM { rom: c, ..d },
    }
}

/// The cell at `p`, if its path fits the document.
pub open spec fn spec_at(d: DocumentM, p: CellPathM) -> Option<CellM> {
    spec_get(spec_region(d, p.region), p.path)
}

/// The document with the cell at `p` replaced by `v`.
pub open spec fn spec_set_at(d: DocumentM, p: CellPathM, v: CellM) -> DocumentM {
    spec_with_region(d, p.region, spec_put(spec_region(d, p.region), p.path, v))
}

/// Writing along a path is writing its first step with what writing the
/// rest of the path gives.
proof fn lemma_put_cons(c: CellM, path: Seq<PathStep>, v: CellM)
    requires
        path.len() > 0,
        spec_step(c, path[0]) is Some,
    ensures
        spec_put(c, path, v) == spec_put(
            c,
            seq![path[0]],
            spec_put(spec_step(c, path[0])->Some_0, path.drop_first(), v),
        ),
{
    reveal_with_fuel(spec_put, 2);
    assert(seq![path[0]].drop_first() =~= Seq::<PathStep>::empty());
    assert(seq![path[0]][0] == path[0]);
}

/// Writing back what a path reaches changes nothing.
pub proof fn lemma_put_get(c: CellM, path: Seq<PathStep>)
    requires
        spec_get(c, path) is Some,
    ensures
        spec_put(c, path, spec_get(c, path)->Some_0) == c,
    decreases path.len(),
{
    if path.len() > 0 {
        let next = spec_step(c, path[0])->Some_0;
        lemma_put_get(next, path.drop_first());
        match (c, path[0]) {
            (CellM::Tree(t), PathStep::Tree(x, y)) => {
                let k = spec_tree_index(t, x, y);
                assert(t.contents.update(k, t.contents[k]) =~= t.contents);
            },
            _ => {},
        }
    }
}

/// Reading where a cell was written gives back the written cell.
pub proof fn lemma_get_put(c: CellM, path: Seq<PathStep>, v: CellM)
    requires
        spec_get(c, path) is Some,
    ensures
        spec_get(spec_put(c, path, v), path) == Some(v),
    decreases path.len(),
{
    if path.len() > 0 {
        let next = spec_step(c, path[0])->Some_0;
        lemma_get_put(next, path.drop_first(), v);
    }
}

/// Walking a path with one more step is walking the path, then the step.
pub proof fn lemma_get_push(c: CellM, path: Seq<PathStep>, s: PathStep)
    ensures
        spec_get(c, path.push(s)) == match spec_get(c, path) {
            Some(x) => spec_step(x, s),
            None => None,
        },
    decreases path.len(),
{
    let p2 = path.push(s);
    if path.len() == 0 {
        assert(p2.drop_first() =~= Seq::<PathStep>::empty());
        assert(p2[0] == s);
        if let Some(n) = spec_step(c, s) {
            assert(spec_get(n, p2.drop_first()) == Some(n));
        }
    } else {
        assert(p2[0] == path[0]);
        assert(p2.drop_first() =~= path.drop_first().push(s));
        match spec_step(c, path[0]) {
            Some(next) => lemma_get_push(next, path.drop_first(), s),
            None => {},
        }
    }
}

/// Reading the cell at `p` after writing it gives back the written cell.
pub proof fn lemma_at_set_at(d: DocumentM, p: CellPathM, v: CellM)
    requires
        spec_at(d, p) is Some,
    ensures
        spec_at(spec_set_at(d, p, v), p) == Some(v),
{
    lemma_get_put(spec_region(d, p.region), p.path, v);
}

/// Writing back the cell at `p` leaves the document as it was.
pub proof fn lemma_set_at_same(d: DocumentM, p: CellPathM)
    requires
        spec_at(d, p) is Some,
    ensures
        spec_set_at(d, p, spec_at(d, p)->Some_0) == d,
{
    lemma_put_get(spec_region(d, p.region), p.path);
}

proof fn lemma_skip_first<A>(s: Seq<A>, i: int)
    requires
        0 <= i < s.len(),
    ensures
        s.skip(i)[0] == s[i],
        s.skip(i).drop_first() == s.skip(i + 1),
        s.skip(i).len() > 0,
{
    assert(s.skip(i).drop_first() =~= s.skip(i + 1));
}

// ===========================================================================
// Indexing
// ===========================================================================

impl Tree {
    /// Cell `(x, y)`.
    pub fn index(&self, pos: (usize, usize)) -> (r: &Cell)
        requires
            spec_tree_index(self@, pos.0, pos.1) < self@.contents.len(),
        ensures
            r@ == self@.contents[spec_tree_index(self@, pos.0, pos.1)],
    {
        broadcast use super::group_cell_view;

        let (x, y) = pos;
        let _n = self.contents.len();
        &self.contents[self.width * y + x]
    }

    /// Cell `(x, y)`, for writing.
    pub fn index_mut(&mut self, pos: (usize, usize)) -> (r: &mut Cell)
        requires
            spec_tree_index(old(self)@, pos.0, pos.1) < old(self)@.contents.len(),
        ensures
            (*r)@ == old(self)@.contents[spec_tree_index(old(self)@, pos.0, pos.1)],
            final(self)@ == (TreeM {
                contents: old(self)@.contents.update(
                    spec_tree_index(old(self)@, pos.0, pos.1),
                    (*final(r))@,
                ),
                ..old(self)@
            }),
    {
        broadcast use super::group_cell_view;

        let (x, y) = pos;
        let _n = self.contents.len();
        let k = self.width * y + x;
        &mut self.contents[k]
    }
}

impl Cell {
    /// One step into this cell.
    pub fn index(&self, step: &PathStep) -> (r: &Cell)
        requires
            spec_step(self@, *step) is Some,
        ensures
            Some(r@) == spec_step(self@, *step),
    {
        broadcast use super::group_cell_view;

        match (self, step) {
            (Cell::Field(field), PathStep::IntoField) => &field.value,
            (Cell::Struct(stru), PathStep::IntoStruct) => match &stru.grid {
                Some(g) => g,
                None => vstd::pervasive::unreached(),
            },
            (Cell::Tree(tree), PathStep::Tree(x, y)) => tree.index((*x, *y)),
            _ => vstd::pervasive::unreached(),
        }
    }

    /// One step into this cell, for writing: writing the result writes the
    /// corresponding place of this cell.
    pub fn index_mut(&mut self, step: &PathStep) -> (r: &mut Cell)
        requires
            spec_step(old(self)@, *step) is Some,
        ensures
            Some((*r)@) == spec_step(old(self)@, *step),
            final(self)@ == spec_put(old(self)@, seq![*step], (*final(r))@),
    {
        broadcast use super::group_cell_view;

        proof {
            reveal_with_fuel(spec_put, 2);
            assert(seq![*step].drop_first() =~= Seq::<PathStep>::empty());
            assert(seq![*step][0] == *step);
        }
        match step {
            PathStep::IntoField => match self {
                Cell::Field(field) => &mut field.value,
                _ => vstd::pervasive::unreached(),
            },
            PathStep::IntoStruct => match self {
                Cell::Struct(stru) => match &mut stru.grid {
                    Some(g) => g,
                    None => vstd::pervasive::unreached(),
                },
                _ => vstd::pervasive::unreached(),
            },
            PathStep::Tree(x, y) => match self {
                Cell::Tree(tree) => tree.index_mut((*x, *y)),
                _ => vstd::pervasive::unreached(),
            },
        }
    }
}

/// Walk `path` from step `i` on, for writing.
fn walk_mut<'a>(c: &'a mut Cell, path: &[PathStep], i: usize) -> (r: &'a mut Cell)
    requires
        i <= path@.len(),
        spec_get(old(c)@, path@.skip(i as int)) is Some,
    ensures
        Some((*r)@) == spec_get(old(c)@, path@.skip(i as int)),
        final(c)@ == spec_put(old(c)@, path@.skip(i as int), (*final(r))@),
    decreases path@.len() - i,
{
    if i == path.len() {
        proof {
            assert(path@.skip(i as int) =~= Seq::<PathStep>::empty());
        }
        return c;
    }
    proof {
        lemma_skip_first(path@, i as int);
    }
    let step = path[i];
    proof {
        lemma_put_cons(old(c)@, path@.skip(i as int), (*final(c))@);
    }
    let next = c.index_mut(&step);
    let r = walk_mut(next, path, i + 1);
    proof {
        lemma_put_cons(old(c)@, path@.skip(i as int), (*final(r))@);
    }
    r
}

/// Walk `path` from step `i` on.
fn walk<'a>(c: &'a Cell, path: &[PathStep], i: usize) -> (r: &'a Cell)
    requires
        i <= path@.len(),
        spec_get(c@, path@.skip(i as int)) is Some,
    ensures
        Some(r@) == spec_get(c@, path@.skip(i as int)),
    decreases path@.len() - i,
{
    if i == path.len() {
        proof {
            assert(path@.skip(i as int) =~= Seq::<PathStep>::empty());
        }
        return c;
    }
    proof {
        lemma_skip_first(path@, i as int);
    }
    let next = c.index(&path[i]);
    walk(next, path, i + 1)
}

impl Document {
    /// The root cell of a region.
    pub fn region(&self, r: Region) -> (c: &Cell)
        ensures
            c@ == spec_region(self@, r),
    {
        match r {
            Region::Rim => &self.rim,
            Region::Ram => &self.ram,
            Region::Rom => &self.rom,
        }
    }

    /// The root cell of a region, for writing.
    pub fn region_mut(&mut self, r: Region) -> (c: &mut Cell)
        ensures
            (*c)@ == spec_region(old(self)@, r),
            final(self)@ == spec_with_region(old(self)@, r, (*final(c))@),
    {
        match r {
            Region::Rim => &mut self.rim,
            Region::Ram => &mut self.ram,
            Region::Rom => &mut self.rom,
        }
    }

    /// The cell at `index`.
    pub fn index(&self, index: &CellPath) -> (r: &Cell)
        requires
            spec_at(self@, index@) is Some,
        ensures
            Some(r@) == spec_at(self@, index@),
    {
        proof {
            assert(index.path@.skip(0) =~= index.path@);
        }
        walk(self.region(index.region), index.path.as_slice(), 0)
    }

    /// The cell at `index`, for writing: writing the result writes that
    /// cell of the document.
    pub fn index_mut(&mut self, index: &CellPath) -> (r: &mut Cell)
        requires
            spec_at(old(self)@, index@) is Some,
        ensures
            Some((*r)@) == spec_at(old(self)@, index@),
            final(self)@ == spec_set_at(old(self)@, index@, (*final(r))@),
    {
        proof {
            assert(index.path@.skip(0) =~= index.path@);
        }
        let root = self.region_mut(index.region);
        walk_mut(root, index.path.as_slice(), 0)
    }
}

} // verus!
