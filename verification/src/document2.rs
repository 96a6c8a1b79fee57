//! A simpler cell model: a struct keeps its field cells directly, in field
//! order, and the operations change the document in place with no check of
//! the result.

use vstd::prelude::*;

use crate::document::{
    spec_delete_col_cells, spec_delete_row_cells, spec_insert_col_cells, spec_insert_row_cells,
    lemma_insert_row_index, lemma_delete_row_index, lemma_insert_col_index, lemma_delete_col_index,
    lemma_insert_col_fill, lemma_insert_col_len, lemma_delete_col_len,
};

verus! {

// ===========================================================================
// Data
// ===========================================================================

#[derive(Debug, Clone, PartialEq, Eq, PartialOrd, Ord, Hash)]
pub struct Types(pub Vec<StructDef>);

#[derive(Debug, Clone, PartialEq, Eq, PartialOrd, Ord, Hash)]
pub struct StructDef {
    pub name: String,
    pub variants: Vec<StructVariant>,
}

#[derive(Debug, Clone, PartialEq, Eq, PartialOrd, Ord, Hash)]
pub struct StructVariant {
    pub name: String,
    pub fields: Vec<FieldDef>,
}

#[derive(Debug, Clone, PartialEq, Eq, PartialOrd, Ord, Hash)]
pub struct FieldDef {
    pub name: String,
    pub value: CellValue,
    pub is_tree: bool,
}

#[derive(Debug, Copy, Clone, PartialEq, Eq, PartialOrd, Ord, Hash, Structural)]
pub enum CellValue {
    Symbol,
    Struct(usize),
}

#[derive(Debug, PartialEq, Eq, PartialOrd, Ord, Hash)]
pub struct Document {
    pub rim_field: FieldDef,
    pub rim: Cell,
    pub ram: Cell,
    pub rom: Cell,
}

#[derive(Debug, Clone, PartialEq, Eq, PartialOrd, Ord, Hash)]
pub struct CellLocation {
    pub region: Region,
    pub path: Vec<PathStep>,
}

#[derive(Debug, Copy, Clone, PartialEq, Eq, PartialOrd, Ord, Hash, Structural)]
pub enum PathStep {
    /// Into field `i` of a struct.
    Struct(usize),
    /// Column, then row, of a tree.
    Tree(usize, usize),
}

#[derive(Debug, Copy, Clone, PartialEq, Eq, PartialOrd, Ord, Hash, Structural)]
pub enum Region {
    Rim,
    Ram,
    Rom,
}

#[derive(Debug, PartialEq, Eq, PartialOrd, Ord, Hash)]
pub enum Cell {
    Symbol(String),
    Struct(StructVal),
    Tree(Tree),
    Empty,
}

/// A row-major grid of cells: cell `(x, y)` is `contents[y * width + x]`.
#[derive(Debug, PartialEq, Eq, PartialOrd, Ord, Hash)]
pub struct Tree {
    pub contents: Vec<Cell>,
    pub width: usize,
    pub height: usize,
}

#[derive(Debug, PartialEq, Eq, PartialOrd, Ord, Hash)]
pub struct StructVal {
    pub id: usize,
    pub variant: usize,
    pub fields: Vec<Cell>,
}

// ===========================================================================
// Models
// ===========================================================================

pub enum CellM {
    Symbol(Seq<char>),
    Struct(StructValM),
    Tree(TreeM),
    Empty,
}

pub struct StructValM {
    pub id: usize,
    pub variant: usize,
    pub fields: Seq<CellM>,
}

pub struct TreeM {
    pub contents: Seq<CellM>,
    pub width: usize,
    pub height: usize,
}

pub struct DocumentM {
    pub rim_field: FieldDefM,
    pub rim: CellM,
    pub ram: CellM,
    pub rom: CellM,
}

pub struct LocationM {
    pub region: Region,
    pub path: Seq<PathStep>,
}

pub struct FieldDefM {
    pub name: Seq<char>,
    pub value: CellValue,
    pub is_tree: bool,
}

pub open spec fn cell_view(c: Cell) -> CellM
    decreases c,
{
    match c {
        Cell::Symbol(s) => CellM::Symbol(s@),
        Cell::Struct(sv) => CellM::Struct(struct_val_view(sv)),
        Cell::Tree(t) => CellM::Tree(tree_view(t)),
        Cell::Empty => CellM::Empty,
    }
}

pub open spec fn struct_val_view(sv: StructVal) -> StructValM
    decreases sv,
{
    proof {
        broadcast use vstd::std_specs::vec::axiom_vec_decreases_to_view;
    }
    StructValM { id: sv.id, variant: sv.variant, fields: cells_view(sv.fields@) }
}

pub open spec fn tree_view(t: Tree) -> TreeM
    decreases t,
{
    proof {
        broadcast use vstd::std_specs::vec::axiom_vec_decreases_to_view;
    }
    TreeM { contents: cells_view(t.contents@), width: t.width, height: t.height }
}

pub open spec fn cells_view(s: Seq<Cell>) -> Seq<CellM>
    decreases s,
{
    Seq::new(s.len(), |i: int| if 0 <= i < s.len() { cell_view(s[i]) } else { CellM::Empty })
}

impl View for Cell {
    type V = CellM;

    open spec fn view(&self) -> CellM {
        cell_view(*self)
    }
}

impl View for Tree {
    type V = TreeM;

    open spec fn view(&self) -> TreeM {
        tree_view(*self)
    }
}

impl View for StructVal {
    type V = StructValM;

    open spec fn view(&self) -> StructValM {
        struct_val_view(*self)
    }
}

impl View for FieldDef {
    type V = FieldDefM;

    open spec fn view(&self) -> FieldDefM {
        FieldDefM { name: self.name@, value: self.value, is_tree: self.is_tree }
    }
}

impl View for Document {
    type V = DocumentM;

    open spec fn view(&self) -> DocumentM {
        DocumentM { rim_field: self.rim_field@, rim: self.rim@, ram: self.ram@, rom: self.rom@ }
    }
}

impl View for CellLocation {
    type V = LocationM;

    open spec fn view(&self) -> LocationM {
        LocationM { region: self.region, path: self.path@ }
    }
}

pub broadcast proof fn lemma_tree_view_unfold(t: Tree)
    ensures
        #[trigger] tree_view(t) == (TreeM {
            contents: cells_view(t.contents@),
            width: t.width,
            height: t.height,
        }),
{
}

pub broadcast proof fn lemma_struct_val_view_unfold(sv: StructVal)
    ensures
        #[trigger] struct_val_view(sv) == (StructValM {
            id: sv.id,
            variant: sv.variant,
            fields: cells_view(sv.fields@),
        }),
{
}

pub broadcast proof fn lemma_cells_view_index(s: Seq<Cell>, i: int)
    requires
        0 <= i < s.len(),
    ensures
        #[trigger] cells_view(s)[i] == cell_view(s[i]),
{
}

pub broadcast proof fn lemma_cells_view_len(s: Seq<Cell>)
    ensures
        #[trigger] cells_view(s).len() == s.len(),
{
}

pub broadcast proof fn lemma_cells_view_update(s: Seq<Cell>, k: int, x: Cell)
    requires
        0 <= k < s.len(),
    ensures
        #[trigger] cells_view(s.update(k, x)) == cells_view(s).update(k, cell_view(x)),
{
    assert(cells_view(s.update(k, x)) =~= cells_view(s).update(k, cell_view(x)));
}

pub broadcast proof fn lemma_cells_view_push(s: Seq<Cell>, x: Cell)
    ensures
        #[trigger] cells_view(s.push(x)) == cells_view(s).push(cell_view(x)),
{
    assert(cells_view(s.push(x)) =~= cells_view(s).push(cell_view(x)));
}

pub broadcast proof fn lemma_cells_view_insert(s: Seq<Cell>, i: int, x: Cell)
    requires
        0 <= i <= s.len(),
    ensures
        #[trigger] cells_view(s.insert(i, x)) == cells_view(s).insert(i, cell_view(x)),
{
    assert(cells_view(s.insert(i, x)) =~= cells_view(s).insert(i, cell_view(x)));
}

pub broadcast proof fn lemma_cells_view_remove(s: Seq<Cell>, i: int)
    requires
        0 <= i < s.len(),
    ensures
        #[trigger] cells_view(s.remove(i)) == cells_view(s).remove(i),
{
    assert(cells_view(s.remove(i)) =~= cells_view(s).remove(i));
}

pub broadcast proof fn lemma_cell_view_tree(c: Cell)
    requires
        c is Tree,
    ensures
        #[trigger] cell_view(c) == CellM::Tree(tree_view(c->Tree_0)),
{
}

pub broadcast proof fn lemma_cell_view_struct(c: Cell)
    requires
        c is Struct,
    ensures
        #[trigger] cell_view(c) == CellM::Struct(struct_val_view(c->Struct_0)),
{
}

pub broadcast proof fn lemma_cell_view_symbol(c: Cell)
    requires
        c is Symbol,
    ensures
        #[trigger] cell_view(c) == CellM::Symbol(c->Symbol_0@),
{
}

pub broadcast group group_cell_view {
    lemma_tree_view_unfold,
    lemma_struct_val_view_unfold,
    lemma_cells_view_index,
    lemma_cells_view_len,
    lemma_cells_view_update,
    lemma_cells_view_push,
    lemma_cells_view_insert,
    lemma_cells_view_remove,
    lemma_cell_view_tree,
    lemma_cell_view_struct,
    lemma_cell_view_symbol,
}

// ===========================================================================
// Deep copies
// ===========================================================================

pub fn clone_cell(c: &Cell) -> (r: Cell)
    ensures
        r@ == c@,
    decreases c, 0int,
{
    match c {
        Cell::Symbol(s) => Cell::Symbol(s.clone()),
        Cell::Struct(sv) => Cell::Struct(
            StructVal { id: sv.id, variant: sv.variant, fields: clone_cells(&sv.fields) },
        ),
        Cell::Tree(t) => Cell::Tree(
            Tree { contents: clone_cells(&t.contents), width: t.width, height: t.height },
        ),
        Cell::Empty => Cell::Empty,
    }
}

fn clone_cells(v: &Vec<Cell>) -> (r: Vec<Cell>)
    ensures
        cells_view(r@) == cells_view(v@),
    decreases v, 1int,
{
    broadcast use group_cell_view;

    let mut r: Vec<Cell> = Vec::new();
    let mut i: usize = 0;
    while i < v.len()
        invariant
            i <= v@.len(),
            r@.len() == i,
            forall|j: int| 0 <= j < i ==> #[trigger] cell_view(r@[j]) == cell_view(v@[j]),
        decreases v@.len() - i,
    {
        proof {
            broadcast use vstd::std_specs::vec::axiom_vec_index_decreases;

            assert(decreases_to!(v => v@[i as int]));
        }
        r.push(clone_cell(&v[i]));
        i = i + 1;
    }
    assert(cells_view(r@) =~= cells_view(v@));
    r
}

impl Clone for Cell {
    fn clone(&self) -> (r: Self)
        ensures
            r@ == self@,
    {
        clone_cell(self)
    }
}

impl Clone for Tree {
    fn clone(&self) -> (r: Self)
        ensures
            r@ == self@,
    {
        broadcast use group_cell_view;

        Tree { contents: clone_cells(&self.contents), width: self.width, height: self.height }
    }
}

impl Clone for StructVal {
    fn clone(&self) -> (r: Self)
        ensures
            r@ == self@,
    {
        broadcast use group_cell_view;

        StructVal { id: self.id, variant: self.variant, fields: clone_cells(&self.fields) }
    }
}

impl Clone for Document {
    fn clone(&self) -> (r: Self)
        ensures
            r@ == self@,
    {
        Document {
            rim_field: FieldDef {
                name: self.rim_field.name.clone(),
                value: self.rim_field.value,
                is_tree: self.rim_field.is_tree,
            },
            rim: clone_cell(&self.rim),
            ram: clone_cell(&self.ram),
            rom: clone_cell(&self.rom),
        }
    }
}

// ===========================================================================
// Defaults and the new document
// ===========================================================================

/// The default tree: a 1x1 grid holding one empty cell.
pub open spec fn spec_any_default() -> CellM {
    CellM::Tree(TreeM { contents: seq![CellM::Empty], width: 1, height: 1 })
}

/// The default of a value type: an empty symbol, or variant 0 of the
/// struct with no field cells.
pub open spec fn spec_value_default(v: CellValue) -> CellM {
    match v {
        CellValue::Symbol => CellM::Symbol(Seq::empty()),
        CellValue::Struct(n) => CellM::Struct(StructValM { id: n, variant: 0, fields: Seq::empty() }),
    }
}

/// The default of a field: the default tree, or the default of its value
/// type.
pub open spec fn spec_field_default(fd: FieldDefM) -> CellM {
    if fd.is_tree {
        spec_any_default()
    } else {
        spec_value_default(fd.value)
    }
}

fn any_default() -> (r: Cell)
    ensures
        r@ == spec_any_default(),
{
    broadcast use group_cell_view;

    let t = Tree { contents: vec![Cell::Empty], width: 1, height: 1 };
    assert(t.contents@ == seq![Cell::Empty]);
    assert(cells_view(t.contents@) =~= seq![CellM::Empty]);
    Cell::Tree(t)
}

impl CellValue {
    /// The default of this value type.
    pub fn default(&self) -> (r: Cell)
        ensures
            r@ == spec_value_default(*self),
    {
        broadcast use group_cell_view;

        match self {
            CellValue::Symbol => Cell::Symbol(String::new()),
            CellValue::Struct(n) => {
                let sv = StructVal { id: *n, variant: 0, fields: Vec::new() };
                assert(cells_view(sv.fields@) =~= Seq::<CellM>::empty());
                Cell::Struct(sv)
            },
        }
    }
}

impl FieldDef {
    /// The default of this field.
    pub fn default(&self) -> (r: Cell)
        ensures
            r@ == spec_field_default(self@),
    {
        if self.is_tree {
            any_default()
        } else {
            self.value.default()
        }
    }
}

/// The Rom palette of `n` struct types: a column holding variant 0 of each,
/// then an empty symbol, then the default tree.
pub open spec fn spec_rom(n: nat) -> CellM {
    CellM::Tree(
        TreeM {
            contents: Seq::new(
                n,
                |i: int| CellM::Struct(StructValM { id: i as usize, variant: 0, fields: Seq::empty() }),
            ) + seq![CellM::Symbol(Seq::empty()), spec_any_default()],
            width: 1,
            height: (n + 2) as usize,
        },
    )
}

impl Document {
    /// A new document: Rom the palette of the types, Rim the default of the
    /// root field, Ram the default tree.
    pub fn new(types: &[StructDef], rim_field: FieldDef) -> (r: Self)
        ensures
            r@ == (DocumentM {
                rim_field: rim_field@,
                rim: spec_field_default(rim_field@),
                ram: spec_any_default(),
                rom: spec_rom(types@.len()),
            }),
    {
        broadcast use group_cell_view;

        let n = types.len();
        let ghost target = Seq::new(
            n as nat,
            |i: int| CellM::Struct(StructValM { id: i as usize, variant: 0, fields: Seq::empty() }),
        );
        let mut contents: Vec<Cell> = Vec::new();
        let mut i: usize = 0;
        while i < n
            invariant
                i <= n,
                n == types@.len(),
                target == Seq::new(
                    n as nat,
                    |i: int| CellM::Struct(StructValM { id: i as usize, variant: 0, fields: Seq::empty() }),
                ),
                cells_view(contents@) == target.take(i as int),
            decreases n - i,
        {
            let sv = StructVal { id: i, variant: 0, fields: Vec::new() };
            assert(cells_view(sv.fields@) =~= Seq::<CellM>::empty());
            contents.push(Cell::Struct(sv));
            assert(target.take(i + 1) =~= target.take(i as int).push(target[i as int]));
            i = i + 1;
        }
        contents.push(Cell::Symbol(String::new()));
        contents.push(any_default());
        let height = contents.len();
        proof {
            assert(target.take(n as int) =~= target);
            assert(cells_view(contents@) =~= target + seq![CellM::Symbol(Seq::empty()), spec_any_default()]);
        }
        let rom = Cell::Tree(Tree { contents, width: 1, height });
        let rim = if rim_field.is_tree {
            any_default()
        } else {
            rim_field.value.default()
        };
        let ram = any_default();
        Document { rim_field, rim, ram, rom }
    }
}

// ===========================================================================
// Reaching cells
// ===========================================================================

/// One step into a cell: into a struct's field, or to a cell of a tree;
/// `None` where the step does not fit.
pub open spec fn spec_step(c: CellM, s: PathStep) -> Option<CellM> {
    match (c, s) {
        (CellM::Tree(t), PathStep::Tree(x, y)) => if y * t.width + x < t.contents.len() {
            Some(t.contents[y * t.width + x])
        } else {
            None
        },
        (CellM::Struct(sv), PathStep::Struct(i)) => if i < sv.fields.len() {
            Some(sv.fields[i as int])
        } else {
            None
        },
        _ => None,
    }
}

pub open spec fn spec_get(c: CellM, path: Seq<PathStep>) -> Option<CellM>
    decreases path.len(),
{
    if path.len() == 0 {
        Some(c)
    } else {
        match spec_step(c, path[0]) {
            None => None,
            Some(next) => spec_get(next, path.drop_first()),
        }
    }
}

pub open spec fn spec_put(c: CellM, path: Seq<PathStep>, v: CellM) -> CellM
    decreases path.len(),
{
    if path.len() == 0 {
        v
    } else {
        let rest = path.drop_first();
        match (c, path[0]) {
            (CellM::Tree(t), PathStep::Tree(x, y)) => {
                let k = y * t.width + x;
                if k < t.contents.len() {
                    CellM::Tree(
                        TreeM { contents: t.contents.update(k, spec_put(t.contents[k], rest, v)), ..t },
                    )
                } else {
                    c
                }
            },
            (CellM::Struct(sv), PathStep::Struct(i)) => if i < sv.fields.len() {
                CellM::Struct(
                    StructValM {
                        fields: sv.fields.update(i as int, spec_put(sv.fields[i as int], rest, v)),
                        ..sv
                    },
                )
            } else {
                c
            },
            _ => c,
        }
    }
}

pub open spec fn spec_root(d: DocumentM, r: Region) -> CellM {
    match r {
        Region::Rim => d.rim,
        Region::Ram => d.ram,
        Region::Rom => d.rom,
    }
}

pub open spec fn spec_with_root(d: DocumentM, r: Region, c: CellM) -> DocumentM {
    match r {
        Region::Rim => DocumentM { rim: c, ..d },
        Region::Ram => DocumentM { ram: c, ..d },
        Region::Rom => DocumentM { rom: c, ..d },
    }
}

/// The cell at `loc`, if its path fits the document.
pub open spec fn spec_at(d: DocumentM, loc: LocationM) -> Option<CellM> {
    spec_get(spec_root(d, loc.region), loc.path)
}

/// The document with the cell at `loc` replaced by `v`.
pub open spec fn spec_set_at(d: DocumentM, loc: LocationM, v: CellM) -> DocumentM {
    spec_with_root(d, loc.region, spec_put(spec_root(d, loc.region), loc.path, v))
}

proof fn lemma_put_cons(c: CellM, path: Seq<PathStep>, v: CellM)
    requires
        path.len() > 0,
        spec_step(c, path[0]) is Some,
    ensures
        spec_put(c, path, v) == spec_put(
            c,
            seq![path[0]],
            spec_put(spec_step(c, path[0])->Some_0, path.drop_first(), v),
        ),
{
    reveal_with_fuel(spec_put, 2);
    assert(seq![path[0]].drop_first() =~= Seq::<PathStep>::empty());
    assert(seq![path[0]][0] == path[0]);
}

proof fn lemma_put_get(c: CellM, path: Seq<PathStep>)
    requires
        spec_get(c, path) is Some,
    ensures
        spec_put(c, path, spec_get(c, path)->Some_0) == c,
    decreases path.len(),
{
    if path.len() > 0 {
        let next = spec_step(c, path[0])->Some_0;
        lemma_put_get(next, path.drop_first());
        match (c, path[0]) {
            (CellM::Tree(t), PathStep::Tree(x, y)) => {
                let k = y * t.width + x;
                assert(t.contents.update(k, t.contents[k]) =~= t.contents);
            },
            (CellM::Struct(sv), PathStep::Struct(i)) => {
                assert(sv.fields.update(i as int, sv.fields[i as int]) =~= sv.fields);
            },
            _ => {},
        }
    }
}

proof fn lemma_skip_first<A>(s: Seq<A>, i: int)
    requires
        0 <= i < s.len(),
    ensures
        s.skip(i)[0] == s[i],
        s.skip(i).drop_first() == s.skip(i + 1),
        s.skip(i).len() > 0,
{
    assert(s.skip(i).drop_first() =~= s.skip(i + 1));
}

impl Cell {
    /// One step into this cell.
    pub fn index(&self, path: &PathStep) -> (r: &Self)
        requires
            spec_step(self@, *path) is Some,
        ensures
            Some(r@) == spec_step(self@, *path),
    {
        broadcast use group_cell_view;

        match (self, path) {
            (Cell::Tree(t), PathStep::Tree(x, y)) => {
                let _n = t.contents.len();
                &t.contents[y * t.width + x]
            },
            (Cell::Struct(sv), PathStep::Struct(id)) => &sv.fields[*id],
            _ => vstd::pervasive::unreached(),
        }
    }

    /// One step into this cell, for writing.
    pub fn index_mut(&mut self, path: &PathStep) -> (r: &mut Self)
        requires
            spec_step(old(self)@, *path) is Some,
        ensures
            Some((*r)@) == spec_step(old(self)@, *path),
            final(self)@ == spec_put(old(self)@, seq![*path], (*final(r))@),
    {
        broadcast use group_cell_view;

        proof {
            reveal_with_fuel(spec_put, 2);
            assert(seq![*path].drop_first() =~= Seq::<PathStep>::empty());
            assert(seq![*path][0] == *path);
        }
        match path {
            PathStep::Tree(x, y) => match self {
                Cell::Tree(t) => {
                    let _n = t.contents.len();
                    let k = *y * t.width + *x;
                    &mut t.contents[k]
                },
                _ => vstd::pervasive::unreached(),
            },
            PathStep::Struct(id) => match self {
                Cell::Struct(sv) => &mut sv.fields[*id],
                _ => vstd::pervasive::unreached(),
            },
        }
    }

    /// This cell's tree.
    pub fn tree(&self) -> (r: &Tree)
        requires
            self@ is Tree,
        ensures
            CellM::Tree(r@) == self@,
    {
        broadcast use group_cell_view;

        match self {
            Cell::Tree(t) => t,
            _ => vstd::pervasive::unreached(),
        }
    }

    /// This cell's struct.
    pub fn struct_val(&self) -> (r: &StructVal)
        requires
            self@ is Struct,
        ensures
            CellM::Struct(r@) == self@,
    {
        broadcast use group_cell_view;

        match self {
            Cell::Struct(s) => s,
            _ => vstd::pervasive::unreached(),
        }
    }
}

fn walk_mut<'a>(c: &'a mut Cell, path: &[PathStep], i: usize) -> (r: &'a mut Cell)
    requires
        i <= path@.len(),
        spec_get(old(c)@, path@.skip(i as int)) is Some,
    ensures
        Some((*r)@) == spec_get(old(c)@, path@.skip(i as int)),
        final(c)@ == spec_put(old(c)@, path@.skip(i as int), (*final(r))@),
    decreases path@.len() - i,
{
    if i == path.len() {
        proof {
            assert(path@.skip(i as int) =~= Seq::<PathStep>::empty());
        }
        return c;
    }
    proof {
        lemma_skip_first(path@, i as int);
    }
    let step = path[i];
    proof {
        lemma_put_cons(old(c)@, path@.skip(i as int), (*final(c))@);
    }
    let next = c.index_mut(&step);
    let r = walk_mut(next, path, i + 1);
    proof {
        lemma_put_cons(old(c)@, path@.skip(i as int), (*final(r))@);
    }
    r
}

impl Document {
    pub fn root(&self, reg: Region) -> (r: &Cell)
        ensures
            r@ == spec_root(self@, reg),
    {
        match reg {
            Region::Rim => &self.rim,
            Region::Ram => &self.ram,
            Region::Rom => &self.rom,
        }
    }

    pub fn root_mut(&mut self, reg: Region) -> (r: &mut Cell)
        ensures
            (*r)@ == spec_root(old(self)@, reg),
            final(self)@ == spec_with_root(old(self)@, reg, (*final(r))@),
    {
        match reg {
            Region::Rim => &mut self.rim,
            Region::Ram => &mut self.ram,
            Region::Rom => &mut self.rom,
        }
    }

    /// The cell at `loc`.
    pub fn resolve(&self, loc: &CellLocation) -> (r: &Cell)
        requires
            spec_at(self@, loc@) is Some,
        ensures
            Some(r@) == spec_at(self@, loc@),
    {
        let mut current = self.root(loc.region);
        let mut i: usize = 0;
        proof {
            assert(loc.path@.skip(0) =~= loc.path@);
        }
        while i < loc.path.len()
            invariant
                i <= loc.path@.len(),
                spec_get(current@, loc.path@.skip(i as int)) == spec_at(self@, loc@),
                spec_at(self@, loc@) is Some,
            decreases loc.path@.len() - i,
        {
            proof {
                lemma_skip_first(loc.path@, i as int);
            }
            current = current.index(&loc.path[i]);
            i = i + 1;
        }
        proof {
            assert(loc.path@.skip(i as int) =~= Seq::<PathStep>::empty());
        }
        current
    }

    /// The cell at `loc`, for writing.
    pub fn resolve_mut(&mut self, loc: &CellLocation) -> (r: &mut Cell)
        requires
            spec_at(old(self)@, loc@) is Some,
        ensures
            Some((*r)@) == spec_at(old(self)@, loc@),
            final(self)@ == spec_set_at(old(self)@, loc@, (*final(r))@),
    {
        proof {
            assert(loc.path@.skip(0) =~= loc.path@);
        }
        let root = self.root_mut(loc.region);
        walk_mut(root, loc.path.as_slice(), 0)
    }

    /// Copy the cell at `src` onto `dest`.
    pub fn copy(&mut self, dest: &CellLocation, src: &CellLocation)
        requires
            spec_at(old(self)@, src@) is Some,
            spec_at(old(self)@, dest@) is Some,
        ensures
            final(self)@ == spec_set_at(old(self)@, dest@, spec_at(old(self)@, src@)->Some_0),
    {
        let v = clone_cell(self.resolve(src));
        *self.resolve_mut(dest) = v;
    }
}

// ===========================================================================
// Breadth operations
// ===========================================================================

/// A tree's contents match its declared dimensions.
pub open spec fn spec_valid_shape(t: TreeM) -> bool {
    t.contents.len() == t.width * t.height
}

impl Tree {
    /// Insert an empty cell before column `at_col` of every row.
    fn insert_col_empty(&mut self, at_col: usize)
        requires
            spec_valid_shape(old(self)@),
            at_col <= old(self).width,
            old(self).width < usize::MAX,
        ensures
            final(self)@ == (TreeM {
                contents: spec_insert_col_cells(
                    old(self)@.contents,
                    old(self).width as int,
                    at_col as int,
                    old(self).height as nat,
                    CellM::Empty,
                ),
                width: (old(self).width + 1) as usize,
                height: old(self).height,
            }),
    {
        broadcast use group_cell_view;

        let w = self.width;
        let h = self.height;
        let _len = self.contents.len();
        let ghost old_cells = self@.contents;
        let mut k: usize = h;
        assert(h * w == w * h) by (nonlinear_arith);
        assert(old_cells.skip(w * h) =~= Seq::<CellM>::empty());
        assert(old_cells.take(k * w) =~= old_cells) by {
            assert(k * w == w * h) by (nonlinear_arith)
                requires
                    k == h,
            ;
        }
        while k > 0
            invariant
                k <= h,
                self.width == w,
                self.height == h,
                old_cells.len() == w * h,
                at_col <= w,
                k * w <= old_cells.len(),
                old_cells.len() <= usize::MAX,
                self.contents@.len() == self@.contents.len(),
                self@.contents == old_cells.take(k * w) + spec_insert_col_cells(
                    old_cells.skip(k * w),
                    w as int,
                    at_col as int,
                    (h - k) as nat,
                    CellM::Empty,
                ),
            decreases k,
        {
            k = k - 1;
            assert(k * w + w == (k + 1) * w) by (nonlinear_arith);
            assert((k + 1) * w <= w * h) by (nonlinear_arith)
                requires
                    k + 1 <= h,
            ;
            let pos = k * w + at_col;
            let ghost before = self@.contents;
            self.contents.insert(pos, Cell::Empty);
            proof {
                assert(self@.contents == before.insert(pos as int, CellM::Empty));
                let c = old_cells.skip(k * w);
                let rest_old = spec_insert_col_cells(
                    old_cells.skip((k + 1) * w),
                    w as int,
                    at_col as int,
                    (h - k - 1) as nat,
                    CellM::Empty,
                );
                assert(c.skip(w as int) =~= old_cells.skip((k + 1) * w));
                assert(spec_insert_col_cells(c, w as int, at_col as int, (h - k) as nat, CellM::Empty)
                    == c.take(at_col as int) + seq![CellM::Empty] + c.subrange(at_col as int, w as int)
                    + rest_old);
                assert(self@.contents =~= old_cells.take(k * w) + spec_insert_col_cells(
                    c,
                    w as int,
                    at_col as int,
                    (h - k) as nat,
                    CellM::Empty,
                ));
            }
        }
        proof {
            assert(old_cells.skip(0) =~= old_cells);
            assert(old_cells.take(0) =~= Seq::<CellM>::empty());
            assert(self@.contents =~= spec_insert_col_cells(
                old_cells,
                w as int,
                at_col as int,
                h as nat,
                CellM::Empty,
            ));
        }
        self.width = w + 1;
    }

    /// Insert a row of empty cells before row `at_row`.
    fn insert_row_empty(&mut self, at_row: usize)
        requires
            spec_valid_shape(old(self)@),
            at_row <= old(self).height,
            old(self).height < usize::MAX,
        ensures
            final(self)@ == (TreeM {
                contents: spec_insert_row_cells(
                    old(self)@.contents,
                    old(self).width as int,
                    at_row as int,
                    CellM::Empty,
                ),
                width: old(self).width,
                height: (old(self).height + 1) as usize,
            }),
    {
        broadcast use group_cell_view;

        let w = self.width;
        let h = self.height;
        let _len = self.contents.len();
        let ghost old_cells = self@.contents;
        assert(at_row * w <= h * w) by (nonlinear_arith)
            requires
                at_row <= h,
        ;
        assert(h * w == w * h) by (nonlinear_arith);
        let start = at_row * w;
        let mut i: usize = 0;
        while i < w
            invariant
                i <= w,
                start == at_row * w,
                start <= old_cells.len(),
                old_cells.len() <= usize::MAX,
                self.contents@.len() == self@.contents.len(),
                self.width == w,
                self.height == h,
                self@.contents == old_cells.take(start as int) + Seq::new(
                    i as nat,
                    |k: int| CellM::Empty,
                ) + old_cells.skip(start as int),
            decreases w - i,
        {
            let _l = self.contents.len();
            let ghost before = self@.contents;
            self.contents.insert(start + i, Cell::Empty);
            assert(self@.contents == before.insert(start + i, CellM::Empty));
            assert(self@.contents =~= old_cells.take(start as int) + Seq::new(
                (i + 1) as nat,
                |k: int| CellM::Empty,
            ) + old_cells.skip(start as int));
            i = i + 1;
        }
        self.height = h + 1;
    }

    /// Remove row `row`.
    fn delete_row_at(&mut self, row: usize)
        requires
            spec_valid_shape(old(self)@),
            row < old(self).height,
        ensures
            final(self)@ == (TreeM {
                contents: spec_delete_row_cells(old(self)@.contents, old(self).width as int, row as int),
                width: old(self).width,
                height: (old(self).height - 1) as usize,
            }),
    {
        broadcast use group_cell_view;

        let w = self.width;
        let h = self.height;
        let _len = self.contents.len();
        let ghost old_cells = self@.contents;
        assert(row * w + w <= h * w) by (nonlinear_arith)
            requires
                row < h,
        ;
        assert(h * w == w * h) by (nonlinear_arith);
        let start = row * w;
        let mut i: usize = 0;
        while i < w
            invariant
                i <= w,
                start == row * w,
                start + w <= old_cells.len(),
                self.contents@.len() == self@.contents.len(),
                self.width == w,
                self.height == h,
                self@.contents == old_cells.take(start as int) + old_cells.skip(start + i),
            decreases w - i,
        {
            let ghost before = self@.contents;
            self.contents.remove(start);
            assert(self@.contents == before.remove(start as int));
            assert(self@.contents =~= old_cells.take(start as int) + old_cells.skip(start + i + 1));
            i = i + 1;
        }
        self.height = h - 1;
    }

    /// Remove column `col` of every row.
    fn delete_col_at(&mut self, col: usize)
        requires
            spec_valid_shape(old(self)@),
            col < old(self).width,
        ensures
            final(self)@ == (TreeM {
                contents: spec_delete_col_cells(
                    old(self)@.contents,
                    old(self).width as int,
                    col as int,
                    old(self).height as nat,
                ),
                width: (old(self).width - 1) as usize,
                height: old(self).height,
            }),
    {
        broadcast use group_cell_view;

        let w = self.width;
        let h = self.height;
        let _len = self.contents.len();
        let ghost old_cells = self@.contents;
        let mut k: usize = h;
        assert(h * w == w * h) by (nonlinear_arith);
        assert(old_cells.skip(w * h) =~= Seq::<CellM>::empty());
        assert(old_cells.take(k * w) =~= old_cells) by {
            assert(k * w == w * h) by (nonlinear_arith)
                requires
                    k == h,
            ;
        }
        while k > 0
            invariant
                k <= h,
                self.width == w,
                self.height == h,
                old_cells.len() == w * h,
                col < w,
                k * w <= old_cells.len(),
                old_cells.len() <= usize::MAX,
                self.contents@.len() == self@.contents.len(),
                self@.contents == old_cells.take(k * w) + spec_delete_col_cells(
                    old_cells.skip(k * w),
                    w as int,
                    col as int,
                    (h - k) as nat,
                ),
            decreases k,
        {
            k = k - 1;
            assert(k * w + w == (k + 1) * w) by (nonlinear_arith);
            assert((k + 1) * w <= w * h) by (nonlinear_arith)
                requires
                    k + 1 <= h,
            ;
            let pos = k * w + col;
            let ghost before = self@.contents;
            self.contents.remove(pos);
            proof {
                assert(self@.contents == before.remove(pos as int));
                let c = old_cells.skip(k * w);
                let rest_old = spec_delete_col_cells(
                    old_cells.skip((k + 1) * w),
                    w as int,
                    col as int,
                    (h - k - 1) as nat,
                );
                assert(c.skip(w as int) =~= old_cells.skip((k + 1) * w));
                assert(spec_delete_col_cells(c, w as int, col as int, (h - k) as nat) == c.take(
                    col as int,
                ) + c.subrange(col + 1, w as int) + rest_old);
                assert(self@.contents =~= old_cells.take(k * w) + spec_delete_col_cells(
                    c,
                    w as int,
                    col as int,
                    (h - k) as nat,
                ));
            }
        }
        proof {
            assert(old_cells.skip(0) =~= old_cells);
            assert(old_cells.take(0) =~= Seq::<CellM>::empty());
            assert(self@.contents =~= spec_delete_col_cells(old_cells, w as int, col as int, h as nat));
        }
        self.width = w - 1;
    }
}

// ===========================================================================
// Specifications of the operations
// ===========================================================================

pub struct StructVariantM {
    pub name: Seq<char>,
    pub fields: Seq<FieldDefM>,
}

pub struct StructDefM {
    pub name: Seq<char>,
    pub variants: Seq<StructVariantM>,
}

impl View for StructVariant {
    type V = StructVariantM;

    open spec fn view(&self) -> StructVariantM {
        StructVariantM { name: self.name@, fields: self.fields@.map_values(|f: FieldDef| f@) }
    }
}

impl View for StructDef {
    type V = StructDefM;

    open spec fn view(&self) -> StructDefM {
        StructDefM { name: self.name@, variants: self.variants@.map_values(|v: StructVariant| v@) }
    }
}

impl View for Types {
    type V = Seq<StructDefM>;

    open spec fn view(&self) -> Seq<StructDefM> {
        self.0@.map_values(|s: StructDef| s@)
    }
}

/// The path ends with a step into a tree cell.
pub open spec fn spec_ends_in_tree(p: LocationM) -> bool {
    p.path.len() > 0 && p.path.last() is Tree
}

/// The location of the cell around the last step.
pub open spec fn spec_parent(p: LocationM) -> LocationM {
    LocationM { region: p.region, path: p.path.drop_last() }
}

/// The column and row of the last step of a path that ends in a tree.
pub open spec fn spec_last_xy(p: LocationM) -> (usize, usize) {
    match p.path.last() {
        PathStep::Tree(x, y) => (x, y),
        _ => (0, 0),
    }
}

/// The tree around the cell at `p`, when the cell around the last step is
/// a tree.
pub open spec fn spec_breadth_target(d: DocumentM, p: LocationM) -> Option<TreeM> {
    match spec_at(d, spec_parent(p)) {
        Some(CellM::Tree(t)) => Some(t),
        _ => None,
    }
}

/// The document with the tree around the cell at `p` replaced by `t`.
pub open spec fn spec_with_tree(d: DocumentM, p: LocationM, t: TreeM) -> DocumentM {
    spec_set_at(d, spec_parent(p), CellM::Tree(t))
}

/// A breadth operation can be carried out at `cell`: its path ends in a
/// tree step, the cell around it resolves, and if that is a tree it is
/// well-shaped and `bound` holds of it.
pub open spec fn spec_breadth_ok(d: DocumentM, cell: LocationM, bound: spec_fn(TreeM) -> bool) -> bool {
    &&& spec_ends_in_tree(cell)
    &&& spec_at(d, spec_parent(cell)) is Some
    &&& match spec_breadth_target(d, cell) {
        Some(t) => spec_valid_shape(t) && bound(t),
        None => true,
    }
}

pub open spec fn spec_add_column(d: DocumentM, cell: LocationM, is_right: bool) -> DocumentM {
    match spec_breadth_target(d, cell) {
        Some(t) => spec_with_tree(
            d,
            cell,
            TreeM {
                contents: spec_insert_col_cells(
                    t.contents,
                    t.width as int,
                    spec_last_xy(cell).0 + if is_right {
                        1int
                    } else {
                        0int
                    },
                    t.height as nat,
                    CellM::Empty,
                ),
                width: (t.width + 1) as usize,
                height: t.height,
            },
        ),
        None => d,
    }
}

pub open spec fn spec_add_row(d: DocumentM, cell: LocationM, is_down: bool) -> DocumentM {
    match spec_breadth_target(d, cell) {
        Some(t) => spec_with_tree(
            d,
            cell,
            TreeM {
                contents: spec_insert_row_cells(
                    t.contents,
                    t.width as int,
                    spec_last_xy(cell).1 + if is_down {
                        1int
                    } else {
                        0int
                    },
                    CellM::Empty,
                ),
                width: t.width,
                height: (t.height + 1) as usize,
            },
        ),
        None => d,
    }
}

/// The tree without row `r`.
pub open spec fn spec_without_row(d: DocumentM, cell: LocationM, t: TreeM, r: int) -> DocumentM {
    spec_with_tree(
        d,
        cell,
        TreeM {
            contents: spec_delete_row_cells(t.contents, t.width as int, r),
            width: t.width,
            height: (t.height - 1) as usize,
        },
    )
}

/// The tree without column `c`.
pub open spec fn spec_without_col(d: DocumentM, cell: LocationM, t: TreeM, c: int) -> DocumentM {
    spec_with_tree(
        d,
        cell,
        TreeM {
            contents: spec_delete_col_cells(t.contents, t.width as int, c, t.height as nat),
            width: (t.width - 1) as usize,
            height: t.height,
        },
    )
}

pub open spec fn spec_delete_row_above(d: DocumentM, cell: LocationM) -> DocumentM {
    let y = spec_last_xy(cell).1;
    if y == 0 {
        d
    } else {
        match spec_breadth_target(d, cell) {
            Some(t) => spec_without_row(d, cell, t, y - 1),
            None => d,
        }
    }
}

pub open spec fn spec_delete_row_below(d: DocumentM, cell: LocationM) -> DocumentM {
    let y = spec_last_xy(cell).1;
    match spec_breadth_target(d, cell) {
        Some(t) => if y == t.height - 1 {
            d
        } else {
            spec_without_row(d, cell, t, y + 1)
        },
        None => d,
    }
}

pub open spec fn spec_delete_column_left(d: DocumentM, cell: LocationM) -> DocumentM {
    let x = spec_last_xy(cell).0;
    if x == 0 {
        d
    } else {
        match spec_breadth_target(d, cell) {
            Some(t) => spec_without_col(d, cell, t, x - 1),
            None => d,
        }
    }
}

pub open spec fn spec_delete_column_right(d: DocumentM, cell: LocationM) -> DocumentM {
    let x = spec_last_xy(cell).0;
    match spec_breadth_target(d, cell) {
        Some(t) => if x == t.width - 1 {
            d
        } else {
            spec_without_col(d, cell, t, x + 1)
        },
        None => d,
    }
}

pub open spec fn spec_edit_symbol(d: DocumentM, cell: LocationM, new: Seq<char>) -> DocumentM {
    spec_set_at(d, cell, CellM::Symbol(new))
}

/// The struct at `cell` at variant `variant_to`, holding the defaults of
/// that variant's fields.
pub open spec fn spec_edit_variant(types: Seq<StructDefM>, d: DocumentM, cell: LocationM, variant_to: usize) -> DocumentM {
    let sv = (spec_at(d, cell)->Some_0)->Struct_0;
    spec_set_at(
        d,
        cell,
        CellM::Struct(
            StructValM {
                id: sv.id,
                variant: variant_to,
                fields: types[sv.id as int].variants[variant_to as int].fields.map_values(
                    |f: FieldDefM| spec_field_default(f),
                ),
            },
        ),
    )
}

// ===========================================================================
// The operations
// ===========================================================================

fn parent_of(cell: &CellLocation) -> (r: (CellLocation, usize, usize))
    requires
        spec_ends_in_tree(cell@),
    ensures
        r.0@ == spec_parent(cell@),
        (r.1, r.2) == spec_last_xy(cell@),
{
    let n = cell.path.len();
    let (x, y) = match cell.path[n - 1] {
        PathStep::Tree(x, y) => (x, y),
        _ => vstd::pervasive::unreached(),
    };
    let mut path = cell.path.clone();
    path.pop();
    proof {
        assert(path@ =~= cell.path@.drop_last());
    }
    (CellLocation { region: cell.region, path }, x, y)
}

impl Document {
    pub fn add_column_right(&mut self, cell: &CellLocation)
        requires
            spec_breadth_ok(
                old(self)@,
                cell@,
                (|t: TreeM| spec_last_xy(cell@).0 + 1 <= t.width && t.width < usize::MAX),
            ),
        ensures
            final(self)@ == spec_add_column(old(self)@, cell@, true),
    {
        self.add_column(cell, true);
    }

    pub fn add_column_left(&mut self, cell: &CellLocation)
        requires
            spec_breadth_ok(
                old(self)@,
                cell@,
                (|t: TreeM| spec_last_xy(cell@).0 <= t.width && t.width < usize::MAX),
            ),
        ensures
            final(self)@ == spec_add_column(old(self)@, cell@, false),
    {
        self.add_column(cell, false);
    }

    /// Insert a column of empty cells beside the cell's column, in the tree
    /// around the cell.
    pub fn add_column(&mut self, cell: &CellLocation, is_right: bool)
        requires
            spec_breadth_ok(
                old(self)@,
                cell@,
                (|t: TreeM|
                    spec_last_xy(cell@).0 + (if is_right {
                        1int
                    } else {
                        0int
                    }) <= t.width && t.width < usize::MAX),
            ),
        ensures
            final(self)@ == spec_add_column(old(self)@, cell@, is_right),
    {
        broadcast use group_cell_view;

        let (parent, x, _y) = parent_of(cell);
        proof {
            lemma_put_get(spec_root(old(self)@, parent.region), parent.path@);
        }
        let p = self.resolve_mut(&parent);
        match p {
            Cell::Tree(t) => {
                let at = if is_right {
                    x + 1
                } else {
                    x
                };
                t.insert_col_empty(at);
            },
            _ => {},
        }
    }

    /// Insert a row of empty cells above or below the cell's row, in the
    /// tree around the cell.
    pub fn add_row(&mut self, cell: &CellLocation, is_down: bool)
        requires
            spec_breadth_ok(
                old(self)@,
                cell@,
                (|t: TreeM|
                    spec_last_xy(cell@).1 + (if is_down {
                        1int
                    } else {
                        0int
                    }) <= t.height && t.height < usize::MAX),
            ),
        ensures
            final(self)@ == spec_add_row(old(self)@, cell@, is_down),
    {
        broadcast use group_cell_view;

        let (parent, _x, y) = parent_of(cell);
        proof {
            lemma_put_get(spec_root(old(self)@, parent.region), parent.path@);
        }
        let p = self.resolve_mut(&parent);
        match p {
            Cell::Tree(t) => {
                let at = if is_down {
                    y + 1
                } else {
                    y
                };
                t.insert_row_empty(at);
            },
            _ => {},
        }
    }

    pub fn add_row_above(&mut self, cell: &CellLocation)
        requires
            spec_breadth_ok(
                old(self)@,
                cell@,
                (|t: TreeM| spec_last_xy(cell@).1 <= t.height && t.height < usize::MAX),
            ),
        ensures
            final(self)@ == spec_add_row(old(self)@, cell@, false),
    {
        self.add_row(cell, false);
    }

    pub fn add_row_below(&mut self, cell: &CellLocation)
        requires
            spec_breadth_ok(
                old(self)@,
                cell@,
                (|t: TreeM| spec_last_xy(cell@).1 + 1 <= t.height && t.height < usize::MAX),
            ),
        ensures
            final(self)@ == spec_add_row(old(self)@, cell@, true),
    {
        self.add_row(cell, true);
    }

    /// Replace the symbol at `cell` by `new`.
    pub fn edit_symbol(&mut self, cell: &CellLocation, new: &str)
        requires
            spec_at(old(self)@, cell@) matches Some(CellM::Symbol(_)),
        ensures
            final(self)@ == spec_edit_symbol(old(self)@, cell@, new@),
    {
        broadcast use group_cell_view;

        match self.resolve_mut(cell) {
            Cell::Symbol(s) => {
                *s = new.to_owned();
            },
            _ => vstd::pervasive::unreached(),
        }
    }

    /// Put the struct at `cell` at variant `variant_to`, with the defaults of
    /// that variant's fields.
    pub fn edit_variant(&mut self, cell: &CellLocation, variant_to: usize, types: &Types)
        requires
            spec_at(old(self)@, cell@) matches Some(CellM::Struct(sv)) && sv.id < types@.len()
                && variant_to < types@[sv.id as int].variants.len(),
        ensures
            final(self)@ == spec_edit_variant(types@, old(self)@, cell@, variant_to),
    {
        broadcast use group_cell_view;

        match self.resolve_mut(cell) {
            Cell::Struct(sv) => {
                let id = sv.id;
                let fields = &types.0[id].variants[variant_to].fields;
                let ghost fm = types@[id as int].variants[variant_to as int].fields;
                assert(fm == fields@.map_values(|f: FieldDef| f@));
                let mut new_fields: Vec<Cell> = Vec::new();
                let mut i: usize = 0;
                while i < fields.len()
                    invariant
                        fm == fields@.map_values(|f: FieldDef| f@),
                        i <= fields@.len(),
                        cells_view(new_fields@) == fm.take(i as int).map_values(
                            |f: FieldDefM| spec_field_default(f),
                        ),
                    decreases fields@.len() - i,
                {
                    new_fields.push(fields[i].default());
                    assert(fm.take(i + 1).map_values(|f: FieldDefM| spec_field_default(f))
                        =~= fm.take(i as int).map_values(|f: FieldDefM| spec_field_default(f)).push(
                        spec_field_default(fm[i as int]),
                    ));
                    i = i + 1;
                }
                assert(fm.take(fm.len() as int) =~= fm);
                sv.fields = new_fields;
                sv.variant = variant_to;
            },
            _ => vstd::pervasive::unreached(),
        }
    }

    pub fn delete_row_above(&mut self, cell: &CellLocation)
        requires
            spec_ends_in_tree(cell@),
            spec_last_xy(cell@).1 > 0 ==> spec_breadth_ok(
                old(self)@,
                cell@,
                (|t: TreeM| spec_last_xy(cell@).1 <= t.height),
            ),
        ensures
            final(self)@ == spec_delete_row_above(old(self)@, cell@),
    {
        broadcast use group_cell_view;

        let (parent, _x, y) = parent_of(cell);
        if y == 0 {
            return;
        }
        proof {
            lemma_put_get(spec_root(old(self)@, parent.region), parent.path@);
        }
        match self.resolve_mut(&parent) {
            Cell::Tree(t) => {
                t.delete_row_at(y - 1);
            },
            _ => {},
        }
    }

    pub fn delete_row_below(&mut self, cell: &CellLocation)
        requires
            spec_breadth_ok(old(self)@, cell@, (|t: TreeM| spec_last_xy(cell@).1 < t.height)),
        ensures
            final(self)@ == spec_delete_row_below(old(self)@, cell@),
    {
        broadcast use group_cell_view;

        let (parent, _x, y) = parent_of(cell);
        proof {
            lemma_put_get(spec_root(old(self)@, parent.region), parent.path@);
        }
        match self.resolve_mut(&parent) {
            Cell::Tree(t) => {
                if y == t.height - 1 {
                    return;
                }
                t.delete_row_at(y + 1);
            },
            _ => {},
        }
    }

    pub fn delete_column_left(&mut self, cell: &CellLocation)
        requires
            spec_ends_in_tree(cell@),
            spec_last_xy(cell@).0 > 0 ==> spec_breadth_ok(
                old(self)@,
                cell@,
                (|t: TreeM| spec_last_xy(cell@).0 <= t.width),
            ),
        ensures
            final(self)@ == spec_delete_column_left(old(self)@, cell@),
    {
        broadcast use group_cell_view;

        let (parent, x, _y) = parent_of(cell);
        if x == 0 {
            return;
        }
        proof {
            lemma_put_get(spec_root(old(self)@, parent.region), parent.path@);
        }
        match self.resolve_mut(&parent) {
            Cell::Tree(t) => {
                t.delete_col_at(x - 1);
            },
            _ => {},
        }
    }

    pub fn delete_column_right(&mut self, cell: &CellLocation)
        requires
            spec_breadth_ok(old(self)@, cell@, (|t: TreeM| spec_last_xy(cell@).0 < t.width)),
        ensures
            final(self)@ == spec_delete_column_right(old(self)@, cell@),
    {
        broadcast use group_cell_view;

        let (parent, x, _y) = parent_of(cell);
        proof {
            lemma_put_get(spec_root(old(self)@, parent.region), parent.path@);
        }
        match self.resolve_mut(&parent) {
            Cell::Tree(t) => {
                if x == t.width - 1 {
                    return;
                }
                t.delete_col_at(x + 1);
            },
            _ => {},
        }
    }
}

// ===========================================================================
// Grids stay rectangular
// ===========================================================================

/// Every tree in the cell, the cell itself included, holds exactly
/// `width * height` cells.
pub open spec fn spec_rect(c: CellM) -> bool
    decreases c,
{
    match c {
        CellM::Tree(t) => spec_valid_shape(t) && forall|i: int|
            0 <= i < t.contents.len() ==> spec_rect(#[trigger] t.contents[i]),
        CellM::Struct(sv) => forall|i: int| 0 <= i < sv.fields.len() ==> spec_rect(#[trigger] sv.fields[i]),
        _ => true,
    }
}

/// Every grid of the document is rectangular.
pub open spec fn spec_doc_rect(d: DocumentM) -> bool {
    spec_rect(d.rim) && spec_rect(d.ram) && spec_rect(d.rom)
}

proof fn lemma_get_rect(c: CellM, path: Seq<PathStep>)
    requires
        spec_rect(c),
        spec_get(c, path) is Some,
    ensures
        spec_rect(spec_get(c, path)->Some_0),
    decreases path.len(),
{
    if path.len() > 0 {
        let next = spec_step(c, path[0])->Some_0;
        assert(spec_rect(next));
        lemma_get_rect(next, path.drop_first());
    }
}

proof fn lemma_put_rect(c: CellM, path: Seq<PathStep>, v: CellM)
    requires
        spec_rect(c),
        spec_rect(v),
    ensures
        spec_rect(spec_put(c, path, v)),
    decreases path.len(),
{
    if path.len() > 0 {
        let rest = path.drop_first();
        match (c, path[0]) {
            (CellM::Tree(t), PathStep::Tree(x, y)) => {
                let k = y * t.width + x;
                if k < t.contents.len() {
                    lemma_put_rect(t.contents[k], rest, v);
                    let c2 = t.contents.update(k, spec_put(t.contents[k], rest, v));
                    assert forall|i: int| 0 <= i < c2.len() implies spec_rect(#[trigger] c2[i]) by {
                        if i != k {
                            assert(spec_rect(t.contents[i]));
                        }
                    }
                }
            },
            (CellM::Struct(sv), PathStep::Struct(i)) => {
                if i < sv.fields.len() {
                    lemma_put_rect(sv.fields[i as int], rest, v);
                    let f2 = sv.fields.update(i as int, spec_put(sv.fields[i as int], rest, v));
                    assert forall|j: int| 0 <= j < f2.len() implies spec_rect(#[trigger] f2[j]) by {
                        if j != i {
                            assert(spec_rect(sv.fields[j]));
                        }
                    }
                }
            },
            _ => {},
        }
    }
}

proof fn lemma_set_at_rect(d: DocumentM, loc: LocationM, v: CellM)
    requires
        spec_doc_rect(d),
        spec_rect(v),
    ensures
        spec_doc_rect(spec_set_at(d, loc, v)),
{
    lemma_put_rect(spec_root(d, loc.region), loc.path, v);
}

proof fn lemma_any_default_rect()
    ensures
        spec_rect(spec_any_default()),
{
    let t = spec_any_default()->Tree_0;
    assert(t.contents.len() == 1);
    assert(spec_valid_shape(t));
    assert(spec_rect(t.contents[0]));
}

/// A new document's grids are rectangular.
pub proof fn lemma_new_rect(rim_field: FieldDefM, n: nat)
    requires
        n + 2 <= usize::MAX,
    ensures
        spec_doc_rect(
            DocumentM {
                rim_field,
                rim: spec_field_default(rim_field),
                ram: spec_any_default(),
                rom: spec_rom(n),
            },
        ),
{
    lemma_any_default_rect();
    let rom = spec_rom(n)->Tree_0;
    let structs = Seq::new(
        n,
        |i: int| CellM::Struct(StructValM { id: i as usize, variant: 0, fields: Seq::empty() }),
    );
    assert(rom.contents == structs + seq![CellM::Symbol(Seq::empty()), spec_any_default()]);
    assert(rom.contents.len() == n + 2 && rom.height == n + 2 && rom.width == 1);
    assert(spec_valid_shape(rom));
    assert forall|i: int| 0 <= i < rom.contents.len() implies spec_rect(#[trigger] rom.contents[i]) by {
        if i < n {
            assert(rom.contents[i] == structs[i]);
        } else if i == n {
            assert(rom.contents[i] == CellM::Symbol(Seq::empty()));
        } else {
            assert(rom.contents[i] == spec_any_default());
        }
    }
}

/// A copy keeps every grid rectangular.
pub proof fn lemma_copy_keeps_rect(d: DocumentM, dest: LocationM, src: LocationM)
    requires
        spec_doc_rect(d),
        spec_at(d, src) is Some,
    ensures
        spec_doc_rect(spec_set_at(d, dest, spec_at(d, src)->Some_0)),
{
    lemma_get_rect(spec_root(d, src.region), src.path);
    lemma_set_at_rect(d, dest, spec_at(d, src)->Some_0);
}

/// Editing a symbol or choosing a variant keeps every grid rectangular.
pub proof fn lemma_edits_keep_rect(types: Seq<StructDefM>, d: DocumentM, cell: LocationM, new: Seq<char>, variant_to: usize)
    requires
        spec_doc_rect(d),
    ensures
        spec_doc_rect(spec_edit_symbol(d, cell, new)),
        spec_doc_rect(spec_edit_variant(types, d, cell, variant_to)),
{
    lemma_set_at_rect(d, cell, CellM::Symbol(new));
    let sv = (spec_at(d, cell)->Some_0)->Struct_0;
    let fields = types[sv.id as int].variants[variant_to as int].fields.map_values(
        |f: FieldDefM| spec_field_default(f),
    );
    assert forall|i: int| 0 <= i < fields.len() implies spec_rect(#[trigger] fields[i]) by {
        lemma_any_default_rect();
    }
    lemma_set_at_rect(d, cell, CellM::Struct(StructValM { id: sv.id, variant: variant_to, fields }));
}

/// A rectangular grid rebuilt into a rectangular shape from empty cells and
/// its own cells keeps every grid rectangular.
proof fn lemma_rebuilt_rect(d: DocumentM, cell: LocationM, t: TreeM, t2: TreeM)
    requires
        spec_doc_rect(d),
        spec_breadth_target(d, cell) == Some(t),
        spec_valid_shape(t2),
        forall|k: int|
            0 <= k < t2.contents.len() ==> (#[trigger] t2.contents[k] is Empty || exists|j: int|
                0 <= j < t.contents.len() && t.contents[j] == t2.contents[k]),
    ensures
        spec_doc_rect(spec_with_tree(d, cell, t2)),
{
    let p = spec_parent(cell);
    lemma_get_rect(spec_root(d, p.region), p.path);
    assert(spec_rect(CellM::Tree(t)));
    assert forall|k: int| 0 <= k < t2.contents.len() implies spec_rect(#[trigger] t2.contents[k]) by {
        if !(t2.contents[k] is Empty) {
            let j = choose|j: int| 0 <= j < t.contents.len() && t.contents[j] == t2.contents[k];
            assert(spec_rect(t.contents[j]));
        }
    }
    lemma_set_at_rect(d, p, CellM::Tree(t2));
}

/// Adding a row keeps every grid rectangular.
pub proof fn lemma_add_row_keeps_rect(d: DocumentM, cell: LocationM, is_down: bool)
    requires
        spec_doc_rect(d),
        spec_breadth_ok(
            d,
            cell,
            (|t: TreeM|
                spec_last_xy(cell).1 + (if is_down {
                    1int
                } else {
                    0int
                }) <= t.height && t.height < usize::MAX),
        ),
    ensures
        spec_doc_rect(spec_add_row(d, cell, is_down)),
{
    if let Some(t) = spec_breadth_target(d, cell) {
        let at = spec_last_xy(cell).1 + if is_down {
            1int
        } else {
            0int
        };
        let w = t.width as int;
        let cells2 = spec_insert_row_cells(t.contents, w, at, CellM::Empty);
        let t2 = TreeM { contents: cells2, width: t.width, height: (t.height + 1) as usize };
        assert(0 <= at * w <= t.contents.len()) by (nonlinear_arith)
            requires
                0 <= at <= t.height,
                w >= 0,
                t.contents.len() == w * t.height,
        ;
        assert(w * (t.height + 1) == w * t.height + w) by (nonlinear_arith);
        assert(cells2.len() == t.contents.len() + w);
        assert forall|k: int| 0 <= k < cells2.len() implies (#[trigger] cells2[k] is Empty || exists|j: int|
            0 <= j < t.contents.len() && t.contents[j] == cells2[k]) by {
            if k < at * w {
                assert(cells2[k] == t.contents[k]);
            } else if k >= at * w + w {
                assert(cells2[k] == t.contents[k - w]);
            }
        }
        lemma_rebuilt_rect(d, cell, t, t2);
    }
}

/// Adding a column keeps every grid rectangular.
pub proof fn lemma_add_column_keeps_rect(d: DocumentM, cell: LocationM, is_right: bool)
    requires
        spec_doc_rect(d),
        spec_breadth_ok(
            d,
            cell,
            (|t: TreeM|
                spec_last_xy(cell).0 + (if is_right {
                    1int
                } else {
                    0int
                }) <= t.width && t.width < usize::MAX),
        ),
    ensures
        spec_doc_rect(spec_add_column(d, cell, is_right)),
{
    if let Some(t) = spec_breadth_target(d, cell) {
        let at = spec_last_xy(cell).0 + if is_right {
            1int
        } else {
            0int
        };
        let w = t.width as int;
        let h = t.height as nat;
        let cells2 = spec_insert_col_cells(t.contents, w, at, h, CellM::Empty);
        let t2 = TreeM { contents: cells2, width: (t.width + 1) as usize, height: t.height };
        crate::document::lemma_insert_col_len(t.contents, w, at, h, CellM::Empty);
        assert forall|k: int| 0 <= k < cells2.len() implies (#[trigger] cells2[k] is Empty || exists|j: int|
            0 <= j < t.contents.len() && t.contents[j] == cells2[k]) by {
            crate::document::lemma_insert_col_from(t.contents, w, at, h, CellM::Empty, k);
        }
        lemma_rebuilt_rect(d, cell, t, t2);
    }
}

proof fn lemma_without_row_rect(d: DocumentM, cell: LocationM, t: TreeM, r: int)
    requires
        spec_doc_rect(d),
        spec_breadth_target(d, cell) == Some(t),
        spec_valid_shape(t),
        0 <= r < t.height,
    ensures
        spec_doc_rect(spec_without_row(d, cell, t, r)),
{
    let w = t.width as int;
    let cells2 = spec_delete_row_cells(t.contents, w, r);
    let t2 = TreeM { contents: cells2, width: t.width, height: (t.height - 1) as usize };
    assert(0 <= r * w && r * w + w <= t.contents.len()) by (nonlinear_arith)
        requires
            0 <= r < t.height,
            w >= 0,
            t.contents.len() == w * t.height,
    ;
    assert(w * (t.height - 1) == w * t.height - w) by (nonlinear_arith);
    assert(cells2.len() == t.contents.len() - w);
    assert forall|k: int| 0 <= k < cells2.len() implies (#[trigger] cells2[k] is Empty || exists|j: int|
        0 <= j < t.contents.len() && t.contents[j] == cells2[k]) by {
        if k < r * w {
            assert(cells2[k] == t.contents[k]);
        } else {
            assert(cells2[k] == t.contents[k + w]);
        }
    }
    lemma_rebuilt_rect(d, cell, t, t2);
}

proof fn lemma_without_col_rect(d: DocumentM, cell: LocationM, t: TreeM, c: int)
    requires
        spec_doc_rect(d),
        spec_breadth_target(d, cell) == Some(t),
        spec_valid_shape(t),
        0 <= c < t.width,
    ensures
        spec_doc_rect(spec_without_col(d, cell, t, c)),
{
    let w = t.width as int;
    let h = t.height as nat;
    let cells2 = spec_delete_col_cells(t.contents, w, c, h);
    let t2 = TreeM { contents: cells2, width: (t.width - 1) as usize, height: t.height };
    crate::document::lemma_delete_col_len(t.contents, w, c, h);
    assert forall|k: int| 0 <= k < cells2.len() implies (#[trigger] cells2[k] is Empty || exists|j: int|
        0 <= j < t.contents.len() && t.contents[j] == cells2[k]) by {
        crate::document::lemma_delete_col_from(t.contents, w, c, h, k);
    }
    lemma_rebuilt_rect(d, cell, t, t2);
}

/// Deleting the row above keeps every grid rectangular.
pub proof fn lemma_delete_row_above_keeps_rect(d: DocumentM, cell: LocationM)
    requires
        spec_doc_rect(d),
        spec_last_xy(cell).1 > 0 ==> spec_breadth_ok(
            d,
            cell,
            (|t: TreeM| spec_last_xy(cell).1 <= t.height),
        ),
    ensures
        spec_doc_rect(spec_delete_row_above(d, cell)),
{
    let y = spec_last_xy(cell).1;
    if y > 0 {
        if let Some(t) = spec_breadth_target(d, cell) {
            lemma_without_row_rect(d, cell, t, y - 1);
        }
    }
}

/// Deleting the row below keeps every grid rectangular.
pub proof fn lemma_delete_row_below_keeps_rect(d: DocumentM, cell: LocationM)
    requires
        spec_doc_rect(d),
        spec_breadth_ok(d, cell, (|t: TreeM| spec_last_xy(cell).1 < t.height)),
    ensures
        spec_doc_rect(spec_delete_row_below(d, cell)),
{
    let y = spec_last_xy(cell).1;
    if let Some(t) = spec_breadth_target(d, cell) {
        if y != t.height - 1 {
            lemma_without_row_rect(d, cell, t, y + 1);
        }
    }
}

/// Deleting the column to the left keeps every grid rectangular.
pub proof fn lemma_delete_column_left_keeps_rect(d: DocumentM, cell: LocationM)
    requires
        spec_doc_rect(d),
        spec_last_xy(cell).0 > 0 ==> spec_breadth_ok(
            d,
            cell,
            (|t: TreeM| spec_last_xy(cell).0 <= t.width),
        ),
    ensures
        spec_doc_rect(spec_delete_column_left(d, cell)),
{
    let x = spec_last_xy(cell).0;
    if x > 0 {
        if let Some(t) = spec_breadth_target(d, cell) {
            lemma_without_col_rect(d, cell, t, x - 1);
        }
    }
}

/// Deleting the column to the right keeps every grid rectangular.
pub proof fn lemma_delete_column_right_keeps_rect(d: DocumentM, cell: LocationM)
    requires
        spec_doc_rect(d),
        spec_breadth_ok(d, cell, (|t: TreeM| spec_last_xy(cell).0 < t.width)),
    ensures
        spec_doc_rect(spec_delete_column_right(d, cell)),
{
    let x = spec_last_xy(cell).0;
    if let Some(t) = spec_breadth_target(d, cell) {
        if x != t.width - 1 {
            lemma_without_col_rect(d, cell, t, x + 1);
        }
    }
}


// ===========================================================================
// Where the breadth operations put each cell
// ===========================================================================

/// Cell `(x, y)` of row-major cells `width` wide.
pub open spec fn spec_cell_xy(cs: Seq<CellM>, width: int, x: int, y: int) -> CellM {
    cs[width * y + x]
}

/// Reading the cell at `path` after writing it gives back the written cell.
proof fn lemma_get_put(c: CellM, path: Seq<PathStep>, v: CellM)
    requires
        spec_get(c, path) is Some,
    ensures
        spec_get(spec_put(c, path, v), path) == Some(v),
    decreases path.len(),
{
    if path.len() > 0 {
        let next = spec_step(c, path[0])->Some_0;
        lemma_get_put(next, path.drop_first(), v);
    }
}

/// Replacing the tree around `cell` makes the new tree the one around it.
proof fn lemma_target_after(d: DocumentM, cell: LocationM, t2: TreeM)
    requires
        spec_breadth_target(d, cell) is Some,
    ensures
        spec_breadth_target(spec_with_tree(d, cell, t2), cell) == Some(t2),
{
    lemma_get_put(spec_root(d, cell.region), spec_parent(cell).path, CellM::Tree(t2));
}

/// Adding a row next to the cell at `cell` in a well-shaped tree, above the
/// cell's row or, when `is_down`, below it: the tree grows by one row. The
/// rows before the new row are the old rows, the new row is empty, and the
/// rows after it are the old rows moved down by one. Nothing else in the
/// document changes.
pub proof fn lemma_add_row_places(d: DocumentM, cell: LocationM, is_down: bool)
    requires
        spec_breadth_target(d, cell) matches Some(t) && {
            &&& spec_valid_shape(t)
            &&& spec_last_xy(cell).1 + (if is_down {
                1int
            } else {
                0int
            }) <= t.height
            &&& t.height < usize::MAX
        },
    ensures
        ({
            let t = spec_breadth_target(d, cell)->Some_0;
            let at = spec_last_xy(cell).1 + if is_down {
                1int
            } else {
                0int
            };
            let d2 = spec_add_row(d, cell, is_down);
            let w = t.width as int;
            &&& spec_breadth_target(d2, cell) is Some
            &&& d2 == spec_set_at(d, spec_parent(cell), CellM::Tree(spec_breadth_target(d2, cell)->Some_0))
            &&& {
                let t2 = spec_breadth_target(d2, cell)->Some_0;
                &&& t2.width == t.width
                &&& t2.height == t.height + 1
                &&& spec_valid_shape(t2)
                &&& forall|r: int, c: int|
                    0 <= r < t2.height && 0 <= c < w ==> #[trigger] spec_cell_xy(t2.contents, w, c, r) == if r
                        < at {
                        spec_cell_xy(t.contents, w, c, r)
                    } else if r == at {
                        CellM::Empty
                    } else {
                        spec_cell_xy(t.contents, w, c, r - 1)
                    }
            }
        }),
{
    let t = spec_breadth_target(d, cell)->Some_0;
    let at = spec_last_xy(cell).1 + if is_down {
        1int
    } else {
        0int
    };
    let w = t.width as int;
    let h = t.height as int;
    let cs = t.contents;
    let t2 = TreeM {
        contents: spec_insert_row_cells(cs, w, at, CellM::Empty),
        width: t.width,
        height: (t.height + 1) as usize,
    };
    lemma_target_after(d, cell, t2);
    assert(at * w <= cs.len()) by (nonlinear_arith)
        requires
            0 <= at <= h,
            cs.len() == w * h,
            w >= 0,
    ;
    assert(w * (h + 1) == w * h + w) by (nonlinear_arith);
    assert forall|r: int, c: int| 0 <= r < t2.height && 0 <= c < w implies #[trigger] spec_cell_xy(
        t2.contents,
        w,
        c,
        r,
    ) == if r < at {
        spec_cell_xy(cs, w, c, r)
    } else if r == at {
        CellM::Empty
    } else {
        spec_cell_xy(cs, w, c, r - 1)
    } by {
        assert(w * r + c < w * (h + 1)) by (nonlinear_arith)
            requires
                0 <= r < h + 1,
                0 <= c < w,
        ;
        lemma_insert_row_index(cs, w, at, CellM::Empty, r, c);
    }
}

/// Adding a column next to the cell at `cell` in a well-shaped tree, left
/// of the cell's column or, when `is_right`, right of it: the tree grows by
/// one column. In every row the columns before the new one are the old
/// columns, the new column is empty, and the columns after it are the old
/// columns moved right by one. Nothing else in the document changes.
pub proof fn lemma_add_column_places(d: DocumentM, cell: LocationM, is_right: bool)
    requires
        spec_breadth_target(d, cell) matches Some(t) && {
            &&& spec_valid_shape(t)
            &&& spec_last_xy(cell).0 + (if is_right {
                1int
            } else {
                0int
            }) <= t.width
            &&& t.width < usize::MAX
        },
    ensures
        ({
            let t = spec_breadth_target(d, cell)->Some_0;
            let at = spec_last_xy(cell).0 + if is_right {
                1int
            } else {
                0int
            };
            let d2 = spec_add_column(d, cell, is_right);
            let w = t.width as int;
            &&& spec_breadth_target(d2, cell) is Some
            &&& d2 == spec_set_at(d, spec_parent(cell), CellM::Tree(spec_breadth_target(d2, cell)->Some_0))
            &&& {
                let t2 = spec_breadth_target(d2, cell)->Some_0;
                &&& t2.width == t.width + 1
                &&& t2.height == t.height
                &&& spec_valid_shape(t2)
                &&& forall|r: int, c: int|
                    0 <= r < t2.height && 0 <= c <= w ==> #[trigger] spec_cell_xy(t2.contents, w + 1, c, r)
                        == if c < at {
                        spec_cell_xy(t.contents, w, c, r)
                    } else if c == at {
                        CellM::Empty
                    } else {
                        spec_cell_xy(t.contents, w, c - 1, r)
                    }
            }
        }),
{
    let t = spec_breadth_target(d, cell)->Some_0;
    let at = spec_last_xy(cell).0 + if is_right {
        1int
    } else {
        0int
    };
    let w = t.width as int;
    let h = t.height as nat;
    let cs = t.contents;
    let t2 = TreeM {
        contents: spec_insert_col_cells(cs, w, at, h, CellM::Empty),
        width: (t.width + 1) as usize,
        height: t.height,
    };
    lemma_target_after(d, cell, t2);
    lemma_insert_col_len(cs, w, at, h, CellM::Empty);
    assert forall|r: int, c: int| 0 <= r < t2.height && 0 <= c <= w implies #[trigger] spec_cell_xy(
        t2.contents,
        w + 1,
        c,
        r,
    ) == if c < at {
        spec_cell_xy(cs, w, c, r)
    } else if c == at {
        CellM::Empty
    } else {
        spec_cell_xy(cs, w, c - 1, r)
    } by {
        if c < at {
            lemma_insert_col_index(cs, w, at, h, CellM::Empty, c, r);
        } else if c == at {
            lemma_insert_col_fill(cs, w, at, h, CellM::Empty, r);
        } else {
            lemma_insert_col_index(cs, w, at, h, CellM::Empty, c - 1, r);
        }
    }
}

/// Removing row `row` of the well-shaped tree around `cell`: the tree loses that
/// row, the rows before it are kept, and the rows after it move up by one.
/// Nothing else in the document changes.
pub proof fn lemma_without_row_places(d: DocumentM, cell: LocationM, t: TreeM, row: int)
    requires
        spec_breadth_target(d, cell) == Some(t),
        spec_valid_shape(t),
        0 <= row < t.height,
    ensures
        ({
            let d2 = spec_without_row(d, cell, t, row);
            let w = t.width as int;
            &&& spec_breadth_target(d2, cell) is Some
            &&& d2 == spec_set_at(d, spec_parent(cell), CellM::Tree(spec_breadth_target(d2, cell)->Some_0))
            &&& {
                let t2 = spec_breadth_target(d2, cell)->Some_0;
                &&& t2.width == t.width
                &&& t2.height == t.height - 1
                &&& spec_valid_shape(t2)
                &&& forall|r: int, c: int|
                    0 <= r < t2.height && 0 <= c < w ==> #[trigger] spec_cell_xy(t2.contents, w, c, r) == if r
                        < row {
                        spec_cell_xy(t.contents, w, c, r)
                    } else {
                        spec_cell_xy(t.contents, w, c, r + 1)
                    }
            }
        }),
{
    let w = t.width as int;
    let h = t.height as int;
    let cs = t.contents;
    {
        let t2 = TreeM { contents: spec_delete_row_cells(cs, w, row), width: t.width, height: (t.height - 1) as usize };
        lemma_target_after(d, cell, t2);
        assert(row * w + w <= cs.len()) by (nonlinear_arith)
            requires
                0 <= row < h,
                cs.len() == w * h,
                w >= 0,
        ;
        assert(w * (h - 1) == w * h - w) by (nonlinear_arith);
        assert forall|r: int, c: int| 0 <= r < t2.height && 0 <= c < w implies #[trigger] spec_cell_xy(
            t2.contents,
            w,
            c,
            r,
        ) == if r < row {
            spec_cell_xy(cs, w, c, r)
        } else {
            spec_cell_xy(cs, w, c, r + 1)
        } by {
            assert(w * r + c < w * (h - 1)) by (nonlinear_arith)
                requires
                    0 <= r < h - 1,
                    0 <= c < w,
            ;
            lemma_delete_row_index(cs, w, row, r, c);
        }
    }
}

/// Removing column `col` of the well-shaped tree around `cell`: the tree
/// loses that column, in every row the columns before it are kept and the
/// columns after it move left by one. Nothing else in the document changes.
pub proof fn lemma_without_col_places(d: DocumentM, cell: LocationM, t: TreeM, col: int)
    requires
        spec_breadth_target(d, cell) == Some(t),
        spec_valid_shape(t),
        0 <= col < t.width,
    ensures
        ({
            let d2 = spec_without_col(d, cell, t, col);
            let w = t.width as int;
            &&& spec_breadth_target(d2, cell) is Some
            &&& d2 == spec_set_at(d, spec_parent(cell), CellM::Tree(spec_breadth_target(d2, cell)->Some_0))
            &&& {
                let t2 = spec_breadth_target(d2, cell)->Some_0;
                &&& t2.width == t.width - 1
                &&& t2.height == t.height
                &&& spec_valid_shape(t2)
                &&& forall|r: int, c: int|
                    0 <= r < t2.height && 0 <= c < w - 1 ==> #[trigger] spec_cell_xy(t2.contents, w - 1, c, r)
                        == if c < col {
                        spec_cell_xy(t.contents, w, c, r)
                    } else {
                        spec_cell_xy(t.contents, w, c + 1, r)
                    }
            }
        }),
{
    let w = t.width as int;
    let h = t.height as nat;
    let cs = t.contents;
    {
        let t2 = TreeM {
            contents: spec_delete_col_cells(cs, w, col, h),
            width: (t.width - 1) as usize,
            height: t.height,
        };
        lemma_target_after(d, cell, t2);
        lemma_delete_col_len(cs, w, col, h);
        assert forall|r: int, c: int| 0 <= r < t2.height && 0 <= c < w - 1 implies #[trigger] spec_cell_xy(
            t2.contents,
            w - 1,
            c,
            r,
        ) == if c < col {
            spec_cell_xy(cs, w, c, r)
        } else {
            spec_cell_xy(cs, w, c + 1, r)
        } by {
            if c < col {
                lemma_delete_col_index(cs, w, col, h, c, r);
            } else {
                lemma_delete_col_index(cs, w, col, h, c + 1, r);
            }
        }
    }
}

/// Deleting the row above the cell at `cell` removes row `y - 1` of its
/// tree as `lemma_without_row_places` describes; in the top row it changes
/// nothing.
pub proof fn lemma_delete_row_above_places(d: DocumentM, cell: LocationM)
    requires
        spec_breadth_target(d, cell) matches Some(t) && spec_valid_shape(t) && spec_last_xy(cell).1
            <= t.height,
    ensures
        spec_last_xy(cell).1 == 0 ==> spec_delete_row_above(d, cell) == d,
        spec_last_xy(cell).1 > 0 ==> spec_delete_row_above(d, cell) == spec_without_row(
            d,
            cell,
            spec_breadth_target(d, cell)->Some_0,
            spec_last_xy(cell).1 - 1,
        ),
{
    let t = spec_breadth_target(d, cell)->Some_0;
    if spec_last_xy(cell).1 > 0 {
        lemma_without_row_places(d, cell, t, spec_last_xy(cell).1 - 1);
    }
}

/// Deleting the row below the cell at `cell` removes row `y + 1` of its
/// tree as `lemma_without_row_places` describes; in the bottom row it
/// changes nothing.
pub proof fn lemma_delete_row_below_places(d: DocumentM, cell: LocationM)
    requires
        spec_breadth_target(d, cell) matches Some(t) && spec_valid_shape(t) && spec_last_xy(cell).1
            < t.height,
    ensures
        spec_last_xy(cell).1 + 1 == (spec_breadth_target(d, cell)->Some_0).height ==> spec_delete_row_below(
            d,
            cell,
        ) == d,
        spec_last_xy(cell).1 + 1 < (spec_breadth_target(d, cell)->Some_0).height ==> spec_delete_row_below(
            d,
            cell,
        ) == spec_without_row(d, cell, spec_breadth_target(d, cell)->Some_0, spec_last_xy(cell).1 + 1),
{
    let t = spec_breadth_target(d, cell)->Some_0;
    if spec_last_xy(cell).1 + 1 < t.height {
        lemma_without_row_places(d, cell, t, spec_last_xy(cell).1 + 1);
    }
}

/// Deleting the column left of the cell at `cell` removes column `x - 1`
/// of its tree as `lemma_without_col_places` describes; in the first
/// column it changes nothing.
pub proof fn lemma_delete_column_left_places(d: DocumentM, cell: LocationM)
    requires
        spec_breadth_target(d, cell) matches Some(t) && spec_valid_shape(t) && spec_last_xy(cell).0
            <= t.width,
    ensures
        spec_last_xy(cell).0 == 0 ==> spec_delete_column_left(d, cell) == d,
        spec_last_xy(cell).0 > 0 ==> spec_delete_column_left(d, cell) == spec_without_col(
            d,
            cell,
            spec_breadth_target(d, cell)->Some_0,
            spec_last_xy(cell).0 - 1,
        ),
{
    let t = spec_breadth_target(d, cell)->Some_0;
    if spec_last_xy(cell).0 > 0 {
        lemma_without_col_places(d, cell, t, spec_last_xy(cell).0 - 1);
    }
}

/// Deleting the column right of the cell at `cell` removes column `x + 1`
/// of its tree as `lemma_without_col_places` describes; in the last column
/// it changes nothing.
pub proof fn lemma_delete_column_right_places(d: DocumentM, cell: LocationM)
    requires
        spec_breadth_target(d, cell) matches Some(t) && spec_valid_shape(t) && spec_last_xy(cell).0
            < t.width,
    ensures
        spec_last_xy(cell).0 + 1 == (spec_breadth_target(d, cell)->Some_0).width ==> spec_delete_column_right(
            d,
            cell,
        ) == d,
        spec_last_xy(cell).0 + 1 < (spec_breadth_target(d, cell)->Some_0).width ==> spec_delete_column_right(
            d,
            cell,
        ) == spec_without_col(d, cell, spec_breadth_target(d, cell)->Some_0, spec_last_xy(cell).0 + 1),
{
    let t = spec_breadth_target(d, cell)->Some_0;
    if spec_last_xy(cell).0 + 1 < t.width {
        lemma_without_col_places(d, cell, t, spec_last_xy(cell).0 + 1);
    }
}

} // verus!
