//! The cell model that the editor works on: every region is a `Cell`, a
//! struct keeps its fields as tagged `Field` cells inside a grid, and an
//! operation that changes content is kept only if the whole document stays
//! well-formed.
//!
//! Every data type has a mathematical model (its view, `@`); the contracts
//! are stated over these models.

mod defaults;
mod access;
mod validity;
mod ops;
mod laws;

pub use defaults::{
    spec_finite, spec_fields_finite, spec_default_field, spec_default_value,
    spec_default_struct_variant, spec_any_default, spec_symbol, spec_depth, spec_field_cells,
    spec_rom, spec_rom_width, spec_rom_cell, spec_rom_rows, spec_max_variants, spec_new,
    spec_new_ok, new_ok,
};
pub use access::{
    spec_step, spec_get, spec_put, spec_region, spec_with_region, spec_at, spec_set_at,
    spec_tree_index, lemma_put_get, lemma_set_at_same, lemma_get_put, lemma_at_set_at, lemma_get_push,
};
pub use validity::{
    is_valid, spec_valid, spec_valid_struct, spec_valid_field_value, spec_valid_free_cell,
    spec_valid_element, spec_valid_typed, spec_valid_shape, spec_valid_region_tree,
    spec_field_tags, spec_tagged_once, spec_tag_present, spec_grid_cell_ok,
};
pub use ops::{
    clone_path, spec_ends_in_tree, spec_parent, spec_last_xy, spec_breadth_target, spec_cell_xy,
    spec_row_has_field_in, spec_col_has_field_in, spec_row_has_field, spec_col_has_field,
    spec_with_tree, spec_copy, spec_mova, spec_add_column, spec_add_row, spec_without_row,
    spec_without_col, spec_delete_row_above, spec_delete_row_below, spec_delete_column_left,
    spec_delete_column_right, spec_edit_symbol, spec_edit_variant, spec_breadth_ok,
};
pub(crate) use ops::{parent_of, row_has_field, col_has_field};
pub(crate) use defaults::lemma_max_variants;
pub use laws::{
    Slot, spec_fits, spec_tag, spec_no_worse, lemma_copy_result, lemma_mova_result,
    lemma_edit_symbol_keeps_valid, lemma_default_struct_valid, lemma_default_field_valid,
    lemma_edit_variant_keeps_valid, spec_schema_fits, spec_present, spec_unique, spec_tags_equiv,
    spec_all_none, spec_cells_from, lemma_add_row_keeps_valid, lemma_add_column_keeps_valid,
    lemma_delete_row_above_keeps_valid, lemma_delete_row_below_keeps_valid,
    lemma_delete_column_left_keeps_valid, lemma_delete_column_right_keeps_valid, lemma_new_valid,
    lemma_edits_outside_rom_keep_rom, lemma_copy_delivers, lemma_mova_delivers,
    lemma_deletes_keep_a_cell, spec_child, spec_reaches, spec_defaults_acyclic,
    lemma_acyclic_defaults_valid, lemma_add_row_places, lemma_add_column_places,
    lemma_without_row_places, lemma_without_col_places, lemma_delete_row_above_places,
    lemma_delete_row_below_places, lemma_delete_column_left_places, lemma_delete_column_right_places,
    lemma_edit_symbol_sets, lemma_edit_variant_sets, lemma_new_places, lemma_tree_field_nesting,
};

use vstd::prelude::*;

verus! {

// ===========================================================================
// Data
// ===========================================================================

#[derive(Debug, PartialEq, Eq, PartialOrd, Ord, Hash)]
pub struct Document {
    pub rim: Cell,
    pub ram: Cell,
    pub rom: Cell,
}

#[derive(Debug, PartialEq, Eq, PartialOrd, Ord, Hash, Default)]
pub enum Cell {
    Symbol(String),
    Struct(StructVal),
    Tree(Tree),
    #[default]
    Empty,
    Field(FieldVal),
}

/// A field of a struct, tagged with the struct, variant and field it
/// belongs to.
#[derive(Debug, PartialEq, Eq, PartialOrd, Ord, Hash)]
pub struct FieldVal {
    pub struct_id: usize,
    pub variant_id: usize,
    pub field_id: usize,
    pub value: Box<Cell>,
}

/// A struct instance: its fields live in `grid`, a tree of `Field` and
/// `Empty` cells, or there is no grid for a fieldless variant.
#[derive(Debug, PartialEq, Eq, PartialOrd, Ord, Hash)]
pub struct StructVal {
    pub struct_id: usize,
    pub variant_id: usize,
    pub grid: Option<Box<Cell>>,
}

/// A row-major grid of cells: cell `(x, y)` is `contents[width * y + x]`.
#[derive(Debug, PartialEq, Eq, PartialOrd, Ord, Hash)]
pub struct Tree {
    pub contents: Vec<Cell>,
    pub width: usize,
    pub height: usize,
}

#[derive(Debug, Clone, PartialEq, Eq, PartialOrd, Ord, Hash)]
pub struct CellPath {
    pub region: Region,
    pub path: Vec<PathStep>,
}

#[derive(Debug, Copy, Clone, PartialEq, Eq, PartialOrd, Ord, Hash, Structural)]
pub enum PathStep {
    IntoStruct,
    IntoField,
    /// Column, then row.
    Tree(usize, usize),
}

#[derive(Debug, Copy, Clone, PartialEq, Eq, PartialOrd, Ord, Hash, Structural)]
pub enum Region {
    Rim,
    Ram,
    Rom,
}

#[derive(Debug, Clone, PartialEq, Eq, PartialOrd, Ord, Hash)]
pub struct Types {
    pub types: Vec<StructDef>,
    pub rim: FieldDef,
}

#[derive(Debug, Clone, PartialEq, Eq, PartialOrd, Ord, Hash)]
pub struct StructDef {
    pub name: String,
    pub variants: Vec<VariantDef>,
}

#[derive(Debug, Clone, PartialEq, Eq, PartialOrd, Ord, Hash)]
pub struct VariantDef {
    pub name: String,
    pub fields: Vec<FieldDef>,
}

#[derive(Debug, Clone, PartialEq, Eq, PartialOrd, Ord, Hash)]
pub struct FieldDef {
    pub name: String,
    pub value: CellValue,
    pub is_tree: bool,
}

#[derive(Debug, Copy, Clone, PartialEq, Eq, PartialOrd, Ord, Hash, Structural)]
pub enum CellValue {
    Symbol,
    Struct(usize),
}

// ===========================================================================
// Models
// ===========================================================================

pub enum CellM {
    Symbol(Seq<char>),
    Struct(StructValM),
    Tree(TreeM),
    Empty,
    Field(FieldValM),
}

pub struct FieldValM {
    pub struct_id: usize,
    pub variant_id: usize,
    pub field_id: usize,
    pub value: Box<CellM>,
}

pub struct StructValM {
    pub struct_id: usize,
    pub variant_id: usize,
    pub grid: Option<Box<CellM>>,
}

pub struct TreeM {
    pub contents: Seq<CellM>,
    pub width: usize,
    pub height: usize,
}

pub struct DocumentM {
    pub rim: CellM,
    pub ram: CellM,
    pub rom: CellM,
}

pub struct CellPathM {
    pub region: Region,
    pub path: Seq<PathStep>,
}

pub struct FieldDefM {
    pub name: Seq<char>,
    pub value: CellValue,
    pub is_tree: bool,
}

pub struct VariantDefM {
    pub name: Seq<char>,
    pub fields: Seq<FieldDefM>,
}

pub struct StructDefM {
    pub name: Seq<char>,
    pub variants: Seq<VariantDefM>,
}

pub struct TypesM {
    pub types: Seq<StructDefM>,
    pub rim: FieldDefM,
}

pub open spec fn cell_view(c: Cell) -> CellM
    decreases c,
{
    match c {
        Cell::Symbol(s) => CellM::Symbol(s@),
        Cell::Struct(sv) => CellM::Struct(struct_val_view(sv)),
        Cell::Tree(t) => CellM::Tree(tree_view(t)),
        Cell::Empty => CellM::Empty,
        Cell::Field(fv) => CellM::Field(field_val_view(fv)),
    }
}

pub open spec fn field_val_view(fv: FieldVal) -> FieldValM
    decreases fv,
{
    FieldValM {
        struct_id: fv.struct_id,
        variant_id: fv.variant_id,
        field_id: fv.field_id,
        value: Box::new(cell_view(*fv.value)),
    }
}

pub open spec fn struct_val_view(sv: StructVal) -> StructValM
    decreases sv,
{
    StructValM {
        struct_id: sv.struct_id,
        variant_id: sv.variant_id,
        grid: match sv.grid {
            Some(g) => Some(Box::new(cell_view(*g))),
            None => None,
        },
    }
}

pub open spec fn tree_view(t: Tree) -> TreeM
    decreases t,
{
    proof {
        broadcast use vstd::std_specs::vec::axiom_vec_decreases_to_view;
    }
    TreeM { contents: contents_view(t.contents@), width: t.width, height: t.height }
}

pub open spec fn contents_view(s: Seq<Cell>) -> Seq<CellM>
    decreases s,
{
    Seq::new(s.len(), |i: int| if 0 <= i < s.len() { cell_view(s[i]) } else { CellM::Empty })
}

impl View for Cell {
    type V = CellM;

    open spec fn view(&self) -> CellM {
        cell_view(*self)
    }
}

impl View for Tree {
    type V = TreeM;

    open spec fn view(&self) -> TreeM {
        tree_view(*self)
    }
}

impl View for StructVal {
    type V = StructValM;

    open spec fn view(&self) -> StructValM {
        struct_val_view(*self)
    }
}

impl View for FieldVal {
    type V = FieldValM;

    open spec fn view(&self) -> FieldValM {
        field_val_view(*self)
    }
}

impl View for Document {
    type V = DocumentM;

    open spec fn view(&self) -> DocumentM {
        DocumentM { rim: self.rim@, ram: self.ram@, rom: self.rom@ }
    }
}

impl View for CellPath {
    type V = CellPathM;

    open spec fn view(&self) -> CellPathM {
        CellPathM { region: self.region, path: self.path@ }
    }
}

impl View for FieldDef {
    type V = FieldDefM;

    open spec fn view(&self) -> FieldDefM {
        FieldDefM { name: self.name@, value: self.value, is_tree: self.is_tree }
    }
}

impl View for VariantDef {
    type V = VariantDefM;

    open spec fn view(&self) -> VariantDefM {
        VariantDefM { name: self.name@, fields: self.fields@.map_values(|f: FieldDef| f@) }
    }
}

impl View for StructDef {
    type V = StructDefM;

    open spec fn view(&self) -> StructDefM {
        StructDefM { name: self.name@, variants: self.variants@.map_values(|v: VariantDef| v@) }
    }
}

impl View for Types {
    type V = TypesM;

    open spec fn view(&self) -> TypesM {
        TypesM { types: self.types@.map_values(|s: StructDef| s@), rim: self.rim@ }
    }
}

// ===========================================================================
// Unfolding the models
// ===========================================================================

pub broadcast proof fn lemma_tree_view_unfold(t: Tree)
    ensures
        #[trigger] tree_view(t) == (TreeM {
            contents: contents_view(t.contents@),
            width: t.width,
            height: t.height,
        }),
{
}

pub broadcast proof fn lemma_contents_view_index(s: Seq<Cell>, i: int)
    requires
        0 <= i < s.len(),
    ensures
        #[trigger] contents_view(s)[i] == cell_view(s[i]),
        contents_view(s).len() == s.len(),
{
}

pub broadcast proof fn lemma_contents_view_update(s: Seq<Cell>, k: int, x: Cell)
    requires
        0 <= k < s.len(),
    ensures
        #[trigger] contents_view(s.update(k, x)) == contents_view(s).update(k, cell_view(x)),
{
    assert(contents_view(s.update(k, x)) =~= contents_view(s).update(k, cell_view(x)));
}

pub broadcast proof fn lemma_cell_view_tree(c: Cell)
    requires
        c is Tree,
    ensures
        #[trigger] cell_view(c) == CellM::Tree(tree_view(c->Tree_0)),
{
}

pub broadcast proof fn lemma_cell_view_struct(c: Cell)
    requires
        c is Struct,
    ensures
        #[trigger] cell_view(c) == CellM::Struct(struct_val_view(c->Struct_0)),
{
}

pub broadcast proof fn lemma_cell_view_field(c: Cell)
    requires
        c is Field,
    ensures
        #[trigger] cell_view(c) == CellM::Field(field_val_view(c->Field_0)),
{
}

pub broadcast proof fn lemma_cell_view_symbol(c: Cell)
    requires
        c is Symbol,
    ensures
        #[trigger] cell_view(c) == CellM::Symbol(c->Symbol_0@),
{
}

pub broadcast proof fn lemma_contents_view_push(s: Seq<Cell>, x: Cell)
    ensures
        #[trigger] contents_view(s.push(x)) == contents_view(s).push(cell_view(x)),
{
    assert(contents_view(s.push(x)) =~= contents_view(s).push(cell_view(x)));
}

pub broadcast proof fn lemma_field_val_view_unfold(fv: FieldVal)
    ensures
        #[trigger] field_val_view(fv) == (FieldValM {
            struct_id: fv.struct_id,
            variant_id: fv.variant_id,
            field_id: fv.field_id,
            value: Box::new(cell_view(*fv.value)),
        }),
{
}

pub broadcast proof fn lemma_struct_val_view_unfold(sv: StructVal)
    ensures
        #[trigger] struct_val_view(sv) == (StructValM {
            struct_id: sv.struct_id,
            variant_id: sv.variant_id,
            grid: match sv.grid {
                Some(g) => Some(Box::new(cell_view(*g))),
                None => None,
            },
        }),
{
}

pub broadcast proof fn lemma_contents_view_insert(s: Seq<Cell>, i: int, x: Cell)
    requires
        0 <= i <= s.len(),
    ensures
        #[trigger] contents_view(s.insert(i, x)) == contents_view(s).insert(i, cell_view(x)),
{
    assert(contents_view(s.insert(i, x)) =~= contents_view(s).insert(i, cell_view(x)));
}

pub broadcast proof fn lemma_contents_view_remove(s: Seq<Cell>, i: int)
    requires
        0 <= i < s.len(),
    ensures
        #[trigger] contents_view(s.remove(i)) == contents_view(s).remove(i),
{
    assert(contents_view(s.remove(i)) =~= contents_view(s).remove(i));
}

pub broadcast proof fn lemma_contents_view_len(s: Seq<Cell>)
    ensures
        #[trigger] contents_view(s).len() == s.len(),
{
}

pub broadcast group group_cell_view {
    lemma_contents_view_len,
    lemma_contents_view_insert,
    lemma_contents_view_remove,
    lemma_field_val_view_unfold,
    lemma_struct_val_view_unfold,
    lemma_contents_view_push,
    lemma_tree_view_unfold,
    lemma_contents_view_index,
    lemma_contents_view_update,
    lemma_cell_view_tree,
    lemma_cell_view_struct,
    lemma_cell_view_field,
    lemma_cell_view_symbol,
}

// ===========================================================================
// Deep copies
// ===========================================================================

/// A deep copy of a cell, equal to it in the model.
pub fn clone_cell(c: &Cell) -> (r: Cell)
    ensures
        r@ == c@,
    decreases c,
{
    match c {
        Cell::Symbol(s) => Cell::Symbol(s.clone()),
        Cell::Struct(sv) => Cell::Struct(clone_struct_val(sv)),
        Cell::Tree(t) => Cell::Tree(clone_tree(t)),
        Cell::Empty => Cell::Empty,
        Cell::Field(fv) => Cell::Field(clone_field_val(fv)),
    }
}

pub fn clone_field_val(fv: &FieldVal) -> (r: FieldVal)
    ensures
        r@ == fv@,
    decreases fv,
{
    let v = clone_cell(&fv.value);
    FieldVal {
        struct_id: fv.struct_id,
        variant_id: fv.variant_id,
        field_id: fv.field_id,
        value: Box::new(v),
    }
}

pub fn clone_struct_val(sv: &StructVal) -> (r: StructVal)
    ensures
        r@ == sv@,
    decreases sv,
{
    let grid = match &sv.grid {
        Some(g) => Some(Box::new(clone_cell(g))),
        None => None,
    };
    StructVal { struct_id: sv.struct_id, variant_id: sv.variant_id, grid }
}

pub fn clone_tree(t: &Tree) -> (r: Tree)
    ensures
        r@ == t@,
    decreases t,
{
    let mut contents: Vec<Cell> = Vec::new();
    let n = t.contents.len();
    let mut i: usize = 0;
    while i < n
        invariant
            n == t.contents@.len(),
            i <= n,
            contents@.len() == i,
            forall|j: int| 0 <= j < i ==> #[trigger] cell_view(contents@[j]) == cell_view(t.contents@[j]),
        decreases n - i,
    {
        proof {
            broadcast use vstd::std_specs::vec::axiom_vec_index_decreases;
            assert(decreases_to!(t => t.contents));
            assert(decreases_to!(t.contents => t.contents@[i as int]));
        }
        let c = clone_cell(&t.contents[i]);
        contents.push(c);
        i = i + 1;
    }
    let r = Tree { contents, width: t.width, height: t.height };
    proof {
        broadcast use lemma_contents_view_index;

        assert(contents_view(r.contents@) =~= contents_view(t.contents@));
    }
    r
}

/// A deep copy of a document, equal to it in the model.
pub fn clone_document(d: &Document) -> (r: Document)
    ensures
        r@ == d@,
{
    Document { rim: clone_cell(&d.rim), ram: clone_cell(&d.ram), rom: clone_cell(&d.rom) }
}

impl Clone for Cell {
    fn clone(&self) -> (r: Self)
        ensures
            r@ == self@,
    {
        clone_cell(self)
    }
}

impl Clone for FieldVal {
    fn clone(&self) -> (r: Self)
        ensures
            r@ == self@,
    {
        clone_field_val(self)
    }
}

impl Clone for StructVal {
    fn clone(&self) -> (r: Self)
        ensures
            r@ == self@,
    {
        clone_struct_val(self)
    }
}

impl Clone for Tree {
    fn clone(&self) -> (r: Self)
        ensures
            r@ == self@,
    {
        clone_tree(self)
    }
}

impl Clone for Document {
    fn clone(&self) -> (r: Self)
        ensures
            r@ == self@,
    {
        clone_document(self)
    }
}

impl Cell {
    /// An empty symbol.
    pub fn symbol() -> (r: Self)
        ensures
            r@ == CellM::Symbol(Seq::empty()),
    {
        Cell::Symbol(String::new())
    }

    pub fn is_empty(&self) -> (r: bool)
        ensures
            r == (self@ is Empty),
    {
        match self {
            Cell::Empty => true,
            _ => false,
        }
    }
}

} // verus!
