//! The document core: the schema, the three cell trees (Rom, Ram, Rim),
//! flatten and semantic equality, validation, the integrity check, and every
//! operation. Plain data, independent of any view layer.
//!
//! Every data type has a mathematical model (its view, `@`): vectors become
//! sequences and strings become sequences of characters. All contracts are
//! stated over these models.

mod grid;
mod content;
mod validation;
mod integrity;
mod resolve;
mod ops;
mod history;
mod laws;

pub use grid::{
    spec_grid_shape_ok, spec_insert_col_cells, spec_delete_col_cells, spec_insert_row_cells,
    spec_delete_row_cells, lemma_insert_col_len, lemma_delete_col_len, lemma_insert_col_from,
    lemma_insert_col_index, lemma_delete_col_index, lemma_insert_row_index, lemma_delete_row_index,
    lemma_insert_col_fill,
    lemma_delete_col_from,
};

pub use content::{
    default_value, default_tree, default_content, flatten, content_eq, value_eq,
    spec_flatten, spec_flatten_cells, spec_value_eq, spec_content_eq, spec_default_value,
    spec_default_content, spec_default_tree, lemma_content_eq_reflexive,
    lemma_value_eq_reflexive, lemma_value_eq_symmetric, lemma_content_eq_symmetric,
    lemma_content_eq_transitive, lemma_value_eq_transitive, lemma_single_cell_tree_eq,
    lemma_flatten_concat,
};
pub use validation::{
    validates, spec_value_ok, spec_tree_ok, spec_conforms, spec_validates,
    spec_compat, spec_type_ok, spec_schema_ok, spec_verified, spec_integrity,
};
pub use integrity::{
    check_integrity, decimal, spec_digit, spec_decimal, spec_msg_no_variants,
    spec_msg_variant_zero, spec_msg_id_range, spec_msg_variant_range, spec_msg_field_count,
    spec_msg_field_conform, spec_msg_grid_empty, spec_msg_not_rectangular, spec_msg_rim_root,
    spec_first, spec_type_err, spec_variant_types_err, spec_struct_def_err, spec_schema_err,
    spec_content_err, spec_fields_err, spec_cells_err, spec_integrity_err, spec_integrity_checks, spec_error_text,
};
pub use resolve::{
    spec_step, spec_resolve, spec_put, spec_region_root, spec_with_root, spec_slot_at,
    spec_location_ok, spec_gov_root, spec_gov_step, spec_gov_walk, spec_gov_walk_ok,
    spec_governance, spec_governance_ok,
};
pub use ops::{
    OperationM, spec_all_regions, spec_root_location, spec_build_rom, spec_start_selection,
    spec_snapshot, spec_from_snapshot, spec_toggle, spec_select, spec_copy_dests,
    spec_content_at, spec_write, spec_write_all, spec_all_validate, spec_copy_ok, spec_copy,
    spec_parent, spec_enclosing, spec_with_grid, spec_breadth_ok, spec_enclosing_ok, spec_add_row_ok,
    spec_add_column_ok, spec_delete_row_ok, spec_delete_column_ok, spec_finish, spec_add_row,
    spec_add_column, spec_delete_row, spec_delete_column, spec_fields_default,
    spec_replace_marked, spec_select_variant, spec_edit_symbol, spec_mutation_target,
    spec_apply_ok, spec_apply, apply,
};
pub use history::{
    History, HistoryM, spec_record, spec_undo, spec_redo, lemma_record_then_undo,
    lemma_undo_then_redo, lemma_record_clears_redo,
};
pub use laws::{
    spec_slot_ok, spec_ends_in_field, spec_step_key, spec_keys, spec_proper_prefix, spec_keys_at,
    spec_contains, spec_dests_independent, spec_cells_from, spec_room, spec_selection_ok,
    spec_all_in_ram, lemma_walk_ok, lemma_put_ok, lemma_put_frame, lemma_location_typed,
    lemma_write_ok, lemma_write_all_ok, lemma_apply_keeps_integrity, lemma_apply_keeps_rom,
    lemma_select_variant_idempotent, lemma_apply_keeps_integrity_at_resolving_cells, spec_inside_grid,
    lemma_select_effect, lemma_copy_of_empty_cell, spec_cell_rc, lemma_add_row_places,
    lemma_add_column_places, lemma_delete_row_places, lemma_delete_column_places,
    lemma_select_variant_sets, lemma_edit_symbol_sets, lemma_copy_outcome, lemma_rom_palette,
    lemma_governance_steps, lemma_apply_does, lemma_integrity_cells,
    spec_op_location,
    lemma_select_keeps_selection_ok, lemma_apply_keeps_selection_ok, lemma_start_selection_ok,
    lemma_outcomes, lemma_copy_into_ram_clears_highlights, lemma_new_document_ok, lemma_copy_delivers,
    lemma_snapshot_round_trip,
};

use vstd::prelude::*;

verus! {

// ===========================================================================
// The schema registry
// ===========================================================================

/// An index into `Schema::structs`. Every `StructId` in a live document
/// resolves — established by `check_integrity`.
pub type StructId = usize;

#[derive(Clone, Debug, PartialEq)]
pub struct Schema {
    pub structs: Vec<StructDef>,
}

#[derive(Clone, Debug, PartialEq)]
pub struct StructDef {
    pub name: String,
    /// `variants[0]` is the nameless empty variant. Maintained, not
    /// structural — `check_integrity` confirms it.
    pub variants: Vec<VariantDef>,
}

#[derive(Clone, Debug, PartialEq)]
pub struct VariantDef {
    pub name: String,
    pub fields: Vec<FieldDef>,
}

#[derive(Clone, Debug, PartialEq)]
pub struct FieldDef {
    pub name: String,
    pub elem: TypeRef,
    /// The depth-1 toggle: a `bool`, not a wrapper, which is the structural
    /// reason a tree of trees is unexpressible as a field type.
    pub is_tree: bool,
}

#[derive(Clone, Copy, Debug, PartialEq, Eq, Structural)]
pub enum TypeRef {
    Symbol,
    Struct(StructId),
}

// ===========================================================================
// The cell tree
// ===========================================================================

/// The content of a cell — two cases, never three. Emptiness is the `None`
/// of an `Option<CellContent>` at a grid slot.
#[derive(Debug, PartialEq)]
pub enum CellContent {
    /// A value: a `Symbol` or a `Struct`.
    Value(LeafValue),
    /// A tree: a rectangular grid of cells.
    Tree(Grid),
}

/// A rectangular, non-empty grid of cells, row-major. Only the constructors
/// and the breadth operations build or reshape a grid, and each keeps
/// `cells.len() == width * height`, `width >= 1`, `height >= 1`.
#[derive(Debug, PartialEq)]
pub struct Grid {
    pub cells: Vec<Option<CellContent>>,
    pub width: usize,
    pub height: usize,
}

#[derive(Debug, PartialEq)]
pub enum LeafValue {
    Symbol(String),
    Struct(StructInstance),
}

#[derive(Debug, PartialEq)]
pub struct StructInstance {
    pub struct_id: StructId,
    /// A struct is always at a variant, defaulting to 0.
    pub variant: usize,
    /// One field cell per field of the chosen variant; never empty.
    pub fields: Vec<CellContent>,
}

// ===========================================================================
// Addressing cells
// ===========================================================================

#[derive(Clone, Copy, Debug, PartialEq, Eq, Structural)]
pub enum Region {
    Rom,
    Ram,
    Rim,
}

#[derive(Clone, Copy, Debug, PartialEq, Eq, Structural)]
pub enum PathStep {
    Grid { row: usize, col: usize },
    Field { index: usize },
}

#[derive(Clone, Debug, PartialEq, Eq)]
pub struct CellLocation {
    pub region: Region,
    pub path: Vec<PathStep>,
}

impl CellLocation {
    pub fn root(region: Region) -> (r: Self)
        ensures
            r@ == (LocationM { region, path: Seq::empty() }),
    {
        CellLocation { region, path: Vec::new() }
    }
}

/// A resolved cell: a place that holds content. `Field` slots (struct
/// fields, the region roots) are never empty; `Grid` slots may be.
#[derive(Clone, Copy)]
pub enum CellSlot<'a> {
    Field(&'a CellContent),
    Grid(&'a Option<CellContent>),
}

pub enum CellSlotMut<'a> {
    Field(&'a mut CellContent),
    Grid(&'a mut Option<CellContent>),
}

impl<'a> CellSlot<'a> {
    /// The content at this cell, or `None` for an empty grid cell.
    pub fn content(&self) -> (r: Option<&'a CellContent>)
        ensures
            opt_ref_view(r) == self@.content(),
    {
        match self {
            CellSlot::Field(c) => Some(c),
            CellSlot::Grid(o) => match o {
                Some(c) => Some(c),
                None => None,
            },
        }
    }
}

// ===========================================================================
// The document
// ===========================================================================

/// Per-region "needs a view rebuild" flags.
#[derive(Clone, Copy, Debug, PartialEq, Eq, Structural)]
pub struct RegionMask {
    pub rom: bool,
    pub ram: bool,
    pub rim: bool,
}

impl Default for RegionMask {
    fn default() -> (r: Self)
        ensures
            r == (RegionMask { rom: false, ram: false, rim: false }),
    {
        RegionMask { rom: false, ram: false, rim: false }
    }
}

impl RegionMask {
    pub fn all() -> (r: Self)
        ensures
            r == (RegionMask { rom: true, ram: true, rim: true }),
    {
        RegionMask { rom: true, ram: true, rim: true }
    }

    pub fn mark(&mut self, region: Region)
        ensures
            *final(self) == old(self).marked(region),
    {
        match region {
            Region::Rom => self.rom = true,
            Region::Ram => self.ram = true,
            Region::Rim => self.rim = true,
        }
    }

    pub open spec fn marked(self, region: Region) -> RegionMask {
        match region {
            Region::Rom => RegionMask { rom: true, ..self },
            Region::Ram => RegionMask { ram: true, ..self },
            Region::Rim => RegionMask { rim: true, ..self },
        }
    }
}

#[derive(Clone, Debug, PartialEq)]
pub struct Selection {
    /// The one highlighted Rom cell.
    pub rom: CellLocation,
    /// The one highlighted Rim cell.
    pub rim: CellLocation,
    /// The highlighted Ram cells — zero or more.
    pub ram: Vec<CellLocation>,
    /// The single superhighlighted cell, in any region.
    pub superhighlighted: CellLocation,
    /// Destinations of the last failed copy — cleared on the next selection.
    pub red: Vec<CellLocation>,
}

/// The whole document. The save / undo payload is `DocumentSnapshot`.
#[derive(Clone, Debug)]
pub struct Document {
    pub schema: Schema,
    /// Types the Rim root cell — an ordinary `FieldDef` attached to the
    /// document rather than to a struct.
    pub rim_root_field: FieldDef,
    /// Always a tree — the read-only palette.
    pub rom: CellContent,
    /// Always a tree — untyped scratch.
    pub ram: CellContent,
    /// Conforms to `rim_root_field`.
    pub rim: CellContent,
    pub selection: Selection,
    pub dirty: RegionMask,
}

/// The save / undo payload: `rom` is rebuilt from `schema`, and a restore
/// marks every region dirty.
#[derive(Clone, Debug)]
pub struct DocumentSnapshot {
    pub schema: Schema,
    pub rim_root_field: FieldDef,
    pub ram: CellContent,
    pub rim: CellContent,
    pub selection: Selection,
}

/// What types a destination cell — the result of walking its path.
#[derive(Clone, Debug, PartialEq)]
pub enum Governance {
    /// A field cell: a struct field, or the Rim root.
    Field(FieldDef),
    /// A grid cell of a governed tree of `elem`.
    GovernedGridCell(TypeRef),
    /// A grid cell of an ungoverned tree (the Rom/Ram root trees).
    Ungoverned,
}

/// Why a document failed `check_integrity`.
#[derive(Clone, Debug, PartialEq)]
pub struct IntegrityError(pub String);

#[derive(Clone, Copy, Debug, PartialEq, Eq, Structural)]
pub enum VSide {
    Above,
    Below,
}

#[derive(Clone, Copy, Debug, PartialEq, Eq, Structural)]
pub enum HSide {
    Left,
    Right,
}

#[derive(Clone, Debug)]
pub enum Operation {
    /// The destination(s) are read from the selection; `source` is the cell
    /// the user clicked while in copy mode.
    Copy { source: CellLocation },
    AddRow { at: CellLocation, side: VSide },
    AddColumn { at: CellLocation, side: HSide },
    DeleteRow { at: CellLocation, side: VSide },
    DeleteColumn { at: CellLocation, side: HSide },
    SelectVariant { at: CellLocation, variant: usize },
    EditSymbol { at: CellLocation, text: String },
}

#[derive(Clone, Copy, Debug, PartialEq, Eq, Structural)]
pub enum Outcome {
    /// The document's content changed.
    Applied,
    /// A copy whose payload fails validation against a destination: no
    /// content changed, but `selection.red` was set.
    Rejected,
    /// Coherent but vacuous: nothing changed at all.
    NoOp,
}

// ===========================================================================
// Mathematical models
// ===========================================================================

/// The model of `CellContent`.
pub enum ContentM {
    Value(LeafM),
    Tree(GridM),
}

/// The model of `Grid`.
pub struct GridM {
    pub cells: Seq<Option<ContentM>>,
    pub width: usize,
    pub height: usize,
}

/// The model of `LeafValue`.
pub enum LeafM {
    Symbol(Seq<char>),
    Struct(StructM),
}

/// The model of `StructInstance`.
pub struct StructM {
    pub struct_id: usize,
    pub variant: usize,
    pub fields: Seq<ContentM>,
}

/// The model of a resolved slot.
pub enum SlotM {
    Field(ContentM),
    Grid(Option<ContentM>),
}

impl SlotM {
    pub open spec fn content(self) -> Option<ContentM> {
        match self {
            SlotM::Field(c) => Some(c),
            SlotM::Grid(o) => o,
        }
    }
}

pub struct FieldDefM {
    pub name: Seq<char>,
    pub elem: TypeRef,
    pub is_tree: bool,
}

pub struct VariantDefM {
    pub name: Seq<char>,
    pub fields: Seq<FieldDefM>,
}

pub struct StructDefM {
    pub name: Seq<char>,
    pub variants: Seq<VariantDefM>,
}

pub struct LocationM {
    pub region: Region,
    pub path: Seq<PathStep>,
}

pub struct SelectionM {
    pub rom: LocationM,
    pub rim: LocationM,
    pub ram: Seq<LocationM>,
    pub superhighlighted: LocationM,
    pub red: Seq<LocationM>,
}

pub enum GovM {
    Field(FieldDefM),
    GovernedGridCell(TypeRef),
    Ungoverned,
}

pub struct DocumentM {
    pub schema: Seq<StructDefM>,
    pub rim_root_field: FieldDefM,
    pub rom: ContentM,
    pub ram: ContentM,
    pub rim: ContentM,
    pub selection: SelectionM,
    pub dirty: RegionMask,
}

pub struct SnapshotM {
    pub schema: Seq<StructDefM>,
    pub rim_root_field: FieldDefM,
    pub ram: ContentM,
    pub rim: ContentM,
    pub selection: SelectionM,
}

pub open spec fn content_view(c: CellContent) -> ContentM
    decreases c,
{
    match c {
        CellContent::Value(v) => ContentM::Value(leaf_view(v)),
        CellContent::Tree(g) => ContentM::Tree(grid_view(g)),
    }
}

pub open spec fn leaf_view(v: LeafValue) -> LeafM
    decreases v,
{
    match v {
        LeafValue::Symbol(s) => LeafM::Symbol(s@),
        LeafValue::Struct(si) => LeafM::Struct(struct_view(si)),
    }
}

pub open spec fn struct_view(si: StructInstance) -> StructM
    decreases si,
{
    StructM { struct_id: si.struct_id, variant: si.variant, fields: fields_view(si.fields@) }
}

pub open spec fn fields_view(s: Seq<CellContent>) -> Seq<ContentM>
    decreases s,
{
    Seq::new(s.len(), |i: int| if 0 <= i < s.len() { content_view(s[i]) } else { arbitrary() })
}

pub open spec fn grid_view(g: Grid) -> GridM
    decreases g,
{
    proof {
        broadcast use vstd::std_specs::vec::axiom_vec_decreases_to_view;
    }
    GridM { cells: cells_view(g.cells@), width: g.width, height: g.height }
}

pub open spec fn cells_view(s: Seq<Option<CellContent>>) -> Seq<Option<ContentM>>
    decreases s,
{
    Seq::new(s.len(), |i: int| if 0 <= i < s.len() { opt_view(s[i]) } else { None })
}

pub open spec fn opt_view(o: Option<CellContent>) -> Option<ContentM>
    decreases o,
{
    match o {
        None => None,
        Some(c) => Some(content_view(c)),
    }
}

pub open spec fn opt_ref_view(o: Option<&CellContent>) -> Option<ContentM> {
    match o {
        None => None,
        Some(c) => Some(content_view(*c)),
    }
}

impl View for CellContent {
    type V = ContentM;

    open spec fn view(&self) -> ContentM {
        content_view(*self)
    }
}

impl View for Grid {
    type V = GridM;

    open spec fn view(&self) -> GridM {
        grid_view(*self)
    }
}

impl View for LeafValue {
    type V = LeafM;

    open spec fn view(&self) -> LeafM {
        leaf_view(*self)
    }
}

impl View for StructInstance {
    type V = StructM;

    open spec fn view(&self) -> StructM {
        struct_view(*self)
    }
}

impl<'a> View for CellSlot<'a> {
    type V = SlotM;

    open spec fn view(&self) -> SlotM {
        match *self {
            CellSlot::Field(c) => SlotM::Field(content_view(*c)),
            CellSlot::Grid(o) => SlotM::Grid(opt_view(*o)),
        }
    }
}

impl View for FieldDef {
    type V = FieldDefM;

    open spec fn view(&self) -> FieldDefM {
        FieldDefM { name: self.name@, elem: self.elem, is_tree: self.is_tree }
    }
}

impl View for VariantDef {
    type V = VariantDefM;

    open spec fn view(&self) -> VariantDefM {
        VariantDefM { name: self.name@, fields: self.fields@.map_values(|f: FieldDef| f@) }
    }
}

impl View for StructDef {
    type V = StructDefM;

    open spec fn view(&self) -> StructDefM {
        StructDefM { name: self.name@, variants: self.variants@.map_values(|v: VariantDef| v@) }
    }
}

impl View for Schema {
    type V = Seq<StructDefM>;

    open spec fn view(&self) -> Seq<StructDefM> {
        self.structs@.map_values(|s: StructDef| s@)
    }
}

impl View for CellLocation {
    type V = LocationM;

    open spec fn view(&self) -> LocationM {
        LocationM { region: self.region, path: self.path@ }
    }
}

pub open spec fn locations_view(s: Seq<CellLocation>) -> Seq<LocationM> {
    s.map_values(|l: CellLocation| l@)
}

impl View for Selection {
    type V = SelectionM;

    open spec fn view(&self) -> SelectionM {
        SelectionM {
            rom: self.rom@,
            rim: self.rim@,
            ram: locations_view(self.ram@),
            superhighlighted: self.superhighlighted@,
            red: locations_view(self.red@),
        }
    }
}

impl View for Governance {
    type V = GovM;

    open spec fn view(&self) -> GovM {
        match *self {
            Governance::Field(fd) => GovM::Field(fd@),
            Governance::GovernedGridCell(t) => GovM::GovernedGridCell(t),
            Governance::Ungoverned => GovM::Ungoverned,
        }
    }
}

impl View for Document {
    type V = DocumentM;

    open spec fn view(&self) -> DocumentM {
        DocumentM {
            schema: self.schema@,
            rim_root_field: self.rim_root_field@,
            rom: self.rom@,
            ram: self.ram@,
            rim: self.rim@,
            selection: self.selection@,
            dirty: self.dirty,
        }
    }
}

impl View for DocumentSnapshot {
    type V = SnapshotM;

    open spec fn view(&self) -> SnapshotM {
        SnapshotM {
            schema: self.schema@,
            rim_root_field: self.rim_root_field@,
            ram: self.ram@,
            rim: self.rim@,
            selection: self.selection@,
        }
    }
}

/// Unfolds the model of a tree content whose value is known only
/// indirectly (a prophesied final value).
pub broadcast proof fn lemma_content_view_tree(c: CellContent)
    requires
        c is Tree,
    ensures
        #[trigger] content_view(c) == ContentM::Tree(grid_view(c->Tree_0)),
{
}

pub broadcast proof fn lemma_content_view_struct(c: CellContent)
    requires
        c matches CellContent::Value(LeafValue::Struct(si)),
    ensures
        #[trigger] content_view(c) == ContentM::Value(
            LeafM::Struct(struct_view(c->Value_0->Struct_0)),
        ),
{
}

pub broadcast proof fn lemma_content_view_symbol(c: CellContent)
    requires
        c matches CellContent::Value(LeafValue::Symbol(s)),
    ensures
        #[trigger] content_view(c) == ContentM::Value(LeafM::Symbol(c->Value_0->Symbol_0@)),
{
}

pub broadcast proof fn lemma_opt_view_some(o: Option<CellContent>)
    requires
        o is Some,
    ensures
        #[trigger] opt_view(o) == Some(content_view(o->Some_0)),
{
}

pub broadcast proof fn lemma_cells_view_update(s: Seq<Option<CellContent>>, k: int, x: Option<CellContent>)
    requires
        0 <= k < s.len(),
    ensures
        #[trigger] cells_view(s.update(k, x)) == cells_view(s).update(k, opt_view(x)),
{
    assert(cells_view(s.update(k, x)) =~= cells_view(s).update(k, opt_view(x)));
}

pub broadcast proof fn lemma_fields_view_update(s: Seq<CellContent>, k: int, x: CellContent)
    requires
        0 <= k < s.len(),
    ensures
        #[trigger] fields_view(s.update(k, x)) == fields_view(s).update(k, content_view(x)),
{
    assert(fields_view(s.update(k, x)) =~= fields_view(s).update(k, content_view(x)));
}

pub broadcast proof fn lemma_struct_view_unfold(si: StructInstance)
    ensures
        #[trigger] struct_view(si) == (StructM {
            struct_id: si.struct_id,
            variant: si.variant,
            fields: fields_view(si.fields@),
        }),
{
}

pub broadcast proof fn lemma_grid_view_unfold(g: Grid)
    ensures
        #[trigger] grid_view(g) == (GridM { cells: cells_view(g.cells@), width: g.width, height: g.height }),
{
}

pub broadcast group group_view_unfold {
    lemma_struct_view_unfold,
    lemma_grid_view_unfold,
    lemma_content_view_tree,
    lemma_content_view_struct,
    lemma_content_view_symbol,
    lemma_opt_view_some,
    lemma_cells_view_update,
    lemma_fields_view_update,
}

// ===========================================================================
// Deep copies
// ===========================================================================

/// A deep copy of a content, equal to it in the model.
pub fn clone_content(c: &CellContent) -> (r: CellContent)
    ensures
        r@ == c@,
    decreases c,
{
    match c {
        CellContent::Value(v) => CellContent::Value(clone_leaf(v)),
        CellContent::Tree(g) => CellContent::Tree(clone_grid(g)),
    }
}

pub fn clone_leaf(v: &LeafValue) -> (r: LeafValue)
    ensures
        r@ == v@,
    decreases v,
{
    match v {
        LeafValue::Symbol(s) => LeafValue::Symbol(s.clone()),
        LeafValue::Struct(si) => LeafValue::Struct(clone_struct(si)),
    }
}

pub fn clone_struct(si: &StructInstance) -> (r: StructInstance)
    ensures
        r@ == si@,
    decreases si,
{
    let mut fields: Vec<CellContent> = Vec::new();
    let n = si.fields.len();
    let mut i: usize = 0;
    while i < n
        invariant
            n == si.fields@.len(),
            i <= n,
            fields@.len() == i,
            forall|j: int| 0 <= j < i ==> #[trigger] content_view(fields@[j]) == content_view(si.fields@[j]),
        decreases n - i,
    {
        proof {
            broadcast use vstd::std_specs::vec::axiom_vec_index_decreases;
            assert(decreases_to!(si => si.fields));
            assert(decreases_to!(si.fields => si.fields@[i as int]));
        }
        let f = clone_content(&si.fields[i]);
        fields.push(f);
        i = i + 1;
    }
    let r = StructInstance { struct_id: si.struct_id, variant: si.variant, fields };
    assert(forall|j: int| 0 <= j < n ==> content_view(r.fields@[j]) == content_view(si.fields@[j]));
    assert(fields_view(r.fields@).len() == fields_view(si.fields@).len());
    assert(forall|j: int| 0 <= j < n ==> fields_view(r.fields@)[j] == content_view(r.fields@[j]));
    assert(fields_view(r.fields@) =~= fields_view(si.fields@));
    r
}

pub fn clone_opt(o: &Option<CellContent>) -> (r: Option<CellContent>)
    ensures
        opt_view(r) == opt_view(*o),
    decreases o,
{
    match o {
        None => None,
        Some(c) => Some(clone_content(c)),
    }
}

pub fn clone_grid(g: &Grid) -> (r: Grid)
    ensures
        r@ == g@,
    decreases g,
{
    let mut cells: Vec<Option<CellContent>> = Vec::new();
    let n = g.cells.len();
    let mut i: usize = 0;
    while i < n
        invariant
            n == g.cells@.len(),
            i <= n,
            cells@.len() == i,
            forall|j: int| 0 <= j < i ==> #[trigger] opt_view(cells@[j]) == opt_view(g.cells@[j]),
        decreases n - i,
    {
        proof {
            broadcast use vstd::std_specs::vec::axiom_vec_index_decreases;
            assert(decreases_to!(g => g.cells));
            assert(decreases_to!(g.cells => g.cells@[i as int]));
        }
        let o = clone_opt(&g.cells[i]);
        cells.push(o);
        i = i + 1;
    }
    let r = Grid { cells, width: g.width, height: g.height };
    assert(forall|j: int| 0 <= j < n ==> cells_view(r.cells@)[j] == opt_view(r.cells@[j]));
    assert(cells_view(r.cells@) =~= cells_view(g.cells@));
    r
}

/// A copy of a field definition, equal to it.
pub fn clone_field_def(f: &FieldDef) -> (r: FieldDef)
    ensures
        r == *f,
        r@ == f@,
{
    FieldDef { name: f.name.clone(), elem: f.elem, is_tree: f.is_tree }
}

/// A copy of a location, equal to it in the model.
pub fn clone_location(l: &CellLocation) -> (r: CellLocation)
    ensures
        r@ == l@,
{
    let path = l.path.clone();
    proof {
        assert(path@ =~= l.path@);
    }
    CellLocation { region: l.region, path }
}

/// A copy of a list of locations, equal to it in the model.
pub fn clone_locations(ls: &Vec<CellLocation>) -> (r: Vec<CellLocation>)
    ensures
        locations_view(r@) == locations_view(ls@),
{
    let mut r: Vec<CellLocation> = Vec::new();
    let mut i: usize = 0;
    while i < ls.len()
        invariant
            i <= ls@.len(),
            r@.len() == i,
            forall|j: int| 0 <= j < i ==> #[trigger] r@[j]@ == ls@[j]@,
        decreases ls@.len() - i,
    {
        r.push(clone_location(&ls[i]));
        i = i + 1;
    }
    proof {
        assert(locations_view(r@) =~= locations_view(ls@));
    }
    r
}

/// A copy of a selection, equal to it in the model.
pub fn clone_selection(s: &Selection) -> (r: Selection)
    ensures
        r@ == s@,
{
    Selection {
        rom: clone_location(&s.rom),
        rim: clone_location(&s.rim),
        ram: clone_locations(&s.ram),
        superhighlighted: clone_location(&s.superhighlighted),
        red: clone_locations(&s.red),
    }
}

/// A copy of a variant definition, equal to it in the model.
pub fn clone_variant_def(v: &VariantDef) -> (r: VariantDef)
    ensures
        r@ == v@,
{
    let mut fields: Vec<FieldDef> = Vec::new();
    let mut i: usize = 0;
    while i < v.fields.len()
        invariant
            i <= v.fields@.len(),
            fields@.len() == i,
            forall|j: int| 0 <= j < i ==> #[trigger] fields@[j]@ == v.fields@[j]@,
        decreases v.fields@.len() - i,
    {
        fields.push(clone_field_def(&v.fields[i]));
        i = i + 1;
    }
    let r = VariantDef { name: v.name.clone(), fields };
    assert(r@.fields =~= v@.fields);
    r
}

/// A copy of a struct definition, equal to it in the model.
pub fn clone_struct_def(d: &StructDef) -> (r: StructDef)
    ensures
        r@ == d@,
{
    let mut variants: Vec<VariantDef> = Vec::new();
    let mut i: usize = 0;
    while i < d.variants.len()
        invariant
            i <= d.variants@.len(),
            variants@.len() == i,
            forall|j: int| 0 <= j < i ==> #[trigger] variants@[j]@ == d.variants@[j]@,
        decreases d.variants@.len() - i,
    {
        variants.push(clone_variant_def(&d.variants[i]));
        i = i + 1;
    }
    let r = StructDef { name: d.name.clone(), variants };
    assert(r@.variants =~= d@.variants);
    r
}

/// A copy of a schema, equal to it in the model.
pub fn clone_schema(s: &Schema) -> (r: Schema)
    ensures
        r@ == s@,
{
    let mut structs: Vec<StructDef> = Vec::new();
    let mut i: usize = 0;
    while i < s.structs.len()
        invariant
            i <= s.structs@.len(),
            structs@.len() == i,
            forall|j: int| 0 <= j < i ==> #[trigger] structs@[j]@ == s.structs@[j]@,
        decreases s.structs@.len() - i,
    {
        structs.push(clone_struct_def(&s.structs[i]));
        i = i + 1;
    }
    let r = Schema { structs };
    assert(r@ =~= s@);
    r
}

impl Clone for CellContent {
    fn clone(&self) -> (r: Self)
        ensures
            r@ == self@,
    {
        clone_content(self)
    }
}

impl Clone for Grid {
    fn clone(&self) -> (r: Self)
        ensures
            r@ == self@,
    {
        clone_grid(self)
    }
}

impl Clone for LeafValue {
    fn clone(&self) -> (r: Self)
        ensures
            r@ == self@,
    {
        clone_leaf(self)
    }
}

impl Clone for StructInstance {
    fn clone(&self) -> (r: Self)
        ensures
            r@ == self@,
    {
        clone_struct(self)
    }
}

} // verus!
