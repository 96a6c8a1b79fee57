//! The editor's decisions: what a cell click, a toolbar button or typing
//! does, given the editor state (the focused cell and the copy gesture) and
//! the document. The view layer shows the state and carries out the
//! commands decided here.

use vstd::prelude::*;
use vstd::string::StringExecFns;

use crate::document3::{
    Cell, CellM, CellPath, CellPathM, Document, DocumentM, PathStep, Region, StructDefM, StructVal,
    StructValM, TreeM, Types, TypesM, clone_path, col_has_field, parent_of, row_has_field,
    spec_add_column, spec_add_row, spec_at, spec_breadth_target, spec_col_has_field, spec_copy,
    spec_delete_column_left, spec_delete_column_right, spec_delete_row_above,
    spec_delete_row_below, spec_depth, spec_edit_symbol, spec_edit_variant, spec_ends_in_tree,
    spec_fields_finite, spec_last_xy, spec_parent, spec_row_has_field, spec_valid_shape,
    spec_with_tree, spec_tree_index, spec_region, spec_set_at, lemma_get_push, lemma_at_set_at,
};
use crate::document::{
    spec_insert_col_cells, spec_delete_col_cells, spec_insert_row_cells, spec_delete_row_cells,
    lemma_insert_col_index, lemma_delete_col_index, lemma_insert_col_len, lemma_delete_col_len,
};

verus! {

/// Copy is a two-click gesture: the focused cell is the destination, and
/// the next cell click names the source.
#[derive(Debug, PartialEq, Eq)]
pub enum Mode {
    Normal,
    AwaitingCopySource { dest: CellPath },
}

/// The editor state: the cell most operations act on, and the gesture in
/// progress.
#[derive(Debug, PartialEq, Eq)]
pub struct Ui {
    pub focused: Option<CellPath>,
    pub mode: Mode,
}

#[derive(Clone, Copy, Debug, PartialEq, Eq, Structural)]
pub enum Action {
    Copy,
    AddRowAbove,
    AddRowBelow,
    AddColLeft,
    AddColRight,
    DeleteRowAbove,
    DeleteRowBelow,
    DeleteColLeft,
    DeleteColRight,
    NextVariant,
}

/// A change of the document that the editor decided on.
#[derive(Debug, PartialEq, Eq)]
pub enum Command {
    /// Copy the cell at `src` onto `dest`.
    Copy { dest: CellPath, src: CellPath },
    /// Put the struct at `at` at variant `variant`.
    EditVariant { at: CellPath, variant: usize },
    /// A breadth operation at the cell `at`.
    Breadth { action: Action, at: CellPath },
    /// Replace the text of the symbol at `at`.
    EditSymbol { at: CellPath, text: String },
}

/// A key press, as far as typing into a symbol cares.
#[derive(Debug, PartialEq, Eq)]
pub enum Key {
    Character(String),
    Space,
    Backspace,
    Other,
}

pub enum ModeM {
    Normal,
    AwaitingCopySource { dest: CellPathM },
}

pub struct UiM {
    pub focused: Option<CellPathM>,
    pub mode: ModeM,
}

pub enum CommandM {
    Copy { dest: CellPathM, src: CellPathM },
    EditVariant { at: CellPathM, variant: usize },
    Breadth { action: Action, at: CellPathM },
    EditSymbol { at: CellPathM, text: Seq<char> },
}

impl View for Ui {
    type V = UiM;

    open spec fn view(&self) -> UiM {
        UiM {
            focused: match self.focused {
                Some(p) => Some(p@),
                None => None,
            },
            mode: match self.mode {
                Mode::Normal => ModeM::Normal,
                Mode::AwaitingCopySource { dest } => ModeM::AwaitingCopySource { dest: dest@ },
            },
        }
    }
}

impl View for Command {
    type V = CommandM;

    open spec fn view(&self) -> CommandM {
        match *self {
            Command::Copy { dest, src } => CommandM::Copy { dest: dest@, src: src@ },
            Command::EditVariant { at, variant } => CommandM::EditVariant { at: at@, variant },
            Command::Breadth { action, at } => CommandM::Breadth { action, at: at@ },
            Command::EditSymbol { at, text } => CommandM::EditSymbol { at: at@, text: text@ },
        }
    }
}

pub open spec fn spec_opt_command(c: Option<Command>) -> Option<CommandM> {
    match c {
        Some(x) => Some(x@),
        None => None,
    }
}

impl Default for Ui {
    fn default() -> (r: Self)
        ensures
            r@ == (UiM { focused: None, mode: ModeM::Normal }),
    {
        Ui { focused: None, mode: Mode::Normal }
    }
}

// ===========================================================================
// Small decisions
// ===========================================================================

/// Rom is the read-only palette: only Ram and Rim accept changes.
pub fn writable(loc: &CellPath) -> (r: bool)
    ensures
        r == (loc.region != Region::Rom),
{
    loc.region != Region::Rom
}

/// A breadth operation needs a cell whose path ends in a grid step.
pub fn is_grid_cell(loc: &CellPath) -> (r: bool)
    ensures
        r == (loc@.path.len() > 0 && loc@.path.last() is Tree),
{
    let n = loc.path.len();
    if n == 0 {
        false
    } else {
        match loc.path[n - 1] {
            PathStep::Tree(_, _) => true,
            _ => false,
        }
    }
}

/// `loc` with one more path step.
pub fn child(loc: &CellPath, step: PathStep) -> (r: CellPath)
    ensures
        r@ == (CellPathM { region: loc.region, path: loc@.path.push(step) }),
{
    let mut l = clone_path(loc);
    l.path.push(step);
    l
}

/// The title of a region.
pub fn region_name(r: Region) -> (s: &'static str)
    ensures
        s@ == match r {
            Region::Rom => "Rom - palette (read-only)"@,
            Region::Ram => "Ram - scratch"@,
            Region::Rim => "Rim - canvas"@,
        },
{
    match r {
        Region::Rom => "Rom - palette (read-only)",
        Region::Ram => "Ram - scratch",
        Region::Rim => "Rim - canvas",
    }
}

/// The status line for the current gesture.
pub fn status_text(ui: &Ui) -> (s: String)
    ensures
        s@ == match ui@.mode {
            ModeM::Normal => "Click a cell to select it. Drag a region to pan, scroll to zoom. The toolbar acts on the selection; typing edits a selected symbol."@,
            ModeM::AwaitingCopySource { .. } => "Copy: now click the SOURCE cell to copy it into the highlighted destination."@,
        },
{
    match &ui.mode {
        Mode::Normal => String::from_str(
            "Click a cell to select it. Drag a region to pan, scroll to zoom. The toolbar acts on the selection; typing edits a selected symbol.",
        ),
        Mode::AwaitingCopySource { .. } => String::from_str(
            "Copy: now click the SOURCE cell to copy it into the highlighted destination.",
        ),
    }
}

/// A struct's header, such as `Pair [xy]`: the struct's name and its
/// variant's name, `-` for a nameless variant.
pub fn struct_header(sv: &StructVal, types: &Types) -> (s: String)
    requires
        sv.struct_id < types@.types.len(),
        sv.variant_id < types@.types[sv.struct_id as int].variants.len(),
    ensures
        s@ == spec_header(types@, sv.struct_id, sv.variant_id),
{
    let def = &types.types[sv.struct_id];
    let variant = &def.variants[sv.variant_id];
    assert(def@ == types@.types[sv.struct_id as int]);
    assert(variant@ == types@.types[sv.struct_id as int].variants[sv.variant_id as int]);
    let mut s = def.name.clone();
    s.append(" [");
    if variant.name.as_str().is_empty() {
        s.append("-");
    } else {
        s.append(variant.name.as_str());
    }
    s.append("]");
    s
}

// ===========================================================================
// What the view shows of a cell
// ===========================================================================

/// How a cell is set apart in the view: the copy destination first, then
/// the focused cell; any other cell is drawn by its kind.
#[derive(Clone, Copy, Debug, PartialEq, Eq, Structural)]
pub enum Highlight {
    CopyDestination,
    Focused,
    Plain,
}

pub open spec fn spec_highlight(ui: UiM, loc: CellPathM) -> Highlight {
    let is_dest = match ui.mode {
        ModeM::AwaitingCopySource { dest } => dest == loc,
        ModeM::Normal => false,
    };
    if is_dest {
        Highlight::CopyDestination
    } else if ui.focused == Some(loc) {
        Highlight::Focused
    } else {
        Highlight::Plain
    }
}

/// Whether two paths name the same cell.
pub fn same_path(a: &CellPath, b: &CellPath) -> (r: bool)
    ensures
        r == (a@ == b@),
{
    if a.region != b.region || a.path.len() != b.path.len() {
        return false;
    }
    let mut i: usize = 0;
    while i < a.path.len()
        invariant
            i <= a.path@.len(),
            a.path@.len() == b.path@.len(),
            forall|j: int| 0 <= j < i ==> a.path@[j] == b.path@[j],
        decreases a.path@.len() - i,
    {
        if a.path[i] != b.path[i] {
            return false;
        }
        i = i + 1;
    }
    assert(a@.path =~= b@.path);
    true
}

/// The highlight of the cell at `loc`.
pub fn highlight(ui: &Ui, loc: &CellPath) -> (r: Highlight)
    ensures
        r == spec_highlight(ui@, loc@),
{
    let is_dest = match &ui.mode {
        Mode::AwaitingCopySource { dest } => same_path(dest, loc),
        Mode::Normal => false,
    };
    if is_dest {
        return Highlight::CopyDestination;
    }
    match &ui.focused {
        Some(f) => if same_path(f, loc) {
            Highlight::Focused
        } else {
            Highlight::Plain
        },
        None => Highlight::Plain,
    }
}

/// A struct's header: its name, then its variant's name in brackets, `-`
/// for a nameless variant.
pub open spec fn spec_header(types: TypesM, struct_id: usize, variant_id: usize) -> Seq<char> {
    let def = types.types[struct_id as int];
    let vname = def.variants[variant_id as int].name;
    def.name + " ["@ + (if vname.len() == 0 {
        "-"@
    } else {
        vname
    }) + "]"@
}

/// The schema names what a cell's label refers to.
pub open spec fn spec_label_ok(cell: CellM, types: TypesM) -> bool {
    match cell {
        CellM::Struct(sv) => sv.struct_id < types.types.len() && sv.variant_id
            < types.types[sv.struct_id as int].variants.len(),
        CellM::Field(fv) => fv.struct_id < types.types.len() && fv.variant_id
            < types.types[fv.struct_id as int].variants.len() && fv.field_id
            < types.types[fv.struct_id as int].variants[fv.variant_id as int].fields.len(),
        _ => true,
    }
}

/// The text shown on a cell: a symbol's text (`EMPTY` for no text), a
/// struct's header, or a field's `struct::variant::field` name. Trees and
/// empty cells carry no text.
pub open spec fn spec_label(cell: CellM, types: TypesM) -> Option<Seq<char>> {
    match cell {
        CellM::Symbol(s) => Some(
            if s.len() == 0 {
                "EMPTY"@
            } else {
                s
            },
        ),
        CellM::Struct(sv) => Some(spec_header(types, sv.struct_id, sv.variant_id)),
        CellM::Field(fv) => {
            let def = types.types[fv.struct_id as int];
            let variant = def.variants[fv.variant_id as int];
            Some(def.name + "::"@ + variant.name + "::"@ + variant.fields[fv.field_id as int].name)
        },
        _ => None,
    }
}

pub open spec fn spec_opt_text(s: Option<String>) -> Option<Seq<char>> {
    match s {
        Some(t) => Some(t@),
        None => None,
    }
}

/// The label of `cell`.
pub fn label(cell: &Cell, types: &Types) -> (r: Option<String>)
    requires
        spec_label_ok(cell@, types@),
    ensures
        spec_opt_text(r) == spec_label(cell@, types@),
{
    proof {
        broadcast use crate::document3::group_cell_view;

    }
    match cell {
        Cell::Symbol(s) => {
            if s.as_str().is_empty() {
                proof {
                    reveal_strlit("EMPTY");
                }
                Some(String::from_str("EMPTY"))
            } else {
                Some(s.clone())
            }
        },
        Cell::Struct(sv) => Some(struct_header(sv, types)),
        Cell::Field(fv) => {
            let def = &types.types[fv.struct_id];
            let variant = &def.variants[fv.variant_id];
            let field = &variant.fields[fv.field_id];
            assert(def@ == types@.types[fv.struct_id as int]);
            assert(variant@ == def@.variants[fv.variant_id as int]);
            assert(field@ == variant@.fields[fv.field_id as int]);
            let mut s = def.name.clone();
            s.append("::");
            s.append(variant.name.as_str());
            s.append("::");
            s.append(field.name.as_str());
            Some(s)
        },
        _ => None,
    }
}

/// `loc` one step further down.
pub open spec fn spec_child(loc: CellPathM, step: PathStep) -> CellPathM {
    CellPathM { region: loc.region, path: loc.path.push(step) }
}

/// The cells drawn inside a cell, by path: a struct's grid, a field's
/// value, or a tree's cells in row-major order.
pub open spec fn spec_children(cell: CellM, loc: CellPathM) -> Seq<CellPathM> {
    match cell {
        CellM::Struct(sv) => if sv.grid is Some {
            seq![spec_child(loc, PathStep::IntoStruct)]
        } else {
            seq![]
        },
        CellM::Field(_) => seq![spec_child(loc, PathStep::IntoField)],
        CellM::Tree(t) => Seq::new(
            (t.width * t.height) as nat,
            |i: int|
                spec_child(
                    loc,
                    PathStep::Tree((i % (t.width as int)) as usize, (i / (t.width as int)) as usize),
                ),
        ),
        _ => seq![],
    }
}

pub open spec fn spec_paths(v: Seq<CellPath>) -> Seq<CellPathM> {
    v.map_values(|p: CellPath| p@)
}

/// The paths of the cells drawn inside `cell`, which stands at `loc`.
pub fn children(cell: &Cell, loc: &CellPath) -> (r: Vec<CellPath>)
    ensures
        spec_paths(r@) == spec_children(cell@, loc@),
{
    proof {
        broadcast use crate::document3::group_cell_view;

    }
    let mut r: Vec<CellPath> = Vec::new();
    match cell {
        Cell::Struct(sv) => {
            if sv.grid.is_some() {
                r.push(child(loc, PathStep::IntoStruct));
            }
            assert(spec_paths(r@) =~= spec_children(cell@, loc@));
        },
        Cell::Field(_) => {
            r.push(child(loc, PathStep::IntoField));
            assert(spec_paths(r@) =~= spec_children(cell@, loc@));
        },
        Cell::Tree(t) => {
            let w = t.width;
            let h = t.height;
            let ghost want = spec_children(cell@, loc@);
            let mut y: usize = 0;
            while y < h
                invariant
                    y <= h,
                    cell@ == CellM::Tree(t@),
                    w == t@.width,
                    h == t@.height,
                    want == spec_children(cell@, loc@),
                    r@.len() == y * w,
                    forall|k: int| 0 <= k < r@.len() ==> #[trigger] r@[k]@ == want[k],
                decreases h - y,
            {
                let mut x: usize = 0;
                while x < w
                    invariant
                        x <= w,
                        y < h,
                        cell@ == CellM::Tree(t@),
                        w == t@.width,
                        h == t@.height,
                        want == spec_children(cell@, loc@),
                        r@.len() == y * w + x,
                        forall|k: int| 0 <= k < r@.len() ==> #[trigger] r@[k]@ == want[k],
                    decreases w - x,
                {
                    proof {
                        let k = y * w + x;
                        assert(k < w * h) by (nonlinear_arith)
                            requires
                                k == y * w + x,
                                x < w,
                                y < h,
                        ;
                        vstd::arithmetic::div_mod::lemma_fundamental_div_mod_converse(
                            k,
                            w as int,
                            y as int,
                            x as int,
                        );
                        assert(want[k] == spec_child(loc@, PathStep::Tree(x, y)));
                    }
                    r.push(child(loc, PathStep::Tree(x, y)));
                    x = x + 1;
                }
                assert((y + 1) * w == y * w + w) by (nonlinear_arith);
                y = y + 1;
            }
            assert(r@.len() == w * h) by (nonlinear_arith)
                requires
                    r@.len() == y * w,
                    y == h,
            ;
            assert(spec_paths(r@) =~= want);
        },
        _ => {
            assert(spec_paths(r@) =~= spec_children(cell@, loc@));
        },
    }
    r
}

/// The toolbar: each button's label and the action it triggers, in order.
pub fn toolbar() -> (r: Vec<(&'static str, Action)>)
    ensures
        r@ == seq![
            ("Copy", Action::Copy),
            ("Row+ above", Action::AddRowAbove),
            ("Row+ below", Action::AddRowBelow),
            ("Col+ left", Action::AddColLeft),
            ("Col+ right", Action::AddColRight),
            ("Row- above", Action::DeleteRowAbove),
            ("Row- below", Action::DeleteRowBelow),
            ("Col- left", Action::DeleteColLeft),
            ("Col- right", Action::DeleteColRight),
            ("Variant +", Action::NextVariant),
        ],
{
    let r = vec![
        ("Copy", Action::Copy),
        ("Row+ above", Action::AddRowAbove),
        ("Row+ below", Action::AddRowBelow),
        ("Col+ left", Action::AddColLeft),
        ("Col+ right", Action::AddColRight),
        ("Row- above", Action::DeleteRowAbove),
        ("Row- below", Action::DeleteRowBelow),
        ("Col- left", Action::DeleteColLeft),
        ("Col- right", Action::DeleteColRight),
        ("Variant +", Action::NextVariant),
    ];
    r
}

// ===========================================================================
// Gestures
// ===========================================================================

/// The state after a cell click, and the copy it completes: a click names
/// the source of a pending copy (carried out only into a writable cell),
/// and always moves the focus to the clicked cell.
pub open spec fn spec_cell_click(ui: UiM, clicked: CellPathM) -> (UiM, Option<CommandM>) {
    let next = UiM { focused: Some(clicked), mode: ModeM::Normal };
    match ui.mode {
        ModeM::AwaitingCopySource { dest } => (
            next,
            if dest.region != Region::Rom {
                Some(CommandM::Copy { dest, src: clicked })
            } else {
                None
            },
        ),
        ModeM::Normal => (next, None),
    }
}

impl Ui {
    /// A click on the cell at `clicked`. Returns the copy to carry out, if
    /// the click completes one.
    pub fn cell_click(&mut self, clicked: CellPath) -> (r: Option<Command>)
        ensures
            (final(self)@, spec_opt_command(r)) == spec_cell_click(old(self)@, clicked@),
    {
        let mut mode = Mode::Normal;
        std::mem::swap(&mut self.mode, &mut mode);
        let r = match mode {
            Mode::AwaitingCopySource { dest } => {
                if writable(&dest) {
                    Some(Command::Copy { dest, src: clone_path(&clicked) })
                } else {
                    None
                }
            },
            Mode::Normal => None,
        };
        self.focused = Some(clicked);
        r
    }
}

/// The variant after the struct's current one, cycling back to the first.
pub open spec fn spec_next_variant(types: TypesM, sv: StructValM) -> Option<usize> {
    let count = types.types[sv.struct_id as int].variants.len();
    if count == 0 {
        None
    } else {
        Some(((sv.variant_id + 1) % (count as int)) as usize)
    }
}

/// How far a breadth action reaches in the tree `t` around the cell at
/// column `x`, row `y`: the row or column it reads must exist, and a grown
/// size must fit in the machine.
pub open spec fn spec_breadth_bound(t: TreeM, x: int, y: int, action: Action) -> bool {
    match action {
        Action::AddRowAbove => y <= t.height && t.height < usize::MAX,
        Action::AddRowBelow => y + 1 <= t.height && t.height < usize::MAX,
        Action::AddColLeft => x <= t.width && t.width < usize::MAX,
        Action::AddColRight => x + 1 <= t.width && t.width < usize::MAX,
        Action::DeleteRowAbove => y <= t.height,
        Action::DeleteRowBelow => y < t.height,
        Action::DeleteColLeft => x <= t.width,
        Action::DeleteColRight => x < t.width,
        _ => true,
    }
}

/// What the document operation behind a breadth action at `at` asks of the
/// document: `at` ends in a grid step and, unless there is no row above or
/// column to the left to delete, the cell around it resolves and, where it
/// is a tree, is well-shaped and within the action's reach.
pub open spec fn spec_breadth_action_ok(d: DocumentM, at: CellPathM, action: Action) -> bool {
    let (x, y) = spec_last_xy(at);
    &&& spec_ends_in_tree(at)
    &&& (match action {
        Action::DeleteRowAbove => y > 0,
        Action::DeleteColLeft => x > 0,
        _ => true,
    }) ==> {
        &&& spec_at(d, spec_parent(at)) is Some
        &&& match spec_breadth_target(d, at) {
            Some(t) => spec_valid_shape(t) && spec_breadth_bound(t, x as int, y as int, action),
            None => true,
        }
    }
}

/// The path `at` with its last grid step at column `x`, row `y`.
pub open spec fn spec_at_xy(at: CellPathM, x: int, y: int) -> CellPathM {
    CellPathM { region: at.region, path: at.path.drop_last().push(PathStep::Tree(x as usize, y as usize)) }
}

/// Where the cell at `at` stands once the breadth action is done: a row
/// added above or a column added to the left pushes it one step on, the
/// removal of the row above or the column to the left pulls it one step
/// back, and otherwise it stays where it is.
pub open spec fn spec_moved_focus(d: DocumentM, at: CellPathM, action: Action) -> CellPathM {
    let (x, y) = spec_last_xy(at);
    match spec_breadth_target(d, at) {
        None => at,
        Some(t) => match action {
            Action::AddRowAbove => spec_at_xy(at, x as int, y + 1),
            Action::AddColLeft => spec_at_xy(at, x + 1, y as int),
            Action::DeleteRowAbove => if y > 0 && !spec_row_has_field(t, y - 1) {
                spec_at_xy(at, x as int, y - 1)
            } else {
                at
            },
            Action::DeleteColLeft => if x > 0 && !spec_col_has_field(t, x - 1) {
                spec_at_xy(at, x - 1, y as int)
            } else {
                at
            },
            _ => at,
        },
    }
}

/// The path of the cell at `at` once the breadth action is done.
fn moved_focus(at: &CellPath, action: Action, doc: &Document) -> (r: CellPath)
    requires
        spec_breadth_action_ok(doc@, at@, action),
    ensures
        r@ == spec_moved_focus(doc@, at@, action),
{
    broadcast use crate::document3::group_cell_view;

    let (parent, x, y) = parent_of(at);
    let stays = match action {
        Action::AddRowAbove => false,
        Action::AddColLeft => false,
        Action::DeleteRowAbove => y == 0,
        Action::DeleteColLeft => x == 0,
        _ => true,
    };
    if stays {
        return clone_path(at);
    }
    let t = match doc.index(&parent) {
        Cell::Tree(t) => t,
        _ => {
            return clone_path(at);
        },
    };
    proof {
        assert(t@.contents.len() == t.contents@.len());
    }
    let (nx, ny) = match action {
        Action::AddRowAbove => (x, y + 1),
        Action::AddColLeft => (x + 1, y),
        Action::DeleteRowAbove => {
            proof {
                assert(y * t.width <= t.width * t.height) by (nonlinear_arith)
                    requires
                        y <= t.height,
                ;
            }
            if row_has_field(t.contents.as_slice(), t.width, y - 1) {
                return clone_path(at);
            }
            (x, y - 1)
        },
        _ => {
            if col_has_field(t.contents.as_slice(), t.width, t.height, x - 1) {
                return clone_path(at);
            }
            (x - 1, y)
        },
    };
    let mut path = parent.path;
    path.push(PathStep::Tree(nx, ny));
    CellPath { region: at.region, path }
}

/// What a toolbar button does with the focused cell: the new state, the
/// command to carry out, and whether the view must be rebuilt.
///
/// Copy starts the copy gesture with the focused cell as destination.
/// Variant cycling applies to a struct in a writable cell. A breadth
/// operation applies to a writable cell inside a grid; the focus follows
/// the focused cell to where the operation moves it.
pub open spec fn spec_button_click(ui: UiM, action: Action, d: DocumentM, types: TypesM) -> (UiM, Option<CommandM>, bool) {
    match ui.focused {
        None => (ui, None, false),
        Some(loc) => match action {
            Action::Copy => (UiM { mode: ModeM::AwaitingCopySource { dest: loc }, ..ui }, None, true),
            Action::NextVariant => if loc.region == Region::Rom {
                (ui, None, false)
            } else {
                match spec_at(d, loc) {
                    Some(CellM::Struct(sv)) => match spec_next_variant(types, sv) {
                        Some(v) => (ui, Some(CommandM::EditVariant { at: loc, variant: v }), true),
                        None => (ui, None, false),
                    },
                    _ => (ui, None, false),
                }
            },
            _ => if loc.region == Region::Rom || !(loc.path.len() > 0 && loc.path.last() is Tree) {
                (ui, None, false)
            } else {
                (
                    UiM { focused: Some(spec_moved_focus(d, loc, action)), ..ui },
                    Some(CommandM::Breadth { action, at: loc }),
                    true,
                )
            },
        },
    }
}

/// Variant cycling moves a struct in a writable, focused cell to the
/// variant after its current one, and from the last variant back to the
/// first; the state is kept and the view rebuilt.
pub proof fn lemma_next_variant_cycles(ui: UiM, d: DocumentM, types: TypesM)
    requires
        ui.focused is Some,
        ui.focused->Some_0.region != Region::Rom,
        spec_at(d, ui.focused->Some_0) matches Some(CellM::Struct(sv)) && {
            &&& sv.struct_id < types.types.len()
            &&& sv.variant_id < types.types[sv.struct_id as int].variants.len()
        },
    ensures
        ({
            let loc = ui.focused->Some_0;
            let sv = spec_at(d, loc)->Some_0->Struct_0;
            let count = types.types[sv.struct_id as int].variants.len();
            let next = if sv.variant_id + 1 < count {
                sv.variant_id + 1
            } else {
                0
            };
            &&& spec_button_click(ui, Action::NextVariant, d, types) == (
                ui,
                Some(CommandM::EditVariant { at: loc, variant: next as usize }),
                true,
            )
            &&& next < count
            &&& next != sv.variant_id <==> count > 1
        }),
{
    let loc = ui.focused->Some_0;
    let sv = spec_at(d, loc)->Some_0->Struct_0;
    let count = types.types[sv.struct_id as int].variants.len() as int;
    let v = sv.variant_id as int;
    if v + 1 < count {
        vstd::arithmetic::div_mod::lemma_small_mod((v + 1) as nat, count as nat);
    } else {
        vstd::arithmetic::div_mod::lemma_mod_self_0(count);
    }
}

impl Ui {
    /// A press of a toolbar button. Returns the command to carry out and
    /// whether the view must be rebuilt.
    pub fn button_click(&mut self, action: Action, doc: &Document, types: &Types) -> (r: (Option<Command>, bool))
        requires
            action == Action::NextVariant ==> match old(self)@.focused {
                Some(loc) => {
                    &&& spec_at(doc@, loc) is Some
                    &&& spec_at(doc@, loc) matches Some(CellM::Struct(sv)) ==> sv.struct_id
                        < types@.types.len()
                },
                None => true,
            },
            !(action == Action::Copy || action == Action::NextVariant) ==> match old(self)@.focused {
                Some(loc) => (loc.region != Region::Rom && spec_ends_in_tree(loc)) ==> spec_breadth_action_ok(
                    doc@,
                    loc,
                    action,
                ),
                None => true,
            },
        ensures
            (final(self)@, spec_opt_command(r.0), r.1) == spec_button_click(
                old(self)@,
                action,
                doc@,
                types@,
            ),
    {
        let loc = match &self.focused {
            None => {
                return (None, false);
            },
            Some(l) => clone_path(l),
        };
        match action {
            Action::Copy => {
                self.mode = Mode::AwaitingCopySource { dest: loc };
                (None, true)
            },
            Action::NextVariant => {
                if !writable(&loc) {
                    return (None, false);
                }
                let next = match doc.index(&loc) {
                    Cell::Struct(sv) => {
                        let count = types.types[sv.struct_id].variants.len();
                        if count == 0 {
                            return (None, false);
                        }
                        proof {
                            broadcast use crate::document3::group_cell_view;

                            vstd::arithmetic::div_mod::lemma_add_mod_noop_right(
                                1,
                                sv.variant_id as int,
                                count as int,
                            );
                        }
                        (1 + sv.variant_id % count) % count
                    },
                    _ => {
                        proof {
                            broadcast use crate::document3::group_cell_view;

                        }
                        return (None, false);
                    },
                };
                (Some(Command::EditVariant { at: loc, variant: next }), true)
            },
            _ => {
                if !writable(&loc) || !is_grid_cell(&loc) {
                    return (None, false);
                }
                self.focused = Some(moved_focus(&loc, action, doc));
                (Some(Command::Breadth { action, at: loc }), true)
            },
        }
    }
}

// ===========================================================================
// Carrying out a command
// ===========================================================================

/// What carrying out `cmd` asks of the document: what the document
/// operation it stands for asks.
pub open spec fn spec_command_ok(d: DocumentM, cmd: CommandM, types: TypesM) -> bool {
    match cmd {
        CommandM::Copy { dest, src } => dest.region != Region::Rom ==> spec_at(d, src) is Some && spec_at(
            d,
            dest,
        ) is Some,
        CommandM::EditVariant { at, variant } => spec_at(d, at) matches Some(CellM::Struct(sv)) && {
            &&& sv.struct_id < types.types.len()
            &&& variant < types.types[sv.struct_id as int].variants.len()
            &&& spec_fields_finite(
                types,
                types.types[sv.struct_id as int].variants[variant as int].fields,
                (spec_depth(types) - 1) as nat,
            )
        },
        CommandM::Breadth { action, at } => spec_breadth_action_ok(d, at, action),
        CommandM::EditSymbol { at, text } => spec_at(d, at) matches Some(CellM::Symbol(_)),
    }
}

/// The document after the breadth action at `at`.
pub open spec fn spec_breadth(d: DocumentM, at: CellPathM, action: Action) -> DocumentM {
    match action {
        Action::AddRowAbove => spec_add_row(d, at, false),
        Action::AddRowBelow => spec_add_row(d, at, true),
        Action::AddColLeft => spec_add_column(d, at, false),
        Action::AddColRight => spec_add_column(d, at, true),
        Action::DeleteRowAbove => spec_delete_row_above(d, at),
        Action::DeleteRowBelow => spec_delete_row_below(d, at),
        Action::DeleteColLeft => spec_delete_column_left(d, at),
        Action::DeleteColRight => spec_delete_column_right(d, at),
        _ => d,
    }
}

/// The document after `cmd`, and the cell named when a copy is refused.
pub open spec fn spec_execute(types: TypesM, d: DocumentM, cmd: CommandM) -> (DocumentM, Result<(), CellPathM>) {
    match cmd {
        CommandM::Copy { dest, src } => spec_copy(types, d, dest, src),
        CommandM::EditVariant { at, variant } => (spec_edit_variant(types, d, at, variant), Ok(())),
        CommandM::Breadth { action, at } => (spec_breadth(d, at, action), Ok(())),
        CommandM::EditSymbol { at, text } => (spec_edit_symbol(d, at, text), Ok(())),
    }
}

/// Carry out `cmd` on the document. A refused copy leaves the document as
/// it was and names its destination.
pub fn execute(doc: &mut Document, cmd: &Command, types: &Types) -> (r: Result<(), CellPath>)
    requires
        spec_command_ok(old(doc)@, cmd@, types@),
    ensures
        (final(doc)@, match r {
            Ok(()) => Ok(()),
            Err(p) => Err(p@),
        }) == spec_execute(types@, old(doc)@, cmd@),
{
    match cmd {
        Command::Copy { dest, src } => doc.copy(dest, src, types),
        Command::EditVariant { at, variant } => {
            doc.edit_variant(at, *variant, types);
            Ok(())
        },
        Command::Breadth { action, at } => {
            match action {
                Action::AddRowAbove => doc.add_row_above(at),
                Action::AddRowBelow => doc.add_row_below(at),
                Action::AddColLeft => doc.add_column_left(at),
                Action::AddColRight => doc.add_column_right(at),
                Action::DeleteRowAbove => doc.delete_row_above(at),
                Action::DeleteRowBelow => doc.delete_row_below(at),
                Action::DeleteColLeft => doc.delete_column_left(at),
                Action::DeleteColRight => doc.delete_column_right(at),
                _ => {},
            }
            Ok(())
        },
        Command::EditSymbol { at, text } => {
            doc.edit_symbol(at, text.as_str());
            Ok(())
        },
    }
}

// ===========================================================================
// The focus through a breadth action
// ===========================================================================

/// The cell at a path that ends in a grid step is a cell of the tree
/// around it.
proof fn lemma_cell_in_tree(d: DocumentM, at: CellPathM)
    requires
        spec_ends_in_tree(at),
        spec_at(d, at) is Some,
    ensures
        spec_breadth_target(d, at) is Some,
        spec_tree_index(spec_breadth_target(d, at)->Some_0, spec_last_xy(at).0, spec_last_xy(at).1)
            < (spec_breadth_target(d, at)->Some_0).contents.len(),
        spec_at(d, at) == Some(
            (spec_breadth_target(d, at)->Some_0).contents[spec_tree_index(
                spec_breadth_target(d, at)->Some_0,
                spec_last_xy(at).0,
                spec_last_xy(at).1,
            )],
        ),
{
    let par = spec_parent(at);
    assert(at.path =~= par.path.push(at.path.last()));
    lemma_get_push(spec_region(d, at.region), par.path, at.path.last());
}

/// Once the tree around `at` is replaced by `t2`, the path to column `x`,
/// row `y` of that tree reaches the cell of `t2` there.
proof fn lemma_cell_after(d: DocumentM, at: CellPathM, t2: TreeM, x: int, y: int)
    requires
        spec_ends_in_tree(at),
        spec_at(d, spec_parent(at)) is Some,
        0 <= x <= usize::MAX,
        0 <= y <= usize::MAX,
        spec_tree_index(t2, x as usize, y as usize) < t2.contents.len(),
    ensures
        spec_at(spec_with_tree(d, at, t2), spec_at_xy(at, x, y)) == Some(
            t2.contents[spec_tree_index(t2, x as usize, y as usize)],
        ),
{
    let par = spec_parent(at);
    let d2 = spec_with_tree(d, at, t2);
    lemma_at_set_at(d, par, CellM::Tree(t2));
    lemma_get_push(spec_region(d2, at.region), par.path, PathStep::Tree(x as usize, y as usize));
}

/// The focus follows the focused cell: after a breadth action at the
/// focused cell, which lies inside its grid, the cell at the moved focus is
/// the cell that was focused.
pub proof fn lemma_focus_follows_cell(d: DocumentM, at: CellPathM, action: Action)
    requires
        spec_breadth_action_ok(d, at, action),
        spec_at(d, at) is Some,
        match spec_breadth_target(d, at) {
            Some(t) => spec_last_xy(at).0 < t.width,
            None => true,
        },
    ensures
        spec_at(spec_breadth(d, at, action), spec_moved_focus(d, at, action)) == spec_at(d, at),
{
    lemma_cell_in_tree(d, at);
    let t = spec_breadth_target(d, at)->Some_0;
    let x = spec_last_xy(at).0 as int;
    let y = spec_last_xy(at).1 as int;
    let w = t.width as int;
    let h = t.height as int;
    let cs = t.contents;
    assert(spec_at_xy(at, x, y) == at) by {
        assert(spec_at_xy(at, x, y).path =~= at.path);
    }
    match action {
        Action::AddRowAbove => {
            assert(y < h) by (nonlinear_arith)
                requires
                    w * y + x < w * h,
                    0 <= x < w,
            ;
            assert(y * w <= cs.len()) by (nonlinear_arith)
                requires
                    y < h,
                    cs.len() == w * h,
                    w >= 0,
            ;
            assert(w * (y + 1) == y * w + w) by (nonlinear_arith);
            assert(y * w == w * y) by (nonlinear_arith);
            assert(w * (y + 1) + x < w * (h + 1)) by (nonlinear_arith)
                requires
                    0 <= x < w,
                    y < h,
            ;
            let t2 = TreeM { contents: spec_insert_row_cells(cs, w, y, CellM::Empty), width: t.width, height: (h + 1) as usize };
            assert(spec_tree_index(t2, x as usize, (y + 1) as usize) == w * (y + 1) + x);
            lemma_cell_after(d, at, t2, x, y + 1);
        },
        Action::AddRowBelow => {
            assert(y < h) by (nonlinear_arith)
                requires
                    w * y + x < w * h,
                    0 <= x < w,
            ;
            assert((y + 1) * w <= cs.len()) by (nonlinear_arith)
                requires
                    y < h,
                    cs.len() == w * h,
                    w >= 0,
            ;
            assert(w * y + x < (y + 1) * w) by (nonlinear_arith)
                requires
                    0 <= x < w,
            ;
            let t2 = TreeM { contents: spec_insert_row_cells(cs, w, y + 1, CellM::Empty), width: t.width, height: (h + 1) as usize };
            lemma_cell_after(d, at, t2, x, y);
        },
        Action::DeleteRowAbove => {
            if y > 0 && !spec_row_has_field(t, y - 1) {
                assert(y < h) by (nonlinear_arith)
                    requires
                        w * y + x < w * h,
                        0 <= x < w,
                ;
                assert((y - 1) * w + w <= cs.len()) by (nonlinear_arith)
                    requires
                        y <= h,
                        cs.len() == w * h,
                        w >= 0,
                ;
                assert(w * (y - 1) + x == (y - 1) * w + x) by (nonlinear_arith);
                assert(w * y == (y - 1) * w + w) by (nonlinear_arith);
                assert(w * (y - 1) + x < w * (h - 1)) by (nonlinear_arith)
                    requires
                        0 <= x < w,
                        y - 1 < h - 1,
                ;
                let t2 = TreeM { contents: spec_delete_row_cells(cs, w, y - 1), width: t.width, height: (h - 1) as usize };
                lemma_cell_after(d, at, t2, x, y - 1);
            }
        },
        Action::DeleteRowBelow => {
            if y != h - 1 && !spec_row_has_field(t, y + 1) {
                assert(y < h) by (nonlinear_arith)
                    requires
                        w * y + x < w * h,
                        0 <= x < w,
                ;
                assert((y + 1) * w + w <= cs.len()) by (nonlinear_arith)
                    requires
                        y + 1 < h,
                        cs.len() == w * h,
                        w >= 0,
                ;
                assert(w * y + x < (y + 1) * w) by (nonlinear_arith)
                    requires
                        0 <= x < w,
                ;
                assert(w * y + x < w * (h - 1)) by (nonlinear_arith)
                    requires
                        0 <= x < w,
                        y < h - 1,
                ;
                let t2 = TreeM { contents: spec_delete_row_cells(cs, w, y + 1), width: t.width, height: (h - 1) as usize };
                lemma_cell_after(d, at, t2, x, y);
            }
        },
        Action::AddColLeft | Action::AddColRight => {
            let is_right = action == Action::AddColRight;
            let c = x + if is_right {
                1int
            } else {
                0int
            };
            let x2 = if is_right {
                x
            } else {
                x + 1
            };
            assert(y < h) by (nonlinear_arith)
                requires
                    w * y + x < w * h,
                    0 <= x < w,
            ;
            lemma_insert_col_index(cs, w, c, h as nat, CellM::Empty, x, y);
            lemma_insert_col_len(cs, w, c, h as nat, CellM::Empty);
            assert((w + 1) * y + x2 < (w + 1) * h) by (nonlinear_arith)
                requires
                    0 <= x2 <= w,
                    0 <= y < h,
            ;
            let t2 = TreeM {
                contents: spec_insert_col_cells(cs, w, c, h as nat, CellM::Empty),
                width: (w + 1) as usize,
                height: t.height,
            };
            lemma_cell_after(d, at, t2, x2, y);
        },
        Action::DeleteColLeft => {
            if x > 0 && !spec_col_has_field(t, x - 1) {
                assert(y < h) by (nonlinear_arith)
                    requires
                        w * y + x < w * h,
                        0 <= x < w,
                ;
                lemma_delete_col_index(cs, w, x - 1, h as nat, x, y);
                lemma_delete_col_len(cs, w, x - 1, h as nat);
                assert((w - 1) * y + x - 1 < (w - 1) * h) by (nonlinear_arith)
                    requires
                        0 <= x - 1 < w - 1,
                        0 <= y < h,
                ;
                let t2 = TreeM {
                    contents: spec_delete_col_cells(cs, w, x - 1, h as nat),
                    width: (w - 1) as usize,
                    height: t.height,
                };
                lemma_cell_after(d, at, t2, x - 1, y);
            }
        },
        Action::DeleteColRight => {
            if x != w - 1 && !spec_col_has_field(t, x + 1) {
                assert(y < h) by (nonlinear_arith)
                    requires
                        w * y + x < w * h,
                        0 <= x < w,
                ;
                lemma_delete_col_index(cs, w, x + 1, h as nat, x, y);
                lemma_delete_col_len(cs, w, x + 1, h as nat);
                assert((w - 1) * y + x < (w - 1) * h) by (nonlinear_arith)
                    requires
                        0 <= x < w - 1,
                        0 <= y < h,
                ;
                let t2 = TreeM {
                    contents: spec_delete_col_cells(cs, w, x + 1, h as nat),
                    width: (w - 1) as usize,
                    height: t.height,
                };
                lemma_cell_after(d, at, t2, x, y);
            }
        },
        _ => {},
    }
}

// ===========================================================================
// Typing into a symbol
// ===========================================================================

/// The text after typing `keys`: a character is appended, a space adds a
/// space, a backspace removes the last character if there is one.
pub open spec fn spec_typed(text: Seq<char>, keys: Seq<Key>) -> Seq<char>
    decreases keys.len(),
{
    if keys.len() == 0 {
        text
    } else {
        let t = spec_typed(text, keys.drop_last());
        match keys.last() {
            Key::Character(c) => t + c@,
            Key::Space => t.push(' '),
            Key::Backspace => if t.len() > 0 {
                t.drop_last()
            } else {
                t
            },
            Key::Other => t,
        }
    }
}

/// Some key in `keys` edits text.
pub open spec fn spec_any_edit(keys: Seq<Key>) -> bool {
    exists|i: int| 0 <= i < keys.len() && !(#[trigger] keys[i] is Other)
}

/// `String::pop`: removes the last character of the string, if any.
#[verifier::external_body]
fn pop_char(s: &mut String)
    ensures
        final(s)@ == if old(s)@.len() > 0 {
            old(s)@.drop_last()
        } else {
            old(s)@
        },
{
    s.pop();
}

/// Type `keys` into `text`. Returns whether any key edited it (then the
/// symbol is to be replaced by the new text).
pub fn type_keys(text: &mut String, keys: &[Key]) -> (changed: bool)
    ensures
        final(text)@ == spec_typed(old(text)@, keys@),
        changed == spec_any_edit(keys@),
{
    let ghost t0 = text@;
    let mut changed = false;
    let mut i: usize = 0;
    while i < keys.len()
        invariant
            i <= keys@.len(),
            text@ == spec_typed(t0, keys@.take(i as int)),
            changed == exists|j: int| 0 <= j < i && !(#[trigger] keys@[j] is Other),
        decreases keys@.len() - i,
    {
        proof {
            assert(keys@.take(i + 1).drop_last() =~= keys@.take(i as int));
            assert(keys@.take(i + 1).last() == keys@[i as int]);
        }
        match &keys[i] {
            Key::Character(c) => {
                text.append(c.as_str());
                changed = true;
            },
            Key::Space => {
                proof {
                    reveal_strlit(" ");
                }
                text.append(" ");
                assert(text@ =~= spec_typed(t0, keys@.take(i as int)).push(' '));
                changed = true;
            },
            Key::Backspace => {
                pop_char(text);
                changed = true;
            },
            Key::Other => {},
        }
        i = i + 1;
    }
    proof {
        assert(keys@.take(keys@.len() as int) =~= keys@);
    }
    changed
}

/// Typing `keys` with the focus on a symbol outside Rom replaces its text
/// by the typed text, when some key edits it; elsewhere typing does
/// nothing.
pub open spec fn spec_typing(ui: UiM, d: DocumentM, keys: Seq<Key>) -> Option<CommandM> {
    match ui.focused {
        None => None,
        Some(loc) => if loc.region == Region::Rom {
            None
        } else {
            match spec_at(d, loc) {
                Some(CellM::Symbol(s)) => if spec_any_edit(keys) {
                    Some(CommandM::EditSymbol { at: loc, text: spec_typed(s, keys) })
                } else {
                    None
                },
                _ => None,
            }
        },
    }
}

impl Ui {
    /// Key presses while the focus is on a cell. Returns the symbol edit to
    /// carry out, if any.
    pub fn typing(&self, doc: &Document, keys: &[Key]) -> (r: Option<Command>)
        requires
            self@.focused matches Some(loc) ==> spec_at(doc@, loc) is Some,
        ensures
            spec_opt_command(r) == spec_typing(self@, doc@, keys@),
    {
        broadcast use crate::document3::group_cell_view;

        let loc = match &self.focused {
            None => {
                return None;
            },
            Some(l) => l,
        };
        if !writable(loc) {
            return None;
        }
        let mut text = match doc.index(loc) {
            Cell::Symbol(s) => s.clone(),
            _ => {
                return None;
            },
        };
        let changed = type_keys(&mut text, keys);
        if changed {
            Some(Command::EditSymbol { at: clone_path(loc), text })
        } else {
            None
        }
    }
}

/// The cell a command changes.
pub open spec fn spec_command_target(c: CommandM) -> CellPathM {
    match c {
        CommandM::Copy { dest, .. } => dest,
        CommandM::EditVariant { at, .. } => at,
        CommandM::Breadth { at, .. } => at,
        CommandM::EditSymbol { at, .. } => at,
    }
}

/// No command the editor decides on changes Rom: not a click, not a
/// button, not typing.
pub proof fn lemma_commands_never_target_rom(
    ui: UiM,
    clicked: CellPathM,
    action: Action,
    d: DocumentM,
    types: TypesM,
    keys: Seq<Key>,
)
    ensures
        spec_cell_click(ui, clicked).1 matches Some(c) ==> spec_command_target(c).region != Region::Rom,
        spec_button_click(ui, action, d, types).1 matches Some(c) ==> spec_command_target(c).region
            != Region::Rom,
        spec_typing(ui, d, keys) matches Some(c) ==> spec_command_target(c).region != Region::Rom,
{
}


// ===========================================================================
// Gestures over several calls
// ===========================================================================

/// The copy gesture: with a focused cell, pressing Copy waits for a source
/// with the focused cell as destination, highlighted as such; the next cell
/// click takes the clicked cell as source, asks for the copy (into a
/// writable destination only), ends the gesture and focuses the clicked
/// cell.
pub proof fn lemma_copy_gesture(ui: UiM, d: DocumentM, types: TypesM, src: CellPathM)
    requires
        ui.focused is Some,
    ensures
        ({
            let dest = ui.focused->Some_0;
            let (u1, c1, redraw) = spec_button_click(ui, Action::Copy, d, types);
            let (u2, c2) = spec_cell_click(u1, src);
            &&& c1 is None && redraw
            &&& spec_highlight(u1, dest) == Highlight::CopyDestination
            &&& u2.focused == Some(src)
            &&& u2.mode is Normal
            &&& c2 == if dest.region != Region::Rom {
                Some(CommandM::Copy { dest, src })
            } else {
                None
            }
            &&& spec_highlight(u2, src) == Highlight::Focused
        }),
{
}

/// A click outside a copy gesture only moves the focus.
pub proof fn lemma_plain_click(ui: UiM, clicked: CellPathM)
    requires
        ui.mode is Normal,
    ensures
        spec_cell_click(ui, clicked) == (UiM { focused: Some(clicked), mode: ModeM::Normal }, None::<CommandM>),
{
}

/// Typing two runs of keys one after the other is typing them at once.
pub proof fn lemma_typing_composes(t: Seq<char>, k1: Seq<Key>, k2: Seq<Key>)
    ensures
        spec_typed(t, k1 + k2) == spec_typed(spec_typed(t, k1), k2),
    decreases k2.len(),
{
    if k2.len() == 0 {
        assert(k1 + k2 =~= k1);
    } else {
        assert((k1 + k2).drop_last() =~= k1 + k2.drop_last());
        assert((k1 + k2).last() == k2.last());
        lemma_typing_composes(t, k1, k2.drop_last());
    }
}

/// What each key does to the text: a character is appended, a space adds a
/// space, a backspace removes the last character (if any), other keys do
/// nothing; a one-letter character followed by a backspace leaves the text
/// as it was, and keys that edit nothing leave it unchanged.
pub proof fn lemma_typing_keys(t: Seq<char>, c: String, keys: Seq<Key>)
    ensures
        spec_typed(t, seq![Key::Character(c)]) == t + c@,
        spec_typed(t, seq![Key::Space]) == t.push(' '),
        spec_typed(t, seq![Key::Backspace]) == if t.len() > 0 {
            t.drop_last()
        } else {
            t
        },
        spec_typed(t, seq![Key::Other]) == t,
        c@.len() == 1 ==> spec_typed(t, seq![Key::Character(c), Key::Backspace]) == t,
        !spec_any_edit(keys) ==> spec_typed(t, keys) == t,
    decreases keys.len(),
{
    reveal_with_fuel(spec_typed, 3);
    assert(seq![Key::Character(c)].drop_last() =~= Seq::<Key>::empty());
    assert(seq![Key::Space].drop_last() =~= Seq::<Key>::empty());
    assert(seq![Key::Backspace].drop_last() =~= Seq::<Key>::empty());
    assert(seq![Key::Other].drop_last() =~= Seq::<Key>::empty());
    let two = seq![Key::Character(c), Key::Backspace];
    assert(two.drop_last() =~= seq![Key::Character(c)]);
    if c@.len() == 1 {
        assert((t + c@).drop_last() =~= t);
    }
    if keys.len() > 0 && !spec_any_edit(keys) {
        assert(!spec_any_edit(keys.drop_last())) by {
            if spec_any_edit(keys.drop_last()) {
                let i = choose|i: int| 0 <= i < keys.drop_last().len() && !(#[trigger] keys.drop_last()[i] is Other);
                assert(keys[i] == keys.drop_last()[i]);
            }
        }
        assert(keys.last() is Other) by {
            if !(keys[keys.len() - 1] is Other) {
                assert(spec_any_edit(keys));
            }
        }
        lemma_typing_keys(t, c, keys.drop_last());
    }
}


// ===========================================================================
// What the view draws
// ===========================================================================

/// The children of a cell are the cells drawn inside it, in order: each
/// child path reaches, in the document, the `i`-th cell of a well-shaped
/// tree (row-major), a struct's grid, or a field's value.
pub proof fn lemma_children_reach(d: DocumentM, loc: CellPathM)
    requires
        spec_at(d, loc) is Some,
    ensures
        ({
            let cell = spec_at(d, loc)->Some_0;
            let kids = spec_children(cell, loc);
            &&& (cell is Tree && spec_valid_shape(cell->Tree_0) && cell->Tree_0.width > 0) ==> {
                &&& kids.len() == cell->Tree_0.contents.len()
                &&& forall|i: int| 0 <= i < kids.len() ==> spec_at(d, #[trigger] kids[i]) == Some(cell->Tree_0.contents[i])
            }
            &&& (cell is Struct && cell->Struct_0.grid is Some) ==> kids.len() == 1 && spec_at(d, kids[0]) == Some(
                *cell->Struct_0.grid->Some_0,
            )
            &&& cell is Field ==> kids.len() == 1 && spec_at(d, kids[0]) == Some(*cell->Field_0.value)
            &&& (cell is Symbol || cell is Empty) ==> kids.len() == 0
        }),
{
    let cell = spec_at(d, loc)->Some_0;
    let kids = spec_children(cell, loc);
    let root = spec_region(d, loc.region);
    match cell {
        CellM::Tree(t) => {
            if spec_valid_shape(t) && t.width > 0 {
                let w = t.width as int;
                assert forall|i: int| 0 <= i < kids.len() implies spec_at(d, #[trigger] kids[i]) == Some(t.contents[i]) by {
                    let x = i % w;
                    let y = i / w;
                    vstd::arithmetic::div_mod::lemma_fundamental_div_mod(i, w);
                    assert(0 <= x < w);
                    assert(0 <= y) by {
                        vstd::arithmetic::div_mod::lemma_div_pos_is_pos(i, w);
                    }
                    assert(y <= i) by {
                        vstd::arithmetic::div_mod::lemma_div_is_ordered_by_denominator(i, 1, w);
                    }
                    assert(w * y + x == i);
                    assert(y < t.height) by (nonlinear_arith)
                        requires
                            w * y + x == i,
                            i < w * t.height,
                            0 <= x,
                            w > 0,
                    ;
                    let step = PathStep::Tree(x as usize, y as usize);
                    assert(kids[i] == spec_child(loc, step));
                    assert(crate::document3::spec_tree_index(t, x as usize, y as usize) == i);
                    lemma_get_push(root, loc.path, step);
                }
            }
        },
        CellM::Struct(sv) => {
            lemma_get_push(root, loc.path, PathStep::IntoStruct);
        },
        CellM::Field(fv) => {
            lemma_get_push(root, loc.path, PathStep::IntoField);
        },
        _ => {},
    }
}

/// A cell is drawn as the copy destination exactly while a copy waits for
/// its source with that cell as destination; otherwise the focused cell is
/// drawn focused and every other cell plainly.
pub proof fn lemma_highlight(ui: UiM, loc: CellPathM)
    ensures
        (spec_highlight(ui, loc) == Highlight::CopyDestination) == (ui.mode == ModeM::AwaitingCopySource {
            dest: loc,
        }),
        spec_highlight(ui, loc) == Highlight::Focused <==> (ui.focused == Some(loc) && ui.mode
            != ModeM::AwaitingCopySource { dest: loc }),
{
}


/// Carrying out a command does what it names: a copy onto its destination
/// from its source, the variant edit at its cell, the breadth action at its
/// cell (a row or column added above, below, left or right, or the
/// neighbouring one deleted), or the symbol's new text.
pub proof fn lemma_execute_does(types: TypesM, d: DocumentM, cmd: CommandM)
    ensures
        match cmd {
            CommandM::Copy { dest, src } => spec_execute(types, d, cmd) == spec_copy(types, d, dest, src),
            CommandM::EditVariant { at, variant } => spec_execute(types, d, cmd) == (
                spec_edit_variant(types, d, at, variant),
                Ok::<(), CellPathM>(()),
            ),
            CommandM::EditSymbol { at, text } => spec_execute(types, d, cmd) == (
                spec_edit_symbol(d, at, text),
                Ok::<(), CellPathM>(()),
            ),
            CommandM::Breadth { action, at } => spec_execute(types, d, cmd).1 == Ok::<(), CellPathM>(()) && spec_execute(
                types,
                d,
                cmd,
            ).0 == match action {
                Action::AddRowAbove => spec_add_row(d, at, false),
                Action::AddRowBelow => spec_add_row(d, at, true),
                Action::AddColLeft => spec_add_column(d, at, false),
                Action::AddColRight => spec_add_column(d, at, true),
                Action::DeleteRowAbove => spec_delete_row_above(d, at),
                Action::DeleteRowBelow => spec_delete_row_below(d, at),
                Action::DeleteColLeft => spec_delete_column_left(d, at),
                Action::DeleteColRight => spec_delete_column_right(d, at),
                _ => d,
            },
        },
{
}

} // verus!
