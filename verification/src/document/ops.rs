//! Creating documents, selection, snapshots, and the operations.

use vstd::prelude::*;

use super::{
    CellContent, CellLocation, CellSlot, CellSlotMut, ContentM, Document, DocumentM,
    DocumentSnapshot, FieldDef, FieldDefM, Grid, GridM, HSide, LeafM, LeafValue, LocationM,
    Operation, Outcome, PathStep, Region, RegionMask, Schema, Selection, SelectionM, SlotM,
    SnapshotM, StructDefM, StructInstance, StructM, VSide, VariantDefM, clone_content,
    clone_location, clone_locations, clone_schema, clone_selection, clone_field_def,
    locations_view, opt_view, default_content, default_tree, spec_default_content,
    spec_default_tree, spec_governance, spec_governance_ok, spec_insert_col_cells,
    spec_delete_col_cells, spec_insert_row_cells, spec_delete_row_cells, spec_location_ok,
    spec_put, spec_region_root, spec_resolve, spec_slot_at, spec_validates, spec_with_root,
    spec_integrity, validates,
};

verus! {

// ===========================================================================
// Models of operations
// ===========================================================================

pub enum OperationM {
    Copy { source: LocationM },
    AddRow { at: LocationM, side: VSide },
    AddColumn { at: LocationM, side: HSide },
    DeleteRow { at: LocationM, side: VSide },
    DeleteColumn { at: LocationM, side: HSide },
    SelectVariant { at: LocationM, variant: usize },
    EditSymbol { at: LocationM, text: Seq<char> },
}

impl View for Operation {
    type V = OperationM;

    open spec fn view(&self) -> OperationM {
        match *self {
            Operation::Copy { source } => OperationM::Copy { source: source@ },
            Operation::AddRow { at, side } => OperationM::AddRow { at: at@, side },
            Operation::AddColumn { at, side } => OperationM::AddColumn { at: at@, side },
            Operation::DeleteRow { at, side } => OperationM::DeleteRow { at: at@, side },
            Operation::DeleteColumn { at, side } => OperationM::DeleteColumn { at: at@, side },
            Operation::SelectVariant { at, variant } => OperationM::SelectVariant {
                at: at@,
                variant,
            },
            Operation::EditSymbol { at, text } => OperationM::EditSymbol { at: at@, text: text@ },
        }
    }
}

// ===========================================================================
// Creation and snapshots
// ===========================================================================

pub open spec fn spec_all_regions() -> RegionMask {
    RegionMask { rom: true, ram: true, rim: true }
}

pub open spec fn spec_root_location(region: Region) -> LocationM {
    LocationM { region, path: Seq::empty() }
}

/// The Rom palette of a schema: a 1xN column holding the variant-0
/// instance of every struct, an empty symbol, and a default tree.
pub open spec fn spec_build_rom(schema: Seq<StructDefM>) -> ContentM {
    let n = schema.len();
    ContentM::Tree(
        GridM {
            cells: Seq::new(
                n,
                |i: int|
                    Some(
                        ContentM::Value(
                            LeafM::Struct(StructM { struct_id: i as usize, variant: 0, fields: Seq::empty() }),
                        ),
                    ),
            ) + seq![Some(ContentM::Value(LeafM::Symbol(Seq::empty()))), Some(spec_default_tree())],
            width: 1,
            height: (n + 2) as usize,
        },
    )
}

/// The starting selection: Rom root highlighted and superhighlighted, Rim
/// root highlighted, nothing in Ram, nothing red.
pub open spec fn spec_start_selection() -> SelectionM {
    SelectionM {
        rom: spec_root_location(Region::Rom),
        rim: spec_root_location(Region::Rim),
        ram: Seq::empty(),
        superhighlighted: spec_root_location(Region::Rom),
        red: Seq::empty(),
    }
}

pub open spec fn spec_snapshot(d: DocumentM) -> SnapshotM {
    SnapshotM {
        schema: d.schema,
        rim_root_field: d.rim_root_field,
        ram: d.ram,
        rim: d.rim,
        selection: d.selection,
    }
}

pub open spec fn spec_from_snapshot(s: SnapshotM) -> DocumentM {
    DocumentM {
        schema: s.schema,
        rim_root_field: s.rim_root_field,
        rom: spec_build_rom(s.schema),
        ram: s.ram,
        rim: s.rim,
        selection: s.selection,
        dirty: spec_all_regions(),
    }
}

/// Build the Rom palette from a schema.
fn build_rom(schema: &Schema) -> (r: CellContent)
    ensures
        r@ == spec_build_rom(schema@),
{
    let mut cells: Vec<Option<CellContent>> = Vec::new();
    let n = schema.structs.len();
    let mut id: usize = 0;
    while id < n
        invariant
            n == schema@.len(),
            id <= n,
            cells@.len() == id,
            forall|j: int|
                0 <= j < id ==> #[trigger] opt_view(cells@[j]) == Some(
                    ContentM::Value(
                        LeafM::Struct(StructM { struct_id: j as usize, variant: 0, fields: Seq::empty() }),
                    ),
                ),
        decreases n - id,
    {
        let c = CellContent::Value(
            LeafValue::Struct(StructInstance { struct_id: id, variant: 0, fields: Vec::new() }),
        );
        proof {
            assert(super::fields_view(Seq::<CellContent>::empty()) =~= Seq::<ContentM>::empty());
        }
        cells.push(Some(c));
        id = id + 1;
    }
    let sym = CellContent::Value(LeafValue::Symbol(String::new()));
    assert(sym@ == ContentM::Value(LeafM::Symbol(Seq::empty())));
    cells.push(Some(sym));
    let t = default_tree();
    cells.push(Some(t));
    let h = cells.len();
    let r = CellContent::Tree(Grid::new(cells, 1, h));
    proof {
        let target = spec_build_rom(schema@)->Tree_0.cells;
        assert(opt_view(cells@[n as int]) == target[n as int]);
        assert(opt_view(cells@[n + 1]) == target[n + 1]);
        assert(forall|j: int| 0 <= j < n ==> opt_view(cells@[j]) == #[trigger] target[j]);
        assert(super::cells_view(cells@) =~= target);
    }
    r
}

impl Document {
    /// Create a new document: Rom from the schema, Ram a default tree, Rim
    /// the default of the chosen root field, and the starting selection.
    pub fn new(schema: Schema, rim_root_field: FieldDef) -> (r: Self)
        ensures
            r.schema == schema,
            r.rim_root_field == rim_root_field,
            r@.rom == spec_build_rom(schema@),
            r@.ram == spec_default_tree(),
            r@.rim == spec_default_content(rim_root_field@),
            r@.selection == spec_start_selection(),
            r.dirty == spec_all_regions(),
    {
        let rom = build_rom(&schema);
        let ram = default_tree();
        let rim = default_content(&rim_root_field);
        let rom_root = CellLocation::root(Region::Rom);
        let selection = Selection {
            rom: clone_location(&rom_root),
            rim: CellLocation::root(Region::Rim),
            ram: Vec::new(),
            superhighlighted: rom_root,
            red: Vec::new(),
        };
        proof {
            assert(locations_view(Seq::<CellLocation>::empty()) =~= Seq::<LocationM>::empty());
        }
        Document { schema, rim_root_field, rom, ram, rim, selection, dirty: RegionMask::all() }
    }

    /// Capture a snapshot for undo or save.
    pub fn snapshot(&self) -> (r: DocumentSnapshot)
        ensures
            r@ == spec_snapshot(self@),
    {
        DocumentSnapshot {
            schema: clone_schema(&self.schema),
            rim_root_field: clone_field_def(&self.rim_root_field),
            ram: clone_content(&self.ram),
            rim: clone_content(&self.rim),
            selection: clone_selection(&self.selection),
        }
    }

    /// Reconstruct a document from a snapshot: `rom` is rebuilt from the
    /// schema and every region is marked dirty. The result must pass
    /// `check_integrity` before it is treated as live.
    pub fn from_snapshot(snap: DocumentSnapshot) -> (r: Self)
        ensures
            r@ == spec_from_snapshot(snap@),
    {
        let rom = build_rom(&snap.schema);
        Document {
            schema: snap.schema,
            rim_root_field: snap.rim_root_field,
            rom,
            ram: snap.ram,
            rim: snap.rim,
            selection: snap.selection,
            dirty: RegionMask::all(),
        }
    }
}

// ===========================================================================
// Selection
// ===========================================================================

/// The Ram highlight list after a click on `loc`: the first equal entry is
/// removed, or `loc` is appended if there is none.
pub open spec fn spec_toggle(ram: Seq<LocationM>, loc: LocationM) -> Seq<LocationM> {
    if exists|i: int| 0 <= i < ram.len() && ram[i] == loc {
        let i = choose|i: int|
            0 <= i < ram.len() && ram[i] == loc && forall|j: int| 0 <= j < i ==> ram[j] != loc;
        ram.remove(i)
    } else {
        ram.push(loc)
    }
}

pub open spec fn spec_select(s: SelectionM, loc: LocationM) -> SelectionM {
    match loc.region {
        Region::Rom => SelectionM { rom: loc, ram: Seq::empty(), superhighlighted: loc, red: Seq::empty(), ..s },
        Region::Rim => SelectionM { rim: loc, ram: Seq::empty(), superhighlighted: loc, red: Seq::empty(), ..s },
        Region::Ram => SelectionM {
            ram: spec_toggle(s.ram, loc),
            superhighlighted: loc,
            red: Seq::empty(),
            ..s
        },
    }
}

fn same_location(a: &CellLocation, b: &CellLocation) -> (r: bool)
    ensures
        r == (a@ == b@),
{
    if a.region != b.region || a.path.len() != b.path.len() {
        return false;
    }
    let mut i: usize = 0;
    while i < a.path.len()
        invariant
            a.path@.len() == b.path@.len(),
            i <= a.path@.len(),
            forall|j: int| 0 <= j < i ==> a.path@[j] == b.path@[j],
        decreases a.path@.len() - i,
    {
        if a.path[i] != b.path[i] {
            return false;
        }
        i = i + 1;
    }
    proof {
        assert(a.path@ =~= b.path@);
    }
    true
}

impl Document {
    /// A selection click on `loc`: moves the superhighlight to `loc`,
    /// updates the clicked region's highlight, clears red, and for a
    /// Rom/Rim pick clears Ram's highlights. A Ram click toggles the cell's
    /// highlight.
    pub fn select(&mut self, loc: CellLocation)
        ensures
            final(self)@ == (DocumentM {
                selection: spec_select(old(self)@.selection, loc@),
                dirty: spec_all_regions(),
                ..old(self)@
            }),
    {
        self.selection.red.clear();
        match loc.region {
            Region::Rom => {
                self.selection.rom = clone_location(&loc);
                self.selection.ram.clear();
            },
            Region::Rim => {
                self.selection.rim = clone_location(&loc);
                self.selection.ram.clear();
            },
            Region::Ram => {
                let ghost ram0 = locations_view(self.selection.ram@);
                let n = self.selection.ram.len();
                let mut pos: usize = 0;
                let mut found = false;
                while pos < n && !found
                    invariant
                        n == self.selection.ram@.len(),
                        ram0 == locations_view(self.selection.ram@),
                        pos <= n,
                        found ==> pos < n && ram0[pos as int] == loc@,
                        forall|j: int| 0 <= j < pos ==> ram0[j] != loc@,
                    decreases n - pos + (if found { 0int } else { 1int }),
                {
                    if same_location(&self.selection.ram[pos], &loc) {
                        found = true;
                    } else {
                        pos = pos + 1;
                    }
                }
                if found {
                    proof {
                        assert(ram0[pos as int] == loc@);
                        let i = choose|i: int|
                            0 <= i < ram0.len() && ram0[i] == loc@ && forall|j: int|
                                0 <= j < i ==> ram0[j] != loc@;
                        assert(i == pos) by {
                            if i < pos {
                            } else if i > pos {
                            }
                        }
                    }
                    self.selection.ram.remove(pos);
                    proof {
                        assert(locations_view(self.selection.ram@) =~= ram0.remove(pos as int));
                    }
                } else {
                    self.selection.ram.push(clone_location(&loc));
                    proof {
                        assert(locations_view(self.selection.ram@) =~= ram0.push(loc@));
                    }
                }
            },
        }
        proof {
            assert(locations_view(self.selection.red@) =~= Seq::<LocationM>::empty());
            if loc.region != Region::Ram {
                assert(locations_view(self.selection.ram@) =~= Seq::<LocationM>::empty());
            }
        }
        self.selection.superhighlighted = loc;
        self.dirty = RegionMask::all();
    }
}

// ===========================================================================
// Copy
// ===========================================================================

/// The destinations of a copy, keyed on the superhighlighted cell's region.
pub open spec fn spec_copy_dests(s: SelectionM) -> Seq<LocationM> {
    match s.superhighlighted.region {
        Region::Rim => seq![s.rim],
        Region::Ram => s.ram,
        Region::Rom => Seq::empty(),
    }
}

/// The content at a location, or `None` for an empty grid cell.
pub open spec fn spec_content_at(d: DocumentM, loc: LocationM) -> Option<ContentM> {
    match spec_slot_at(d, loc) {
        Some(slot) => slot.content(),
        None => None,
    }
}

/// Writing `p` into the cell at `loc`: `None` if the location does not
/// resolve, or if it is a field cell and `p` is empty.
pub open spec fn spec_write(d: DocumentM, loc: LocationM, p: Option<ContentM>) -> Option<DocumentM> {
    match spec_slot_at(d, loc) {
        None => None,
        Some(SlotM::Field(_)) => if p is Some {
            Some(
                spec_with_root(d, loc.region, spec_put(spec_region_root(d, loc.region), loc.path, p)),
            )
        } else {
            None
        },
        Some(SlotM::Grid(_)) => Some(
            spec_with_root(d, loc.region, spec_put(spec_region_root(d, loc.region), loc.path, p)),
        ),
    }
}

/// Writing `p` into each location in turn.
pub open spec fn spec_write_all(d: DocumentM, locs: Seq<LocationM>, p: Option<ContentM>) -> Option<DocumentM>
    decreases locs.len(),
{
    if locs.len() == 0 {
        Some(d)
    } else {
        match spec_write_all(d, locs.drop_last(), p) {
            None => None,
            Some(d2) => spec_write(d2, locs.last(), p),
        }
    }
}

/// Every destination accepts the payload.
pub open spec fn spec_all_validate(d: DocumentM, dests: Seq<LocationM>, p: Option<ContentM>) -> bool {
    forall|i: int| 0 <= i < dests.len() ==> spec_validates(p, spec_governance(d, #[trigger] dests[i]))
}

/// A copy from `source` can be carried out: the source and every
/// destination resolve and can be typed, and, if the payload validates,
/// each destination can be written in turn.
pub open spec fn spec_copy_ok(d: DocumentM, source: LocationM) -> bool {
    let dests = spec_copy_dests(d.selection);
    let p = spec_content_at(d, source);
    &&& spec_location_ok(d, source)
    &&& forall|i: int|
        0 <= i < dests.len() ==> spec_location_ok(d, #[trigger] dests[i]) && spec_governance_ok(
            d,
            dests[i],
        )
    &&& spec_all_validate(d, dests, p) ==> spec_write_all(d, dests, p) is Some
}

/// The document after a copy from `source`, with its outcome.
pub open spec fn spec_copy(d: DocumentM, source: LocationM) -> (DocumentM, Outcome) {
    let dests = spec_copy_dests(d.selection);
    let p = spec_content_at(d, source);
    let region = d.selection.superhighlighted.region;
    if dests.len() == 0 {
        (d, Outcome::NoOp)
    } else if !spec_all_validate(d, dests, p) {
        (
            DocumentM {
                selection: SelectionM { red: dests, ..d.selection },
                dirty: spec_all_regions(),
                ..d
            },
            Outcome::Rejected,
        )
    } else {
        let w = spec_write_all(d, dests, p)->Some_0;
        (
            DocumentM {
                selection: SelectionM {
                    red: Seq::empty(),
                    ram: if region == Region::Ram {
                        Seq::empty()
                    } else {
                        w.selection.ram
                    },
                    ..w.selection
                },
                dirty: w.dirty.marked(region),
                ..w
            },
            Outcome::Applied,
        )
    }
}

proof fn lemma_write_all_prefix(d: DocumentM, locs: Seq<LocationM>, p: Option<ContentM>, k: int)
    requires
        0 <= k <= locs.len(),
        spec_write_all(d, locs, p) is Some,
    ensures
        spec_write_all(d, locs.take(k), p) is Some,
    decreases locs.len(),
{
    if k < locs.len() {
        assert(locs.drop_last().take(k) =~= locs.take(k));
        lemma_write_all_prefix(d, locs.drop_last(), p, k);
    } else {
        assert(locs.take(k) =~= locs);
    }
}

fn apply_copy(doc: &mut Document, source: &CellLocation) -> (r: Outcome)
    requires
        spec_copy_ok(old(doc)@, source@),
    ensures
        (final(doc)@, r) == spec_copy(old(doc)@, source@),
{
    let ghost d0 = doc@;
    let dest_region = doc.selection.superhighlighted.region;
    let dests: Vec<CellLocation> = match dest_region {
        Region::Rim => {
            let v = vec![clone_location(&doc.selection.rim)];
            v
        },
        Region::Ram => clone_locations(&doc.selection.ram),
        Region::Rom => Vec::new(),
    };
    let ghost dv = spec_copy_dests(d0.selection);
    proof {
        assert(locations_view(dests@) =~= dv);
    }
    if dests.len() == 0 {
        return Outcome::NoOp;
    }
    let payload: Option<CellContent> = match doc.resolve(source).content() {
        Some(c) => Some(clone_content(c)),
        None => None,
    };
    let ghost p = spec_content_at(d0, source@);
    assert(opt_view(payload) == p);
    let n = dests.len();
    let mut i: usize = 0;
    while i < n
        invariant
            n == dests@.len(),
            locations_view(dests@) == dv,
            dv == spec_copy_dests(d0.selection),
            doc@ == d0,
            old(doc)@ == d0,
            opt_view(payload) == p,
            p == spec_content_at(d0, source@),
            spec_copy_ok(d0, source@),
            i <= n,
            forall|j: int| 0 <= j < i ==> spec_validates(p, spec_governance(d0, #[trigger] dv[j])),
        decreases n - i,
    {
        assert(dests@[i as int]@ == dv[i as int]);
        let gov = doc.governance(&dests[i]);
        if !validates(&payload, &gov) {
            proof {
                assert(!spec_validates(p, spec_governance(d0, dv[i as int])));
                assert(!spec_all_validate(d0, dv, p));
                assert(dv.len() > 0);
            }
            doc.selection.red = dests;
            doc.dirty = RegionMask::all();
            proof {
                assert(doc@.selection == SelectionM { red: dv, ..d0.selection });
                assert(doc@ == DocumentM {
                    selection: SelectionM { red: dv, ..d0.selection },
                    dirty: spec_all_regions(),
                    ..d0
                });
            }
            return Outcome::Rejected;
        }
        i = i + 1;
    }
    assert(spec_all_validate(d0, dv, p));
    let mut k: usize = 0;
    while k < n
        invariant
            n == dests@.len(),
            locations_view(dests@) == dv,
            dv == spec_copy_dests(d0.selection),
            opt_view(payload) == p,
            p == spec_content_at(d0, source@),
            spec_write_all(d0, dv, p) is Some,
            old(doc)@ == d0,
            spec_all_validate(d0, dv, p),
            k <= n,
            spec_write_all(d0, dv.take(k as int), p) == Some(doc@),
        decreases n - k,
    {
        let ghost cur = doc@;
        proof {
            lemma_write_all_prefix(d0, dv, p, k + 1);
            assert(dv.take(k + 1).drop_last() =~= dv.take(k as int));
            assert(dv.take(k + 1).last() == dv[k as int]);
            assert(dests@[k as int]@ == dv[k as int]);
        }
        match doc.resolve_mut(&dests[k]) {
            CellSlotMut::Field(c) => {
                let v = match &payload {
                    Some(x) => clone_content(x),
                    None => vstd::pervasive::unreached(),
                };
                *c = v;
            },
            CellSlotMut::Grid(o) => {
                let v = match &payload {
                    Some(x) => Some(clone_content(x)),
                    None => None,
                };
                *o = v;
            },
        }
        k = k + 1;
    }
    proof {
        assert(dv.take(n as int) =~= dv);
    }
    doc.selection.red.clear();
    if dest_region == Region::Ram {
        doc.selection.ram.clear();
    }
    doc.dirty.mark(dest_region);
    proof {
        assert(locations_view(doc.selection.red@) =~= Seq::<LocationM>::empty());
        if dest_region == Region::Ram {
            assert(locations_view(doc.selection.ram@) =~= Seq::<LocationM>::empty());
        }
    }
    Outcome::Applied
}

} // verus!

verus! {

// ===========================================================================
// Frame facts about writing through a path
// ===========================================================================

/// Writing back the content a path already holds changes nothing.
pub proof fn lemma_put_same(c: ContentM, path: Seq<PathStep>)
    requires
        spec_resolve(SlotM::Field(c), path) is Some,
    ensures
        spec_put(c, path, spec_resolve(SlotM::Field(c), path)->Some_0.content()) == c,
    decreases path.len(),
{
    if path.len() > 0 {
        let rest = path.drop_first();
        match path[0] {
            PathStep::Field { index } => {
                if let ContentM::Value(LeafM::Struct(si)) = c {
                    lemma_put_same(si.fields[index as int], rest);
                    assert(si.fields.update(index as int, si.fields[index as int]) =~= si.fields);
                }
            },
            PathStep::Grid { row, col } => {
                if let ContentM::Tree(g) = c {
                    let k = row * g.width + col;
                    assert(super::spec_step(c, path[0]) == Some(SlotM::Grid(g.cells[k])));
                    if rest.len() == 0 {
                        assert(spec_resolve(SlotM::Grid(g.cells[k]), rest) == Some(SlotM::Grid(g.cells[k])));
                        assert(spec_resolve(SlotM::Field(c), path) == Some(SlotM::Grid(g.cells[k])));
                        assert(g.cells.update(k, g.cells[k]) =~= g.cells);
                    } else {
                        if let Some(inner) = g.cells[k] {
                            assert(spec_resolve(SlotM::Grid(Some(inner)), rest) == spec_resolve(
                                SlotM::Field(inner),
                                rest,
                            ));
                            lemma_put_same(inner, rest);
                            assert(spec_resolve(SlotM::Field(c), path) == spec_resolve(SlotM::Field(inner), rest));
                            assert(g.cells.update(k, Some(inner)) =~= g.cells);
                        }
                    }
                }
            },
        }
    }
}

pub proof fn lemma_with_root_same(d: DocumentM, region: Region)
    ensures
        spec_with_root(d, region, spec_region_root(d, region)) == d,
{
}

pub proof fn lemma_cells_view_concat(a: Seq<Option<CellContent>>, b: Seq<Option<CellContent>>)
    ensures
        super::cells_view(a + b) == super::cells_view(a) + super::cells_view(b),
{
    assert(super::cells_view(a + b) =~= super::cells_view(a) + super::cells_view(b));
}

pub proof fn lemma_cells_view_slices(s: Seq<Option<CellContent>>, i: int, j: int)
    requires
        0 <= i <= j <= s.len(),
    ensures
        super::cells_view(s.subrange(i, j)) == super::cells_view(s).subrange(i, j),
        super::cells_view(s.take(i)) == super::cells_view(s).take(i),
        super::cells_view(s.skip(i)) == super::cells_view(s).skip(i),
{
    assert(super::cells_view(s.subrange(i, j)) =~= super::cells_view(s).subrange(i, j));
    assert(super::cells_view(s.take(i)) =~= super::cells_view(s).take(i));
    assert(super::cells_view(s.skip(i)) =~= super::cells_view(s).skip(i));
}

pub proof fn lemma_cells_view_insert_row(s: Seq<Option<CellContent>>, w: int, at: int)
    requires
        0 <= at * w <= s.len(),
        w >= 0,
    ensures
        super::cells_view(spec_insert_row_cells(s, w, at, None)) == spec_insert_row_cells(
            super::cells_view(s),
            w,
            at,
            None,
        ),
{
    assert(super::cells_view(spec_insert_row_cells(s, w, at, None)) =~= spec_insert_row_cells(
        super::cells_view(s),
        w,
        at,
        None,
    ));
}

pub proof fn lemma_cells_view_delete_row(s: Seq<Option<CellContent>>, w: int, row: int)
    requires
        0 <= row * w,
        row * w + w <= s.len(),
        w >= 0,
    ensures
        super::cells_view(spec_delete_row_cells(s, w, row)) == spec_delete_row_cells(
            super::cells_view(s),
            w,
            row,
        ),
{
    assert(super::cells_view(spec_delete_row_cells(s, w, row)) =~= spec_delete_row_cells(
        super::cells_view(s),
        w,
        row,
    ));
}

pub proof fn lemma_cells_view_insert_col(s: Seq<Option<CellContent>>, w: int, at: int, h: nat)
    requires
        0 <= at <= w,
        s.len() == w * h,
    ensures
        super::cells_view(spec_insert_col_cells(s, w, at, h, None)) == spec_insert_col_cells(
            super::cells_view(s),
            w,
            at,
            h,
            None,
        ),
    decreases h,
{
    if h > 0 {
        assert(w * h == w * (h - 1) + w) by (nonlinear_arith);
        assert(w * (h - 1) >= 0) by (nonlinear_arith)
            requires
                w >= 0,
                h >= 1,
        ;
        lemma_cells_view_insert_col(s.skip(w), w, at, (h - 1) as nat);
        lemma_cells_view_slices(s, at, w);
        lemma_cells_view_slices(s, w, w);
        let rest = spec_insert_col_cells(s.skip(w), w, at, (h - 1) as nat, None);
        lemma_cells_view_concat(s.take(at) + seq![None] + s.subrange(at, w), rest);
        lemma_cells_view_concat(s.take(at) + seq![None], s.subrange(at, w));
        lemma_cells_view_concat(s.take(at), seq![None]);
        assert(super::cells_view(seq![None::<CellContent>]) =~= seq![None::<ContentM>]);
    } else {
        assert(super::cells_view(Seq::<Option<CellContent>>::empty()) =~= Seq::<Option<ContentM>>::empty());
    }
}

pub proof fn lemma_cells_view_delete_col(s: Seq<Option<CellContent>>, w: int, col: int, h: nat)
    requires
        0 <= col < w,
        s.len() == w * h,
    ensures
        super::cells_view(spec_delete_col_cells(s, w, col, h)) == spec_delete_col_cells(
            super::cells_view(s),
            w,
            col,
            h,
        ),
    decreases h,
{
    if h > 0 {
        assert(w * h == w * (h - 1) + w) by (nonlinear_arith);
        assert(w * (h - 1) >= 0) by (nonlinear_arith)
            requires
                w >= 0,
                h >= 1,
        ;
        lemma_cells_view_delete_col(s.skip(w), w, col, (h - 1) as nat);
        lemma_cells_view_slices(s, col, w);
        lemma_cells_view_slices(s, col + 1, w);
        lemma_cells_view_slices(s, w, w);
        let rest = spec_delete_col_cells(s.skip(w), w, col, (h - 1) as nat);
        lemma_cells_view_concat(s.take(col) + s.subrange(col + 1, w), rest);
        lemma_cells_view_concat(s.take(col), s.subrange(col + 1, w));
    } else {
        assert(super::cells_view(Seq::<Option<CellContent>>::empty()) =~= Seq::<Option<ContentM>>::empty());
    }
}

// ===========================================================================
// Breadth operations
// ===========================================================================

/// The location of the cell that contains `loc`.
pub open spec fn spec_parent(loc: LocationM) -> LocationM {
    LocationM { region: loc.region, path: loc.path.drop_last() }
}

/// The grid that contains the cell at `at`, with that cell's row and
/// column — when `at` ends in a grid step into a tree.
pub open spec fn spec_enclosing(d: DocumentM, at: LocationM) -> Option<(GridM, usize, usize)> {
    if at.path.len() == 0 {
        None
    } else {
        match at.path.last() {
            PathStep::Field { .. } => None,
            PathStep::Grid { row, col } => match spec_content_at(d, spec_parent(at)) {
                Some(ContentM::Tree(g)) => Some((g, row, col)),
                _ => None,
            },
        }
    }
}

/// The document with the grid enclosing `at` replaced by `g`.
pub open spec fn spec_with_grid(d: DocumentM, at: LocationM, g: GridM) -> DocumentM {
    spec_with_root(
        d,
        at.region,
        spec_put(spec_region_root(d, at.region), spec_parent(at).path, Some(ContentM::Tree(g))),
    )
}

/// The cell around `at`'s last grid step resolves; the cell at `at` itself
/// may lie outside its grid.
pub open spec fn spec_enclosing_ok(d: DocumentM, at: LocationM) -> bool {
    (at.path.len() > 0 && at.path.last() is Grid) ==> spec_location_ok(d, spec_parent(at))
}

/// A breadth operation at `at` can be carried out: the cell around it
/// resolves and, if it is a grid, the grid is well-shaped and `bound` holds
/// of it and of the row and column that `at` names.
pub open spec fn spec_breadth_ok(d: DocumentM, at: LocationM, bound: spec_fn(GridM, usize, usize) -> bool) -> bool {
    &&& spec_enclosing_ok(d, at)
    &&& match spec_enclosing(d, at) {
        Some((g, row, col)) => {
            &&& super::spec_grid_shape_ok(g.cells.len() as int, g.width as int, g.height as int)
            &&& bound(g, row, col)
        },
        None => true,
    }
}

/// Adding a row at `at` can be carried out: the new row's place is in the
/// grid (the column is not looked at).
pub open spec fn spec_add_row_ok(d: DocumentM, at: LocationM, side: VSide) -> bool {
    spec_breadth_ok(
        d,
        at,
        |g: GridM, row: usize, col: usize|
            match side {
                VSide::Above => row <= g.height,
                VSide::Below => row < g.height,
            },
    )
}

/// Adding a column at `at` can be carried out: the new column's place is in
/// the grid (the row is not looked at).
pub open spec fn spec_add_column_ok(d: DocumentM, at: LocationM, side: HSide) -> bool {
    spec_breadth_ok(
        d,
        at,
        |g: GridM, row: usize, col: usize|
            match side {
                HSide::Left => col <= g.width,
                HSide::Right => col < g.width,
            },
    )
}

/// Deleting a row at `at` can be carried out: the row above exists when
/// there is one to name; the row below is looked up only when it exists.
pub open spec fn spec_delete_row_ok(d: DocumentM, at: LocationM, side: VSide) -> bool {
    spec_breadth_ok(
        d,
        at,
        |g: GridM, row: usize, col: usize|
            match side {
                VSide::Above => row > 0 ==> row <= g.height,
                VSide::Below => row < usize::MAX,
            },
    )
}

/// Deleting a column at `at` can be carried out: the column to the left
/// exists when there is one to name; the column to the right is looked up
/// only when it exists.
pub open spec fn spec_delete_column_ok(d: DocumentM, at: LocationM, side: HSide) -> bool {
    spec_breadth_ok(
        d,
        at,
        |g: GridM, row: usize, col: usize|
            match side {
                HSide::Left => col > 0 ==> col <= g.width,
                HSide::Right => col < usize::MAX,
            },
    )
}

pub open spec fn spec_finish(d: DocumentM, at: LocationM, g: GridM) -> (DocumentM, Outcome) {
    (DocumentM { dirty: d.dirty.marked(at.region), ..spec_with_grid(d, at, g) }, Outcome::Applied)
}

pub open spec fn spec_add_row(d: DocumentM, at: LocationM, side: VSide) -> (DocumentM, Outcome) {
    match spec_enclosing(d, at) {
        None => (d, Outcome::NoOp),
        Some((g, row, col)) => {
            let idx = match side {
                VSide::Above => row as int,
                VSide::Below => row + 1,
            };
            spec_finish(
                d,
                at,
                GridM {
                    cells: spec_insert_row_cells(g.cells, g.width as int, idx, None),
                    height: (g.height + 1) as usize,
                    ..g
                },
            )
        },
    }
}

pub open spec fn spec_add_column(d: DocumentM, at: LocationM, side: HSide) -> (DocumentM, Outcome) {
    match spec_enclosing(d, at) {
        None => (d, Outcome::NoOp),
        Some((g, row, col)) => {
            let idx = match side {
                HSide::Left => col as int,
                HSide::Right => col + 1,
            };
            spec_finish(
                d,
                at,
                GridM {
                    cells: spec_insert_col_cells(g.cells, g.width as int, idx, g.height as nat, None),
                    width: (g.width + 1) as usize,
                    ..g
                },
            )
        },
    }
}

pub open spec fn spec_delete_row(d: DocumentM, at: LocationM, side: VSide) -> (DocumentM, Outcome) {
    match spec_enclosing(d, at) {
        None => (d, Outcome::NoOp),
        Some((g, row, col)) => {
            let target = match side {
                VSide::Above => if row > 0 {
                    Some(row - 1)
                } else {
                    None
                },
                VSide::Below => if row + 1 < g.height {
                    Some(row + 1)
                } else {
                    None
                },
            };
            match target {
                None => (d, Outcome::NoOp),
                Some(t) => spec_finish(
                    d,
                    at,
                    GridM {
                        cells: spec_delete_row_cells(g.cells, g.width as int, t),
                        height: (g.height - 1) as usize,
                        ..g
                    },
                ),
            }
        },
    }
}

pub open spec fn spec_delete_column(d: DocumentM, at: LocationM, side: HSide) -> (DocumentM, Outcome) {
    match spec_enclosing(d, at) {
        None => (d, Outcome::NoOp),
        Some((g, row, col)) => {
            let target = match side {
                HSide::Left => if col > 0 {
                    Some(col - 1)
                } else {
                    None
                },
                HSide::Right => if col + 1 < g.width {
                    Some(col + 1)
                } else {
                    None
                },
            };
            match target {
                None => (d, Outcome::NoOp),
                Some(t) => spec_finish(
                    d,
                    at,
                    GridM {
                        cells: spec_delete_col_cells(g.cells, g.width as int, t, g.height as nat),
                        width: (g.width - 1) as usize,
                        ..g
                    },
                ),
            }
        },
    }
}

/// A prefix of a resolvable path resolves.
pub proof fn lemma_resolve_prefix(slot: SlotM, path: Seq<PathStep>, k: int)
    requires
        0 <= k <= path.len(),
        spec_resolve(slot, path) is Some,
    ensures
        spec_resolve(slot, path.take(k)) is Some,
        spec_resolve(spec_resolve(slot, path.take(k))->Some_0, path.skip(k)) == spec_resolve(
            slot,
            path,
        ),
    decreases path.len(),
{
    if k == 0 {
        assert(path.take(0) =~= Seq::<PathStep>::empty());
        assert(path.skip(0) =~= path);
    } else {
        let c = slot.content()->Some_0;
        let next = super::spec_step(c, path[0])->Some_0;
        lemma_resolve_prefix(next, path.drop_first(), k - 1);
        assert(path.take(k).drop_first() =~= path.drop_first().take(k - 1));
        assert(path.skip(k) =~= path.drop_first().skip(k - 1));
        assert(path.take(k)[0] == path[0]);
    }
}

impl Document {
    /// The grid that contains the cell at `at`, plus that cell's (row, col)
    /// within it — when `at` ends in a grid step into a tree.
    fn enclosing_grid_mut(&mut self, at: &CellLocation) -> (r: Option<(&mut Grid, usize, usize)>)
        requires
            spec_enclosing_ok(old(self)@, at@),
        ensures
            match r {
                None => {
                    &&& spec_enclosing(old(self)@, at@) is None
                    &&& final(self)@ == old(self)@
                },
                Some((g, row, col)) => {
                    &&& spec_enclosing(old(self)@, at@) == Some(((*g)@, row, col))
                    &&& final(self)@ == spec_with_grid(old(self)@, at@, (*final(g))@)
                },
            },
    {
        let n = at.path.len();
        if n == 0 {
            return None;
        }
        let last = at.path[n - 1];
        let (row, col) = match last {
            PathStep::Grid { row, col } => (row, col),
            PathStep::Field { .. } => {
                return None;
            },
        };
        let mut parent_path = at.path.clone();
        parent_path.pop();
        let parent_loc = CellLocation { region: at.region, path: parent_path };
        let ghost d0 = self@;
        proof {
            assert(parent_loc.path@ =~= at.path@.drop_last());
            assert(parent_loc@ == spec_parent(at@));
        }
        match self.resolve_mut(&parent_loc) {
            CellSlotMut::Field(c) => {
                match c {
                    CellContent::Tree(g) => Some((g, row, col)),
                    _ => {
                        proof {
                            lemma_put_same(spec_region_root(d0, at.region), parent_loc.path@);
                        }
                        None
                    },
                }
            },
            CellSlotMut::Grid(o) => {
                match o {
                    Some(CellContent::Tree(g)) => Some((g, row, col)),
                    _ => {
                        proof {
                            lemma_put_same(spec_region_root(d0, at.region), parent_loc.path@);
                        }
                        None
                    },
                }
            },
        }
    }
}

} // verus!

verus! {

fn apply_add_row(doc: &mut Document, at: &CellLocation, side: VSide) -> (r: Outcome)
    requires
        spec_add_row_ok(old(doc)@, at@, side),
    ensures
        (final(doc)@, r) == spec_add_row(old(doc)@, at@, side),
{
    let applied = match doc.enclosing_grid_mut(at) {
        Some((g, row, _col)) => {
            let idx = match side {
                VSide::Above => row,
                VSide::Below => row + 1,
            };
            let ghost g0 = g@;
            let ghost c0 = g.cells@;
            g.insert_row(idx);
            proof {
                assert(idx * g0.width <= g0.cells.len()) by (nonlinear_arith)
                    requires
                        idx <= g0.height,
                        g0.cells.len() == g0.width * g0.height,
                ;
                lemma_cells_view_insert_row(c0, g0.width as int, idx as int);
            }
            true
        },
        None => false,
    };
    finish_breadth(doc, at, applied)
}

fn apply_add_column(doc: &mut Document, at: &CellLocation, side: HSide) -> (r: Outcome)
    requires
        spec_add_column_ok(old(doc)@, at@, side),
    ensures
        (final(doc)@, r) == spec_add_column(old(doc)@, at@, side),
{
    let applied = match doc.enclosing_grid_mut(at) {
        Some((g, _row, col)) => {
            let idx = match side {
                HSide::Left => col,
                HSide::Right => col + 1,
            };
            let ghost g0 = g@;
            let ghost c0 = g.cells@;
            g.insert_col(idx);
            proof {
                lemma_cells_view_insert_col(
                    c0,
                    g0.width as int,
                    idx as int,
                    g0.height as nat,
                );
            }
            true
        },
        None => false,
    };
    finish_breadth(doc, at, applied)
}

fn apply_delete_row(doc: &mut Document, at: &CellLocation, side: VSide) -> (r: Outcome)
    requires
        spec_delete_row_ok(old(doc)@, at@, side),
    ensures
        (final(doc)@, r) == spec_delete_row(old(doc)@, at@, side),
{
    // A cell cannot delete its own row — only a neighbouring one. This is
    // what keeps a grid at least one row tall.
    let applied = match doc.enclosing_grid_mut(at) {
        Some((g, row, _col)) => {
            let target = match side {
                VSide::Above => if row > 0 {
                    Some(row - 1)
                } else {
                    None
                },
                VSide::Below => if row + 1 < g.height {
                    Some(row + 1)
                } else {
                    None
                },
            };
            match target {
                Some(t) => {
                    let ghost g0 = g@;
            let ghost c0 = g.cells@;
                    g.delete_row(t);
                    proof {
                        assert(t * g0.width + g0.width <= g0.cells.len()) by (nonlinear_arith)
                            requires
                                t < g0.height,
                                g0.cells.len() == g0.width * g0.height,
                        ;
                        assert(t * g0.width >= 0) by (nonlinear_arith);
                        lemma_cells_view_delete_row(c0, g0.width as int, t as int);
                    }
                    true
                },
                None => {
                    proof {
                        lemma_put_same(spec_region_root(old(doc)@, at.region), at@.path.drop_last());
                    }
                    false
                },
            }
        },
        None => false,
    };
    finish_breadth(doc, at, applied)
}

fn apply_delete_column(doc: &mut Document, at: &CellLocation, side: HSide) -> (r: Outcome)
    requires
        spec_delete_column_ok(old(doc)@, at@, side),
    ensures
        (final(doc)@, r) == spec_delete_column(old(doc)@, at@, side),
{
    let applied = match doc.enclosing_grid_mut(at) {
        Some((g, _row, col)) => {
            let target = match side {
                HSide::Left => if col > 0 {
                    Some(col - 1)
                } else {
                    None
                },
                HSide::Right => if col + 1 < g.width {
                    Some(col + 1)
                } else {
                    None
                },
            };
            match target {
                Some(t) => {
                    let ghost g0 = g@;
            let ghost c0 = g.cells@;
                    g.delete_col(t);
                    proof {
                        lemma_cells_view_delete_col(
                            c0,
                            g0.width as int,
                            t as int,
                            g0.height as nat,
                        );
                    }
                    true
                },
                None => {
                    proof {
                        lemma_put_same(spec_region_root(old(doc)@, at.region), at@.path.drop_last());
                    }
                    false
                },
            }
        },
        None => false,
    };
    finish_breadth(doc, at, applied)
}

fn finish_breadth(doc: &mut Document, at: &CellLocation, applied: bool) -> (r: Outcome)
    ensures
        applied ==> r == Outcome::Applied && final(doc)@ == (DocumentM {
            dirty: old(doc)@.dirty.marked(at.region),
            ..old(doc)@
        }),
        !applied ==> r == Outcome::NoOp && final(doc)@ == old(doc)@,
{
    if applied {
        doc.dirty.mark(at.region);
        Outcome::Applied
    } else {
        Outcome::NoOp
    }
}

} // verus!

verus! {

// ===========================================================================
// Variant selection and symbol editing
// ===========================================================================

pub open spec fn spec_fields_default(fields: Seq<FieldDefM>) -> Seq<ContentM> {
    fields.map_values(|f: FieldDefM| spec_default_content(f))
}

/// The document with the content at `at` replaced by `c`, and the region
/// marked dirty.
pub open spec fn spec_replace_marked(d: DocumentM, at: LocationM, c: ContentM) -> DocumentM {
    DocumentM {
        dirty: d.dirty.marked(at.region),
        ..spec_with_root(d, at.region, spec_put(spec_region_root(d, at.region), at.path, Some(c)))
    }
}

pub open spec fn spec_select_variant(d: DocumentM, at: LocationM, variant: usize) -> (DocumentM, Outcome) {
    match spec_content_at(d, at) {
        Some(ContentM::Value(LeafM::Struct(si))) => if si.struct_id < d.schema.len() && variant
            < d.schema[si.struct_id as int].variants.len() {
            let vd = d.schema[si.struct_id as int].variants[variant as int];
            let c = ContentM::Value(
                LeafM::Struct(
                    StructM {
                        struct_id: si.struct_id,
                        variant,
                        fields: spec_fields_default(vd.fields),
                    },
                ),
            );
            (spec_replace_marked(d, at, c), Outcome::Applied)
        } else {
            (d, Outcome::NoOp)
        },
        _ => (d, Outcome::NoOp),
    }
}

pub open spec fn spec_edit_symbol(d: DocumentM, at: LocationM, text: Seq<char>) -> (DocumentM, Outcome) {
    match spec_content_at(d, at) {
        Some(ContentM::Value(LeafM::Symbol(_))) => (
            spec_replace_marked(d, at, ContentM::Value(LeafM::Symbol(text))),
            Outcome::Applied,
        ),
        _ => (d, Outcome::NoOp),
    }
}

fn default_fields(fields: &Vec<FieldDef>) -> (r: Vec<CellContent>)
    ensures
        super::fields_view(r@) == spec_fields_default(fields@.map_values(|f: FieldDef| f@)),
{
    let mut r: Vec<CellContent> = Vec::new();
    let mut i: usize = 0;
    while i < fields.len()
        invariant
            i <= fields@.len(),
            r@.len() == i,
            forall|j: int| 0 <= j < i ==> #[trigger] r@[j]@ == spec_default_content(fields@[j]@),
        decreases fields@.len() - i,
    {
        r.push(default_content(&fields[i]));
        i = i + 1;
    }
    proof {
        let fm = fields@.map_values(|f: FieldDef| f@);
        assert forall|j: int| 0 <= j < r@.len() implies #[trigger] super::fields_view(r@)[j]
            == spec_fields_default(fm)[j] by {
            assert(fm[j] == fields@[j]@);
            assert(r@[j]@ == spec_default_content(fields@[j]@));
        }
        assert(super::fields_view(r@) =~= spec_fields_default(fm));
    }
    r
}

fn apply_select_variant(doc: &mut Document, at: &CellLocation, variant: usize) -> (r: Outcome)
    requires
        spec_location_ok(old(doc)@, at@),
    ensures
        (final(doc)@, r) == spec_select_variant(old(doc)@, at@, variant),
{
    broadcast use super::group_view_unfold;

    let ghost d0 = doc@;
    let struct_id = match doc.resolve(at).content() {
        Some(CellContent::Value(LeafValue::Struct(si))) => si.struct_id,
        _ => {
            return Outcome::NoOp;
        },
    };
    if struct_id >= doc.schema.structs.len() {
        return Outcome::NoOp;
    }
    let sd = &doc.schema.structs[struct_id];
    if variant >= sd.variants.len() {
        return Outcome::NoOp;
    }
    proof {
        assert(sd@ == d0.schema[struct_id as int]);
        assert(sd.variants@[variant as int]@ == d0.schema[struct_id as int].variants[variant as int]);
    }
    let new_fields = default_fields(&sd.variants[variant].fields);
    match doc.resolve_mut(at) {
        CellSlotMut::Field(c) => match c {
            CellContent::Value(LeafValue::Struct(si)) => {
                si.variant = variant;
                si.fields = new_fields;
            },
            _ => vstd::pervasive::unreached(),
        },
        CellSlotMut::Grid(o) => match o {
            Some(CellContent::Value(LeafValue::Struct(si))) => {
                si.variant = variant;
                si.fields = new_fields;
            },
            _ => vstd::pervasive::unreached(),
        },
    }
    doc.dirty.mark(at.region);
    Outcome::Applied
}

fn apply_edit_symbol(doc: &mut Document, at: &CellLocation, text: String) -> (r: Outcome)
    requires
        spec_location_ok(old(doc)@, at@),
    ensures
        (final(doc)@, r) == spec_edit_symbol(old(doc)@, at@, text@),
{
    broadcast use super::group_view_unfold;

    let is_symbol = match doc.resolve(at).content() {
        Some(CellContent::Value(LeafValue::Symbol(_))) => true,
        _ => false,
    };
    if !is_symbol {
        return Outcome::NoOp;
    }
    match doc.resolve_mut(at) {
        CellSlotMut::Field(c) => match c {
            CellContent::Value(LeafValue::Symbol(s)) => {
                *s = text;
            },
            _ => vstd::pervasive::unreached(),
        },
        CellSlotMut::Grid(o) => match o {
            Some(CellContent::Value(LeafValue::Symbol(s))) => {
                *s = text;
            },
            _ => vstd::pervasive::unreached(),
        },
    }
    doc.dirty.mark(at.region);
    Outcome::Applied
}

} // verus!

verus! {

// ===========================================================================
// Applying an operation
// ===========================================================================

/// The region that an operation would change in place, if it names one:
/// every operation but a copy names the cell it works at.
pub open spec fn spec_mutation_target(op: OperationM) -> Option<Region> {
    match op {
        OperationM::Copy { .. } => None,
        OperationM::AddRow { at, .. } => Some(at.region),
        OperationM::AddColumn { at, .. } => Some(at.region),
        OperationM::DeleteRow { at, .. } => Some(at.region),
        OperationM::DeleteColumn { at, .. } => Some(at.region),
        OperationM::SelectVariant { at, .. } => Some(at.region),
        OperationM::EditSymbol { at, .. } => Some(at.region),
    }
}

/// An operation can be carried out on `d`: the locations it names resolve
/// (and, for a copy, its destinations can be written in turn). An operation
/// aimed at Rom asks nothing, since it is turned away.
pub open spec fn spec_apply_ok(d: DocumentM, op: OperationM) -> bool {
    if spec_mutation_target(op) == Some(Region::Rom) {
        true
    } else {
        match op {
            OperationM::Copy { source } => spec_copy_ok(d, source),
            OperationM::AddRow { at, side } => spec_add_row_ok(d, at, side),
            OperationM::AddColumn { at, side } => spec_add_column_ok(d, at, side),
            OperationM::DeleteRow { at, side } => spec_delete_row_ok(d, at, side),
            OperationM::DeleteColumn { at, side } => spec_delete_column_ok(d, at, side),
            OperationM::SelectVariant { at, .. } => spec_location_ok(d, at),
            OperationM::EditSymbol { at, .. } => spec_location_ok(d, at),
        }
    }
}

/// The document after `op`, with its outcome. Rom is read-only: an
/// operation that would change it is a no-op.
pub open spec fn spec_apply(d: DocumentM, op: OperationM) -> (DocumentM, Outcome) {
    if spec_mutation_target(op) == Some(Region::Rom) {
        (d, Outcome::NoOp)
    } else {
        match op {
            OperationM::Copy { source } => spec_copy(d, source),
            OperationM::AddRow { at, side } => spec_add_row(d, at, side),
            OperationM::AddColumn { at, side } => spec_add_column(d, at, side),
            OperationM::DeleteRow { at, side } => spec_delete_row(d, at, side),
            OperationM::DeleteColumn { at, side } => spec_delete_column(d, at, side),
            OperationM::SelectVariant { at, variant } => spec_select_variant(d, at, variant),
            OperationM::EditSymbol { at, text } => spec_edit_symbol(d, at, text),
        }
    }
}

/// Apply one operation to the document.
pub fn apply(doc: &mut Document, op: Operation) -> (r: Outcome)
    requires
        spec_apply_ok(old(doc)@, op@),
    ensures
        (final(doc)@, r) == spec_apply(old(doc)@, op@),
{
    let targets_rom = match &op {
        Operation::Copy { .. } => false,
        Operation::AddRow { at, .. } => at.region == Region::Rom,
        Operation::AddColumn { at, .. } => at.region == Region::Rom,
        Operation::DeleteRow { at, .. } => at.region == Region::Rom,
        Operation::DeleteColumn { at, .. } => at.region == Region::Rom,
        Operation::SelectVariant { at, .. } => at.region == Region::Rom,
        Operation::EditSymbol { at, .. } => at.region == Region::Rom,
    };
    if targets_rom {
        return Outcome::NoOp;
    }
    match op {
        Operation::Copy { source } => apply_copy(doc, &source),
        Operation::AddRow { at, side } => apply_add_row(doc, &at, side),
        Operation::AddColumn { at, side } => apply_add_column(doc, &at, side),
        Operation::DeleteRow { at, side } => apply_delete_row(doc, &at, side),
        Operation::DeleteColumn { at, side } => apply_delete_column(doc, &at, side),
        Operation::SelectVariant { at, variant } => apply_select_variant(doc, &at, variant),
        Operation::EditSymbol { at, text } => apply_edit_symbol(doc, &at, text),
    }
}

} // verus!
