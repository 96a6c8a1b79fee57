//! Resolving a cell location to its slot, writing through a slot, and the
//! governance of a slot.

use vstd::prelude::*;

use super::{
    CellContent, CellLocation, CellSlot, CellSlotMut, ContentM, Document, DocumentM, FieldDefM,
    Governance, GovM, GridM, LeafM, LeafValue, LocationM, PathStep, Region, SlotM, StructDefM,
    StructM, content_view, opt_view,
};

verus! {

// ===========================================================================
// Specifications
// ===========================================================================

/// One step from a content into one of its slots; `None` if the step does
/// not match the content or is out of range.
pub open spec fn spec_step(c: ContentM, step: PathStep) -> Option<SlotM> {
    match step {
        PathStep::Field { index } => match c {
            ContentM::Value(LeafM::Struct(si)) => if index < si.fields.len() {
                Some(SlotM::Field(si.fields[index as int]))
            } else {
                None
            },
            _ => None,
        },
        PathStep::Grid { row, col } => match c {
            ContentM::Tree(g) => if row * g.width + col < g.cells.len() {
                Some(SlotM::Grid(g.cells[row * g.width + col]))
            } else {
                None
            },
            _ => None,
        },
    }
}

/// The slot reached by walking `path` from `slot`; `None` if the path does
/// not match the data it walks (including descending through an empty cell).
pub open spec fn spec_resolve(slot: SlotM, path: Seq<PathStep>) -> Option<SlotM>
    decreases path.len(),
{
    if path.len() == 0 {
        Some(slot)
    } else {
        match slot.content() {
            None => None,
            Some(c) => match spec_step(c, path[0]) {
                None => None,
                Some(next) => spec_resolve(next, path.drop_first()),
            },
        }
    }
}

/// `c` with the slot at `path` overwritten by `v`. A field slot (the root,
/// or a struct field) takes the content of `v`; a grid slot takes `v`.
pub open spec fn spec_put(c: ContentM, path: Seq<PathStep>, v: Option<ContentM>) -> ContentM
    decreases path.len(),
{
    if path.len() == 0 {
        match v {
            Some(x) => x,
            None => c,
        }
    } else {
        let rest = path.drop_first();
        match path[0] {
            PathStep::Field { index } => match c {
                ContentM::Value(LeafM::Struct(si)) => ContentM::Value(
                    LeafM::Struct(
                        StructM {
                            fields: si.fields.update(
                                index as int,
                                spec_put(si.fields[index as int], rest, v),
                            ),
                            ..si
                        },
                    ),
                ),
                _ => c,
            },
            PathStep::Grid { row, col } => match c {
                ContentM::Tree(g) => {
                    let k = row * g.width + col;
                    if rest.len() == 0 {
                        ContentM::Tree(GridM { cells: g.cells.update(k, v), ..g })
                    } else {
                        match g.cells[k] {
                            Some(inner) => ContentM::Tree(
                                GridM { cells: g.cells.update(k, Some(spec_put(inner, rest, v))), ..g },
                            ),
                            None => c,
                        }
                    }
                },
                _ => c,
            },
        }
    }
}

/// The root content of a region.
pub open spec fn spec_region_root(d: DocumentM, region: Region) -> ContentM {
    match region {
        Region::Rom => d.rom,
        Region::Ram => d.ram,
        Region::Rim => d.rim,
    }
}

/// The document with the root of `region` replaced by `c`.
pub open spec fn spec_with_root(d: DocumentM, region: Region, c: ContentM) -> DocumentM {
    match region {
        Region::Rom => DocumentM { rom: c, ..d },
        Region::Ram => DocumentM { ram: c, ..d },
        Region::Rim => DocumentM { rim: c, ..d },
    }
}

/// The slot at `loc` in `d`, if the location resolves.
pub open spec fn spec_slot_at(d: DocumentM, loc: LocationM) -> Option<SlotM> {
    spec_resolve(SlotM::Field(spec_region_root(d, loc.region)), loc.path)
}

/// A location resolves in the document.
pub open spec fn spec_location_ok(d: DocumentM, loc: LocationM) -> bool {
    spec_slot_at(d, loc) is Some
}

/// The governance of a region's root cell: the Rim root is governed by the
/// root field; the Rom and Ram roots are ungoverned.
pub open spec fn spec_gov_root(d: DocumentM, region: Region) -> GovM {
    match region {
        Region::Rim => GovM::Field(d.rim_root_field),
        _ => GovM::Ungoverned,
    }
}

/// The governance after one step: a struct field is governed by its
/// `FieldDef`; a grid cell inherits the element type of a governed tree.
pub open spec fn spec_gov_step(schema: Seq<StructDefM>, gov: GovM, c: ContentM, step: PathStep) -> GovM {
    match step {
        PathStep::Field { index } => match c {
            ContentM::Value(LeafM::Struct(si)) => GovM::Field(
                schema[si.struct_id as int].variants[si.variant as int].fields[index as int],
            ),
            _ => GovM::Ungoverned,
        },
        PathStep::Grid { .. } => match gov {
            GovM::Field(fd) => GovM::GovernedGridCell(fd.elem),
            GovM::GovernedGridCell(elem) => GovM::GovernedGridCell(elem),
            GovM::Ungoverned => GovM::Ungoverned,
        },
    }
}

/// The governance of the slot reached by `path`, starting from `slot`
/// governed by `gov`.
pub open spec fn spec_gov_walk(schema: Seq<StructDefM>, gov: GovM, slot: SlotM, path: Seq<PathStep>) -> GovM
    decreases path.len(),
{
    if path.len() == 0 {
        gov
    } else {
        match slot.content() {
            None => gov,
            Some(c) => match spec_step(c, path[0]) {
                None => gov,
                Some(next) => spec_gov_walk(
                    schema,
                    spec_gov_step(schema, gov, c, path[0]),
                    next,
                    path.drop_first(),
                ),
            },
        }
    }
}

/// The governance walk can be carried out: the path resolves, every field
/// step is declared in the schema, and no grid step enters a non-tree field.
pub open spec fn spec_gov_walk_ok(
    schema: Seq<StructDefM>,
    gov: GovM,
    slot: SlotM,
    path: Seq<PathStep>,
) -> bool
    decreases path.len(),
{
    if path.len() == 0 {
        true
    } else {
        match slot.content() {
            None => false,
            Some(c) => match spec_step(c, path[0]) {
                None => false,
                Some(next) => {
                    &&& match path[0] {
                        PathStep::Field { index } => match c {
                            ContentM::Value(LeafM::Struct(si)) => {
                                &&& si.struct_id < schema.len()
                                &&& si.variant < schema[si.struct_id as int].variants.len()
                                &&& index < schema[si.struct_id as int].variants[si.variant as int].fields.len()
                            },
                            _ => false,
                        },
                        PathStep::Grid { .. } => match gov {
                            GovM::Field(fd) => fd.is_tree,
                            _ => true,
                        },
                    }
                    &&& spec_gov_walk_ok(
                        schema,
                        spec_gov_step(schema, gov, c, path[0]),
                        next,
                        path.drop_first(),
                    )
                },
            },
        }
    }
}

/// The governance of the cell at `loc`.
pub open spec fn spec_governance(d: DocumentM, loc: LocationM) -> GovM {
    spec_gov_walk(
        d.schema,
        spec_gov_root(d, loc.region),
        SlotM::Field(spec_region_root(d, loc.region)),
        loc.path,
    )
}

pub open spec fn spec_governance_ok(d: DocumentM, loc: LocationM) -> bool {
    spec_gov_walk_ok(
        d.schema,
        spec_gov_root(d, loc.region),
        SlotM::Field(spec_region_root(d, loc.region)),
        loc.path,
    )
}

proof fn lemma_skip_first<A>(s: Seq<A>, i: int)
    requires
        0 <= i < s.len(),
    ensures
        s.skip(i)[0] == s[i],
        s.skip(i).drop_first() == s.skip(i + 1),
        s.skip(i).len() > 0,
{
    assert(s.skip(i).drop_first() =~= s.skip(i + 1));
}

// ===========================================================================
// Resolution
// ===========================================================================

/// Walk a path from a root `CellContent`. The path must match the data it
/// walks.
pub(crate) fn resolve_content<'a>(root: &'a CellContent, path: &[PathStep]) -> (r: CellSlot<'a>)
    requires
        spec_resolve(SlotM::Field(root@), path@) is Some,
    ensures
        Some(r@) == spec_resolve(SlotM::Field(root@), path@),
{
    let mut place = CellSlot::Field(root);
    let mut i: usize = 0;
    proof {
        assert(path@.skip(0) =~= path@);
    }
    while i < path.len()
        invariant
            i <= path@.len(),
            spec_resolve(place@, path@.skip(i as int)) == spec_resolve(SlotM::Field(root@), path@),
            spec_resolve(place@, path@.skip(i as int)) is Some,
        decreases path@.len() - i,
    {
        proof {
            lemma_skip_first(path@, i as int);
        }
        let step = path[i];
        let content: &'a CellContent = match place {
            CellSlot::Field(c) => c,
            CellSlot::Grid(o) => match o {
                Some(c) => c,
                None => vstd::pervasive::unreached(),
            },
        };
        place = match step {
            PathStep::Field { index } => match content {
                CellContent::Value(LeafValue::Struct(si)) => {
                    proof {
                        assert(content@ == ContentM::Value(LeafM::Struct(super::struct_view(*si))));
                    }
                    CellSlot::Field(&si.fields[index])
                },
                _ => vstd::pervasive::unreached(),
            },
            PathStep::Grid { row, col } => match content {
                CellContent::Tree(grid) => {
                    proof {
                        assert(content@ == ContentM::Tree(super::grid_view(*grid)));
                    }
                    CellSlot::Grid(grid.get(row, col))
                },
                _ => vstd::pervasive::unreached(),
            },
        };
        i = i + 1;
    }
    place
}

/// Walk a path from a root `CellContent`, handing out the slot for writing.
/// Writing through the slot writes the corresponding place of the root.
pub(crate) fn resolve_content_mut<'a>(root: &'a mut CellContent, path: &[PathStep]) -> (r: CellSlotMut<'a>)
    requires
        spec_resolve(SlotM::Field(old(root)@), path@) is Some,
    ensures
        match r {
            CellSlotMut::Field(c) => {
                &&& spec_resolve(SlotM::Field(old(root)@), path@) == Some(SlotM::Field((*c)@))
                &&& final(root)@ == spec_put(old(root)@, path@, Some((*final(c))@))
            },
            CellSlotMut::Grid(o) => {
                &&& spec_resolve(SlotM::Field(old(root)@), path@) == Some(SlotM::Grid(opt_view(*o)))
                &&& final(root)@ == spec_put(old(root)@, path@, opt_view(*final(o)))
            },
        },
{
    proof {
        assert(path@.skip(0) =~= path@);
    }
    resolve_from(root, path, 0)
}

fn resolve_from<'a>(c: &'a mut CellContent, path: &[PathStep], i: usize) -> (r: CellSlotMut<'a>)
    requires
        i <= path@.len(),
        spec_resolve(SlotM::Field(old(c)@), path@.skip(i as int)) is Some,
    ensures
        match r {
            CellSlotMut::Field(x) => {
                &&& spec_resolve(SlotM::Field(old(c)@), path@.skip(i as int)) == Some(
                    SlotM::Field((*x)@),
                )
                &&& final(c)@ == spec_put(old(c)@, path@.skip(i as int), Some((*final(x))@))
            },
            CellSlotMut::Grid(o) => {
                &&& spec_resolve(SlotM::Field(old(c)@), path@.skip(i as int)) == Some(
                    SlotM::Grid(opt_view(*o)),
                )
                &&& final(c)@ == spec_put(old(c)@, path@.skip(i as int), opt_view(*final(o)))
            },
        },
    decreases path@.len() - i,
{
    broadcast use super::group_view_unfold;

    if i == path.len() {
        return CellSlotMut::Field(c);
    }
    proof {
        lemma_skip_first(path@, i as int);
    }
    let step = path[i];
    match step {
        PathStep::Field { index } => match c {
            CellContent::Value(LeafValue::Struct(si)) => {
                let f = &mut si.fields[index];
                resolve_from(f, path, i + 1)
            },
            _ => vstd::pervasive::unreached(),
        },
        PathStep::Grid { row, col } => match c {
            CellContent::Tree(grid) => {
                let ghost gv = super::grid_view(*grid);
                proof {
                    assert(old(c)@ == ContentM::Tree(gv));
                }
                let o = grid.get_mut(row, col);
                proof {
                    assert(opt_view(*o) == gv.cells[row * gv.width + col]);
                    assert(spec_step(old(c)@, path@[i as int]) == Some(SlotM::Grid(opt_view(*o))));
                    assert(spec_resolve(SlotM::Grid(opt_view(*o)), path@.skip(i + 1)) is Some);
                }
                let ghost ov = opt_view(*o);
                if i + 1 == path.len() {
                    proof {
                        assert(path@.skip(i + 1).len() == 0);
                    }
                    CellSlotMut::Grid(o)
                } else {
                    match o {
                        Some(inner) => {
                            proof {
                                assert(path@.skip(i + 1).len() > 0);
                                assert(SlotM::Grid(ov).content() == Some(inner@));
                            }
                            resolve_from(inner, path, i + 1)
                        },
                        None => vstd::pervasive::unreached(),
                    }
                }
            },
            _ => vstd::pervasive::unreached(),
        },
    }
}

// ===========================================================================
// The document's slots and governance
// ===========================================================================

impl Document {
    pub(crate) fn region_root(&self, region: Region) -> (r: &CellContent)
        ensures
            r@ == spec_region_root(self@, region),
    {
        match region {
            Region::Rom => &self.rom,
            Region::Ram => &self.ram,
            Region::Rim => &self.rim,
        }
    }

    pub(crate) fn region_root_mut(&mut self, region: Region) -> (r: &mut CellContent)
        ensures
            r@ == spec_region_root(old(self)@, region),
            final(self)@ == spec_with_root(old(self)@, region, (*final(r))@),
    {
        match region {
            Region::Rom => &mut self.rom,
            Region::Ram => &mut self.ram,
            Region::Rim => &mut self.rim,
        }
    }

    /// The slot of the cell at `loc`. The location must resolve.
    pub fn resolve(&self, loc: &CellLocation) -> (r: CellSlot<'_>)
        requires
            spec_location_ok(self@, loc@),
        ensures
            spec_slot_at(self@, loc@) == Some(r@),
    {
        resolve_content(self.region_root(loc.region), loc.path.as_slice())
    }

    /// The slot of the cell at `loc`, for writing. Writing through it writes
    /// that cell of the document and nothing else.
    pub fn resolve_mut(&mut self, loc: &CellLocation) -> (r: CellSlotMut<'_>)
        requires
            spec_location_ok(old(self)@, loc@),
        ensures
            match r {
                CellSlotMut::Field(c) => {
                    &&& spec_slot_at(old(self)@, loc@) == Some(SlotM::Field((*c)@))
                    &&& final(self)@ == spec_with_root(
                        old(self)@,
                        loc.region,
                        spec_put(
                            spec_region_root(old(self)@, loc.region),
                            loc.path@,
                            Some((*final(c))@),
                        ),
                    )
                },
                CellSlotMut::Grid(o) => {
                    &&& spec_slot_at(old(self)@, loc@) == Some(SlotM::Grid(opt_view(*o)))
                    &&& final(self)@ == spec_with_root(
                        old(self)@,
                        loc.region,
                        spec_put(
                            spec_region_root(old(self)@, loc.region),
                            loc.path@,
                            opt_view(*final(o)),
                        ),
                    )
                },
            },
    {
        let region = loc.region;
        resolve_content_mut(self.region_root_mut(region), loc.path.as_slice())
    }

    /// The governance of the cell at `loc` — what, if anything, types it.
    /// Walks the path carrying both the content and the governance.
    pub fn governance(&self, loc: &CellLocation) -> (r: Governance)
        requires
            spec_governance_ok(self@, loc@),
        ensures
            r@ == spec_governance(self@, loc@),
    {
        let mut gov = match loc.region {
            Region::Rim => Governance::Field(super::clone_field_def(&self.rim_root_field)),
            Region::Rom | Region::Ram => Governance::Ungoverned,
        };
        let mut place = CellSlot::Field(self.region_root(loc.region));
        let path = loc.path.as_slice();
        let ghost sch = self.schema@;
        let mut i: usize = 0;
        proof {
            assert(path@.skip(0) =~= path@);
        }
        while i < path.len()
            invariant
                i <= path@.len(),
                path@ == loc.path@,
                sch == self.schema@,
                spec_gov_walk(sch, gov@, place@, path@.skip(i as int)) == spec_governance(
                    self@,
                    loc@,
                ),
                spec_gov_walk_ok(sch, gov@, place@, path@.skip(i as int)),
            decreases path@.len() - i,
        {
            proof {
                lemma_skip_first(path@, i as int);
            }
            let step = path[i];
            let content = match place.content() {
                Some(c) => c,
                None => vstd::pervasive::unreached(),
            };
            match step {
                PathStep::Field { index } => {
                    let si = match content {
                        CellContent::Value(LeafValue::Struct(si)) => si,
                        _ => vstd::pervasive::unreached(),
                    };
                    proof {
                        assert(content@ == ContentM::Value(LeafM::Struct(super::struct_view(*si))));
                        assert(self.schema.structs@[si.struct_id as int]@ == sch[si.struct_id as int]);
                    }
                    let fd = super::clone_field_def(
                        &self.schema.structs[si.struct_id].variants[si.variant].fields[index],
                    );
                    place = CellSlot::Field(&si.fields[index]);
                    gov = Governance::Field(fd);
                },
                PathStep::Grid { row, col } => {
                    let grid = match content {
                        CellContent::Tree(g) => g,
                        _ => vstd::pervasive::unreached(),
                    };
                    proof {
                        assert(content@ == ContentM::Tree(super::grid_view(*grid)));
                    }
                    place = CellSlot::Grid(grid.get(row, col));
                    gov = match gov {
                        Governance::Field(fd) => {
                            if fd.is_tree {
                                Governance::GovernedGridCell(fd.elem)
                            } else {
                                vstd::pervasive::unreached()
                            }
                        },
                        Governance::GovernedGridCell(elem) => Governance::GovernedGridCell(elem),
                        Governance::Ungoverned => Governance::Ungoverned,
                    };
                },
            }
            i = i + 1;
        }
        gov
    }
}

} // verus!
