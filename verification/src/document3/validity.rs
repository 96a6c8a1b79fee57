//! Whether a document is structurally well-formed and type-correct.

use vstd::prelude::*;

use super::{
    Cell, CellM, CellValue, Document, DocumentM, FieldDef, FieldDefM, FieldValM, StructVal,
    StructValM, Tree, TreeM, Types, TypesM,
};

verus! {

// ===========================================================================
// Specifications
// ===========================================================================

/// A tree's contents match its declared dimensions.
pub open spec fn spec_valid_shape(t: TreeM) -> bool {
    t.contents.len() == t.width * t.height
}

/// The field ids of the `Field` cells among `contents`, `None` elsewhere.
pub open spec fn spec_field_tags(contents: Seq<CellM>) -> Seq<Option<usize>> {
    contents.map_values(
        |c: CellM|
            match c {
                CellM::Field(fv) => Some(fv.field_id),
                _ => None,
            },
    )
}

/// Some `Field` cell among `contents` carries field id `f`.
pub open spec fn spec_tag_present(contents: Seq<CellM>, f: int) -> bool {
    exists|i: int| 0 <= i < contents.len() && #[trigger] spec_field_tags(contents)[i] == Some(f as usize)
}

/// Each field id below `count` is carried by exactly one `Field` cell.
pub open spec fn spec_tagged_once(contents: Seq<CellM>, count: nat) -> bool {
    let tags = spec_field_tags(contents);
    &&& forall|f: int| 0 <= f < count ==> #[trigger] spec_tag_present(contents, f)
    &&& forall|i: int, j: int|
        0 <= i < j < tags.len() && #[trigger] tags[i] is Some && #[trigger] tags[j] is Some ==> tags[i] != tags[j]
}

/// A struct: its ids resolve, and its grid holds exactly one correctly
/// tagged `Field` cell per field of its variant (every other cell empty),
/// each holding a valid value for its field; a fieldless variant has no
/// grid.
pub open spec fn spec_valid_struct(types: TypesM, sv: StructValM) -> bool
    decreases sv, 0int,
{
    if sv.struct_id < types.types.len() && sv.variant_id < types.types[sv.struct_id as int].variants.len() {
        let fields = types.types[sv.struct_id as int].variants[sv.variant_id as int].fields;
        match sv.grid {
            None => fields.len() == 0,
            Some(g) => match *g {
                CellM::Tree(t) => {
                    &&& fields.len() > 0
                    &&& spec_valid_shape(t)
                    &&& forall|i: int|
                        #![trigger t.contents[i]]
                        0 <= i < t.contents.len() ==> spec_grid_cell_ok(types, sv, fields, t.contents[i])
                    &&& spec_tagged_once(t.contents, fields.len())
                },
                _ => false,
            },
        }
    } else {
        false
    }
}

/// A cell of a struct's grid: empty, or a `Field` cell tagged with the
/// struct, its variant and one of its fields, holding a valid value for
/// that field.
pub open spec fn spec_grid_cell_ok(types: TypesM, sv: StructValM, fields: Seq<FieldDefM>, c: CellM) -> bool
    decreases c, 4int,
{
    match c {
        CellM::Empty => true,
        CellM::Field(fv) => {
            &&& fv.struct_id == sv.struct_id
            &&& fv.variant_id == sv.variant_id
            &&& fv.field_id < fields.len()
            &&& spec_valid_field_value(types, *fv.value, fields[fv.field_id as int])
        },
        _ => false,
    }
}

/// The value held by a field (or by the Rim root), checked against its
/// definition.
pub open spec fn spec_valid_field_value(types: TypesM, c: CellM, def: FieldDefM) -> bool
    decreases c, 3int,
{
    if def.is_tree {
        match c {
            CellM::Tree(t) => spec_valid_shape(t) && forall|i: int|
                #![trigger t.contents[i]]
                0 <= i < t.contents.len() ==> spec_valid_element(types, t.contents[i], def.value),
            _ => false,
        }
    } else {
        spec_valid_typed(types, c, def.value)
    }
}

/// An element of a typed tree: empty, a value of the element type, or a
/// well-shaped tree of such elements (nesting on the grid axis is free:
/// what counts is the values reached by flattening).
pub open spec fn spec_valid_element(types: TypesM, c: CellM, v: CellValue) -> bool
    decreases c, 2int,
{
    match c {
        CellM::Empty => true,
        CellM::Tree(t) => spec_valid_shape(t) && forall|i: int|
            #![trigger t.contents[i]]
            0 <= i < t.contents.len() ==> spec_valid_element(types, t.contents[i], v),
        _ => spec_valid_typed(types, c, v),
    }
}

/// A cell that is exactly a (non-tree, non-empty) value of the type.
pub open spec fn spec_valid_typed(types: TypesM, c: CellM, v: CellValue) -> bool
    decreases c, 1int,
{
    match (c, v) {
        (CellM::Symbol(_), CellValue::Symbol) => true,
        (CellM::Struct(sv), CellValue::Struct(id)) => sv.struct_id == id && spec_valid_struct(types, sv),
        _ => false,
    }
}

/// A cell of a free (untyped) tree: anything but a loose `Field` cell.
pub open spec fn spec_valid_free_cell(types: TypesM, c: CellM) -> bool
    decreases c, 1int,
{
    match c {
        CellM::Empty => true,
        CellM::Symbol(_) => true,
        CellM::Struct(sv) => spec_valid_struct(types, sv),
        CellM::Tree(t) => spec_valid_shape(t) && forall|i: int|
            #![trigger t.contents[i]]
            0 <= i < t.contents.len() ==> spec_valid_free_cell(types, t.contents[i]),
        CellM::Field(_) => false,
    }
}

/// A region root: a tree of free cells.
pub open spec fn spec_valid_region_tree(types: TypesM, c: CellM) -> bool {
    match c {
        CellM::Tree(t) => spec_valid_shape(t) && forall|i: int|
            #![trigger t.contents[i]]
            0 <= i < t.contents.len() ==> spec_valid_free_cell(types, t.contents[i]),
        _ => false,
    }
}

/// The whole document is structurally well-formed and type-correct.
pub open spec fn spec_valid(types: TypesM, d: DocumentM) -> bool {
    &&& spec_valid_field_value(types, d.rim, types.rim)
    &&& spec_valid_region_tree(types, d.ram)
    &&& spec_valid_region_tree(types, d.rom)
}

// ===========================================================================
// Checking
// ===========================================================================

fn valid_shape(t: &Tree) -> (r: bool)
    ensures
        r == spec_valid_shape(t@),
{
    match t.width.checked_mul(t.height) {
        Some(n) => t.contents.len() == n,
        None => {
            let _n = t.contents.len();
            false
        },
    }
}

/// Whether the whole document is structurally well-formed and
/// type-correct.
pub fn is_valid(doc: &Document, types: &Types) -> (r: bool)
    ensures
        r == spec_valid(types@, doc@),
{
    valid_field_value(&doc.rim, &types.rim, types) && valid_region_tree(&doc.ram, types)
        && valid_region_tree(&doc.rom, types)
}

fn valid_region_tree(cell: &Cell, types: &Types) -> (r: bool)
    ensures
        r == spec_valid_region_tree(types@, cell@),
{
    broadcast use super::group_cell_view;

    match cell {
        Cell::Tree(t) => valid_shape(t) && all_free(t, types),
        _ => false,
    }
}

fn all_free(t: &Tree, types: &Types) -> (r: bool)
    ensures
        r == forall|i: int|
            #![trigger t@.contents[i]]
            0 <= i < t@.contents.len() ==> spec_valid_free_cell(types@, t@.contents[i]),
    decreases t, 0int,
{
    broadcast use super::group_cell_view;

    let mut i: usize = 0;
    while i < t.contents.len()
        invariant
            i <= t@.contents.len(),
            forall|j: int| 0 <= j < i ==> spec_valid_free_cell(types@, #[trigger] t@.contents[j]),
        decreases t@.contents.len() - i,
    {
        proof {
            broadcast use vstd::std_specs::vec::axiom_vec_index_decreases;

            assert(decreases_to!(t => t.contents));
            assert(decreases_to!(t.contents => t.contents@[i as int]));
        }
        if !valid_free_cell(&t.contents[i], types) {
            assert(t.contents@[i as int]@ == t@.contents[i as int]);
            assert(!spec_valid_free_cell(types@, t@.contents[i as int]));
            return false;
        }
        i = i + 1;
    }
    true
}

fn valid_free_cell(cell: &Cell, types: &Types) -> (r: bool)
    ensures
        r == spec_valid_free_cell(types@, cell@),
    decreases cell, 1int,
{
    broadcast use super::group_cell_view;

    match cell {
        Cell::Empty => true,
        Cell::Symbol(_) => true,
        Cell::Struct(sv) => valid_struct(sv, types),
        Cell::Tree(t) => valid_shape(t) && all_free(t, types),
        Cell::Field(_) => false,
    }
}

fn valid_field_value(cell: &Cell, def: &FieldDef, types: &Types) -> (r: bool)
    ensures
        r == spec_valid_field_value(types@, cell@, def@),
    decreases cell, 3int,
{
    broadcast use super::group_cell_view;

    if def.is_tree {
        match cell {
            Cell::Tree(t) => valid_shape(t) && all_elements(t, def.value, types),
            _ => false,
        }
    } else {
        valid_typed(cell, def.value, types)
    }
}

fn all_elements(t: &Tree, value: CellValue, types: &Types) -> (r: bool)
    ensures
        r == forall|i: int|
            #![trigger t@.contents[i]]
            0 <= i < t@.contents.len() ==> spec_valid_element(types@, t@.contents[i], value),
    decreases t, 2int,
{
    broadcast use super::group_cell_view;

    let mut i: usize = 0;
    while i < t.contents.len()
        invariant
            i <= t@.contents.len(),
            forall|j: int| 0 <= j < i ==> spec_valid_element(types@, #[trigger] t@.contents[j], value),
        decreases t@.contents.len() - i,
    {
        proof {
            broadcast use vstd::std_specs::vec::axiom_vec_index_decreases;

            assert(decreases_to!(t => t.contents));
            assert(decreases_to!(t.contents => t.contents@[i as int]));
        }
        let c = &t.contents[i];
        let ok = valid_element(c, value, types);
        if !ok {
            assert(c@ == t@.contents[i as int]);
            assert(!spec_valid_element(types@, t@.contents[i as int], value));
            return false;
        }
        i = i + 1;
    }
    true
}

fn valid_element(cell: &Cell, value: CellValue, types: &Types) -> (r: bool)
    ensures
        r == spec_valid_element(types@, cell@, value),
    decreases cell, 2int,
{
    broadcast use super::group_cell_view;

    match cell {
        Cell::Empty => true,
        Cell::Tree(t) => valid_shape(t) && all_elements(t, value, types),
        _ => valid_typed(cell, value, types),
    }
}

fn valid_typed(cell: &Cell, value: CellValue, types: &Types) -> (r: bool)
    ensures
        r == spec_valid_typed(types@, cell@, value),
    decreases cell, 1int,
{
    broadcast use super::group_cell_view;

    match (cell, value) {
        (Cell::Symbol(_), CellValue::Symbol) => true,
        (Cell::Struct(sv), CellValue::Struct(id)) => sv.struct_id == id && valid_struct(sv, types),
        _ => false,
    }
}

fn valid_struct(sv: &StructVal, types: &Types) -> (r: bool)
    ensures
        r == spec_valid_struct(types@, sv@),
    decreases sv, 0int,
{
    broadcast use super::group_cell_view;

    if sv.struct_id >= types.types.len() {
        return false;
    }
    let def = &types.types[sv.struct_id];
    if sv.variant_id >= def.variants.len() {
        return false;
    }
    let variant = &def.variants[sv.variant_id];
    let ghost fields = types@.types[sv.struct_id as int].variants[sv.variant_id as int].fields;
    assert(fields == variant.fields@.map_values(|f: FieldDef| f@));
    let field_count = variant.fields.len();
    let grid = match &sv.grid {
        None => {
            return field_count == 0;
        },
        Some(g) => g,
    };
    let t = match &**grid {
        Cell::Tree(t) => t,
        _ => {
            return false;
        },
    };
    if field_count == 0 || !valid_shape(t) {
        return false;
    }
    let ghost tm = t@;
    let ghost tags = spec_field_tags(tm.contents);
    assert(sv@.grid == Some(Box::new(CellM::Tree(tm))));
    let mut seen: Vec<bool> = Vec::new();
    let mut k: usize = 0;
    while k < field_count
        invariant
            k <= field_count,
            seen@.len() == k,
            forall|f: int| 0 <= f < k ==> !seen@[f],
        decreases field_count - k,
    {
        seen.push(false);
        k = k + 1;
    }
    let mut i: usize = 0;
    while i < t.contents.len()
        invariant
            sv.grid == Some(*grid),
            **grid == Cell::Tree(*t),
            tm == t@,
            tags == spec_field_tags(tm.contents),
            field_count == fields.len(),
            field_count > 0,
            spec_valid_shape(tm),
            sv@.grid == Some(Box::new(CellM::Tree(tm))),
            sv.struct_id < types@.types.len(),
            sv.variant_id < types@.types[sv.struct_id as int].variants.len(),
            fields == types@.types[sv.struct_id as int].variants[sv.variant_id as int].fields,
            fields == variant.fields@.map_values(|f: FieldDef| f@),
            seen@.len() == field_count,
            i <= tm.contents.len(),
            forall|j: int|
                #![trigger tm.contents[j]]
                0 <= j < i ==> spec_grid_cell_ok(types@, sv@, fields, tm.contents[j]),
            forall|f: int| 0 <= f < field_count ==> (#[trigger] seen@[f] <==> exists|j: int|
                0 <= j < i && #[trigger] tags[j] == Some(f as usize)),
            forall|a: int, b: int|
                0 <= a < b < i && #[trigger] tags[a] is Some && #[trigger] tags[b] is Some ==> tags[a]
                    != tags[b],
        decreases tm.contents.len() - i,
    {
        proof {
            broadcast use vstd::std_specs::vec::axiom_vec_index_decreases;

            assert(decreases_to!(sv => sv.grid));
            assert(decreases_to!(t => t.contents));
            assert(decreases_to!(t.contents => t.contents@[i as int]));
        }
        let c = &t.contents[i];
        assert(c@ == tm.contents[i as int]);
        match c {
            Cell::Empty => {
                assert(tags[i as int] == None::<usize>);
            },
            Cell::Field(fv) => {
                if fv.struct_id != sv.struct_id || fv.variant_id != sv.variant_id || fv.field_id
                    >= field_count || seen[fv.field_id] {
                    proof {
                        assert(tm.contents[i as int] == CellM::Field(fv@));
                        if fv.field_id < field_count && seen@[fv.field_id as int] {
                            let j = choose|j: int|
                                0 <= j < i && #[trigger] tags[j] == Some(fv.field_id);
                            assert(tags[i as int] == Some(fv.field_id));
                            assert(!spec_tagged_once(tm.contents, fields.len()));
                        }
                        if !(fv.field_id < field_count && seen@[fv.field_id as int]) {
                            assert(!spec_grid_cell_ok(types@, sv@, fields, tm.contents[i as int]));
                        }
                    }
                    return false;
                }
                let ghost old_seen = seen@;
                seen.set(fv.field_id, true);
                assert(tags[i as int] == Some(fv.field_id));
                assert(variant.fields@[fv.field_id as int]@ == fields[fv.field_id as int]);
                proof {
                    assert(decreases_to!(sv => sv.grid));
                    assert(sv.grid == Some(*grid));
                    assert(decreases_to!(sv.grid => *grid));
                    assert(decreases_to!(**grid => *t));
                    assert(decreases_to!(*t => t.contents@[i as int]));
                    assert(decreases_to!(t.contents@[i as int] => *fv));
                    assert(decreases_to!(*fv => fv.value));
                    assert(decreases_to!(sv => fv.value));
                }
                if !valid_field_value(&fv.value, &variant.fields[fv.field_id], types) {
                    assert(tm.contents[i as int] == CellM::Field(fv@));
                    assert(!spec_grid_cell_ok(types@, sv@, fields, tm.contents[i as int]));
                    return false;
                }
                proof {
                    assert forall|f: int| 0 <= f < field_count implies (#[trigger] seen@[f]
                        <==> exists|j: int| 0 <= j < i + 1 && #[trigger] tags[j] == Some(f as usize)) by {
                        if f == fv.field_id {
                        } else {
                            assert(seen@[f] == old_seen[f]);
                            if exists|j: int| 0 <= j < i + 1 && #[trigger] tags[j] == Some(f as usize) {
                                let j = choose|j: int| 0 <= j < i + 1 && #[trigger] tags[j] == Some(f as usize);
                                assert(j != i);
                            }
                        }
                    }
                    assert forall|a: int, b: int|
                        0 <= a < b < i + 1 && #[trigger] tags[a] is Some && #[trigger] tags[b] is Some implies tags[a]
                            != tags[b] by {
                        if b == i && tags[a] == tags[b] {
                            assert(old_seen[fv.field_id as int]);
                        }
                    }
                }
            },
            _ => {
                assert(!(tm.contents[i as int] is Field) && !(tm.contents[i as int] is Empty));
                assert(!spec_grid_cell_ok(types@, sv@, fields, tm.contents[i as int]));
                return false;
            },
        }
        i = i + 1;
    }
    let mut f: usize = 0;
    while f < field_count
        invariant
            f <= field_count,
            seen@.len() == field_count,
            forall|g: int| 0 <= g < f ==> #[trigger] seen@[g],
            tm == t@,
            tags == spec_field_tags(tm.contents),
            forall|g: int| 0 <= g < field_count ==> (#[trigger] seen@[g] <==> exists|j: int|
                0 <= j < tm.contents.len() && #[trigger] tags[j] == Some(g as usize)),
            field_count == fields.len(),
            field_count > 0,
            spec_valid_shape(tm),
            sv@.grid == Some(Box::new(CellM::Tree(tm))),
            sv.struct_id < types@.types.len(),
            sv.variant_id < types@.types[sv.struct_id as int].variants.len(),
            fields == types@.types[sv.struct_id as int].variants[sv.variant_id as int].fields,
            forall|j: int|
                #![trigger tm.contents[j]]
                0 <= j < tm.contents.len() ==> spec_grid_cell_ok(types@, sv@, fields, tm.contents[j]),
            forall|a: int, b: int|
                0 <= a < b < tm.contents.len() && #[trigger] tags[a] is Some && #[trigger] tags[b] is Some ==> tags[a]
                    != tags[b],
        decreases field_count - f,
    {
        if !seen[f] {
            proof {
                assert(!spec_tagged_once(tm.contents, fields.len())) by {
                    if spec_tag_present(tm.contents, f as int) {
                        let j = choose|j: int|
                            0 <= j < tm.contents.len() && #[trigger] spec_field_tags(tm.contents)[j] == Some(f);
                        assert(tags[j] == Some(f));
                        assert(seen@[f as int]);
                    }
                }
            }
            return false;
        }
        f = f + 1;
    }
    proof {
        assert forall|g: int| 0 <= g < field_count implies #[trigger] spec_tag_present(tm.contents, g) by {
            assert(seen@[g]);
            let j = choose|j: int| 0 <= j < tm.contents.len() && #[trigger] tags[j] == Some(g as usize);
            assert(spec_field_tags(tm.contents)[j] == Some(g as usize));
        }
    }
    true
}

} // verus!
