//! What the editing operations keep.

use vstd::prelude::*;

use super::{
    CellM, CellPathM, CellValue, DocumentM, FieldDefM, FieldValM, PathStep, Region, StructValM,
    TreeM, TypesM, spec_at, spec_copy, spec_edit_symbol, spec_get, spec_grid_cell_ok, spec_mova,
    spec_put, spec_region, spec_set_at, spec_step, spec_tree_index, spec_valid,
    spec_valid_element, spec_valid_field_value, spec_valid_free_cell, spec_valid_region_tree,
    spec_valid_struct, spec_valid_typed, spec_field_tags, spec_tagged_once, spec_tag_present, spec_fields_finite, spec_finite,
    spec_default_struct_variant, spec_default_field, spec_field_cells, spec_any_default, spec_depth,
    spec_edit_variant, spec_valid_shape, spec_breadth_target, spec_with_tree, spec_parent,
    spec_breadth_ok, spec_last_xy, spec_add_row, spec_add_column, spec_without_row,
    spec_without_col, spec_row_has_field, spec_col_has_field, spec_cell_xy, spec_delete_row_above,
    spec_delete_row_below, spec_delete_column_left, spec_delete_column_right, spec_new,
    spec_new_ok, spec_rom_width, spec_rom_rows, spec_rom_cell, lemma_at_set_at, spec_symbol,
    spec_max_variants,
};
use crate::document::{
    spec_delete_col_cells, spec_delete_row_cells, spec_insert_col_cells, spec_insert_row_cells,
    lemma_delete_col_from, lemma_delete_col_len, lemma_insert_col_from, lemma_insert_col_len,
    lemma_insert_row_index, lemma_delete_row_index, lemma_insert_col_index, lemma_delete_col_index,
    lemma_insert_col_fill,
};

verus! {

/// A copy is applied only when the document it gives is valid; a refused
/// copy leaves the document as it was and names the destination; Rom never
/// changes.
pub proof fn lemma_copy_result(types: TypesM, d: DocumentM, dest: CellPathM, src: CellPathM)
    ensures
        spec_copy(types, d, dest, src).1 is Ok ==> spec_valid(types, spec_copy(types, d, dest, src).0),
        spec_copy(types, d, dest, src).1 is Err ==> spec_copy(types, d, dest, src).0 == d
            && spec_copy(types, d, dest, src).1 == Err::<(), CellPathM>(dest),
        spec_copy(types, d, dest, src).0.rom == d.rom,
{
}

/// After an applied copy the destination holds what the source held.
pub proof fn lemma_copy_delivers(types: TypesM, d: DocumentM, dest: CellPathM, src: CellPathM)
    requires
        spec_at(d, src) is Some,
        spec_at(d, dest) is Some,
    ensures
        spec_copy(types, d, dest, src).1 is Ok ==> spec_at(spec_copy(types, d, dest, src).0, dest)
            == spec_at(d, src),
{
    lemma_at_set_at(d, dest, spec_at(d, src)->Some_0);
}

/// After an applied move the destination holds what the source held.
pub proof fn lemma_mova_delivers(types: TypesM, d: DocumentM, src: CellPathM, dest: CellPathM)
    requires
        spec_at(d, src) is Some,
        spec_at(spec_set_at(d, src, CellM::Empty), dest) is Some,
    ensures
        spec_mova(types, d, src, dest).1 is Ok ==> spec_at(spec_mova(types, d, src, dest).0, dest)
            == spec_at(d, src),
{
    lemma_at_set_at(spec_set_at(d, src, CellM::Empty), dest, spec_at(d, src)->Some_0);
}

/// A move is applied only when the document it gives is valid; a refused
/// move leaves the document as it was and names the offending cell; Rom
/// never changes.
pub proof fn lemma_mova_result(types: TypesM, d: DocumentM, src: CellPathM, dest: CellPathM)
    ensures
        spec_mova(types, d, src, dest).1 is Ok ==> spec_valid(types, spec_mova(types, d, src, dest).0),
        spec_mova(types, d, src, dest).1 is Err ==> spec_mova(types, d, src, dest).0 == d,
        spec_mova(types, d, src, dest).1 matches Err(p) ==> (p == src || p == dest),
        spec_mova(types, d, src, dest).0.rom == d.rom,
{
}

// ===========================================================================
// Replacing a cell by one that is no worse
// ===========================================================================

/// Where a cell stands, as far as validity is concerned: what the cell
/// around it, or the document, asks of it.
pub enum Slot {
    /// A cell of an untyped tree.
    Free,
    /// The root of Ram or Rom.
    RegionRoot,
    /// The value of a field, or the Rim root with the root field.
    FieldValue(FieldDefM),
    /// A cell of a tree of values of a type.
    Element(CellValue),
    /// A value of a type.
    Typed(CellValue),
    /// A cell of the grid of a struct with these ids and fields.
    GridCell(StructValM, Seq<FieldDefM>),
    /// The grid of a struct with these ids.
    StructGrid(StructValM),
}

/// The cell is valid where it stands.
pub open spec fn spec_fits(types: TypesM, slot: Slot, c: CellM) -> bool {
    match slot {
        Slot::Free => spec_valid_free_cell(types, c),
        Slot::RegionRoot => spec_valid_region_tree(types, c),
        Slot::FieldValue(def) => spec_valid_field_value(types, c, def),
        Slot::Element(v) => spec_valid_element(types, c, v),
        Slot::Typed(v) => spec_valid_typed(types, c, v),
        Slot::GridCell(sv, fields) => spec_grid_cell_ok(types, sv, fields, c),
        Slot::StructGrid(sv) => spec_valid_struct(types, StructValM { grid: Some(Box::new(c)), ..sv }),
    }
}

/// The field id a `Field` cell carries.
pub open spec fn spec_tag(c: CellM) -> Option<usize> {
    match c {
        CellM::Field(fv) => Some(fv.field_id),
        _ => None,
    }
}

/// `b` is valid wherever `a` is, and carries the same field id.
pub open spec fn spec_no_worse(types: TypesM, a: CellM, b: CellM) -> bool {
    &&& forall|s: Slot| spec_fits(types, s, a) ==> #[trigger] spec_fits(types, s, b)
    &&& spec_tag(a) == spec_tag(b)
}

proof fn lemma_field_no_worse(types: TypesM, f: FieldValM, nv: CellM)
    requires
        spec_no_worse(types, *f.value, nv),
    ensures
        spec_no_worse(types, CellM::Field(f), CellM::Field(FieldValM { value: Box::new(nv), ..f })),
{
    let a = CellM::Field(f);
    let b = CellM::Field(FieldValM { value: Box::new(nv), ..f });
    assert forall|s: Slot| spec_fits(types, s, a) implies #[trigger] spec_fits(types, s, b) by {
        match s {
            Slot::GridCell(sv, fields) => {
                let def = fields[f.field_id as int];
                assert(spec_fits(types, Slot::FieldValue(def), *f.value));
                assert(spec_fits(types, Slot::FieldValue(def), nv));
            },
            Slot::FieldValue(def) => {
                assert(!spec_fits(types, s, a));
            },
            Slot::Element(v) => {
                assert(!spec_valid_typed(types, a, v));
                assert(!spec_fits(types, s, a));
            },
            Slot::StructGrid(sv) => {
                assert(!spec_fits(types, s, a));
            },
            _ => {},
        }
    }
}

proof fn lemma_struct_no_worse(types: TypesM, sv: StructValM, g: CellM, nv: CellM)
    requires
        sv.grid == Some(Box::new(g)),
        spec_no_worse(types, g, nv),
    ensures
        spec_no_worse(
            types,
            CellM::Struct(sv),
            CellM::Struct(StructValM { grid: Some(Box::new(nv)), ..sv }),
        ),
{
    let sv2 = StructValM { grid: Some(Box::new(nv)), ..sv };
    let a = CellM::Struct(sv);
    let b = CellM::Struct(sv2);
    assert(StructValM { grid: Some(Box::new(g)), ..sv } == sv);
    assert(spec_valid_struct(types, sv) ==> spec_valid_struct(types, sv2)) by {
        if spec_valid_struct(types, sv) {
            assert(spec_fits(types, Slot::StructGrid(sv), g));
            assert(spec_fits(types, Slot::StructGrid(sv), nv));
        }
    }
    assert forall|s: Slot| spec_fits(types, s, a) implies #[trigger] spec_fits(types, s, b) by {
        match s {
            Slot::FieldValue(def) => {
                if def.is_tree {
                    assert(!spec_fits(types, s, a));
                }
            },
            Slot::StructGrid(sv0) => {
                assert(!spec_fits(types, s, a));
            },
            Slot::Element(v) => {
                assert(spec_valid_typed(types, a, v) ==> spec_valid_typed(types, b, v));
            },
            _ => {},
        }
    }
}

proof fn lemma_tree_update_no_worse(types: TypesM, t: TreeM, k: int, nv: CellM)
    requires
        0 <= k < t.contents.len(),
        spec_no_worse(types, t.contents[k], nv),
    ensures
        spec_no_worse(
            types,
            CellM::Tree(t),
            CellM::Tree(TreeM { contents: t.contents.update(k, nv), ..t }),
        ),
{
    let t2 = TreeM { contents: t.contents.update(k, nv), ..t };
    let a = CellM::Tree(t);
    let b = CellM::Tree(t2);
    assert(spec_field_tags(t2.contents) =~= spec_field_tags(t.contents));
    assert forall|s: Slot| spec_fits(types, s, a) implies #[trigger] spec_fits(types, s, b) by {
        match s {
            Slot::Free => {
                assert forall|i: int| 0 <= i < t2.contents.len() implies spec_valid_free_cell(
                    types,
                    #[trigger] t2.contents[i],
                ) by {
                    if i == k {
                        assert(spec_fits(types, Slot::Free, t.contents[k]));
                        assert(spec_fits(types, Slot::Free, nv));
                    }
                }
            },
            Slot::RegionRoot => {
                assert forall|i: int| 0 <= i < t2.contents.len() implies spec_valid_free_cell(
                    types,
                    #[trigger] t2.contents[i],
                ) by {
                    if i == k {
                        assert(spec_fits(types, Slot::Free, t.contents[k]));
                        assert(spec_fits(types, Slot::Free, nv));
                    }
                }
            },
            Slot::FieldValue(def) => {
                if def.is_tree {
                    assert forall|i: int| 0 <= i < t2.contents.len() implies spec_valid_element(
                        types,
                        #[trigger] t2.contents[i],
                        def.value,
                    ) by {
                        if i == k {
                            assert(spec_fits(types, Slot::Element(def.value), t.contents[k]));
                            assert(spec_fits(types, Slot::Element(def.value), nv));
                        }
                    }
                } else {
                    assert(!spec_fits(types, s, a));
                }
            },
            Slot::Element(v) => {
                assert forall|i: int| 0 <= i < t2.contents.len() implies spec_valid_element(
                    types,
                    #[trigger] t2.contents[i],
                    v,
                ) by {
                    if i == k {
                        assert(spec_fits(types, Slot::Element(v), t.contents[k]));
                        assert(spec_fits(types, Slot::Element(v), nv));
                    }
                }
            },
            Slot::StructGrid(sv) => {
                let sva = StructValM { grid: Some(Box::new(a)), ..sv };
                let svb = StructValM { grid: Some(Box::new(b)), ..sv };
                let fields = types.types[sv.struct_id as int].variants[sv.variant_id as int].fields;
                assert forall|i: int| 0 <= i < t2.contents.len() implies spec_grid_cell_ok(
                    types,
                    svb,
                    fields,
                    #[trigger] t2.contents[i],
                ) by {
                    assert(spec_grid_cell_ok(types, sva, fields, t.contents[i]));
                    if i == k {
                        assert(spec_fits(types, Slot::GridCell(sva, fields), t.contents[k]));
                        assert(spec_fits(types, Slot::GridCell(sva, fields), nv));
                    }
                }
                lemma_same_tags(t.contents, t2.contents, fields.len());
            },
            _ => {},
        }
    }
}

/// Cells carrying the same field ids in the same places are tagged alike.
proof fn lemma_same_tags(a: Seq<CellM>, b: Seq<CellM>, n: nat)
    requires
        spec_field_tags(a) == spec_field_tags(b),
    ensures
        spec_tagged_once(a, n) == spec_tagged_once(b, n),
{
    assert(a.len() == spec_field_tags(a).len() && b.len() == spec_field_tags(b).len());
    assert forall|f: int| spec_tag_present(a, f) == spec_tag_present(b, f) by {
        if spec_tag_present(a, f) {
            let i = choose|i: int| 0 <= i < a.len() && #[trigger] spec_field_tags(a)[i] == Some(f as usize);
            assert(spec_field_tags(b)[i] == Some(f as usize));
        }
        if spec_tag_present(b, f) {
            let i = choose|i: int| 0 <= i < b.len() && #[trigger] spec_field_tags(b)[i] == Some(f as usize);
            assert(spec_field_tags(a)[i] == Some(f as usize));
        }
    }
}

/// Replacing the cell at `path` by one that is no worse leaves the whole
/// cell no worse.
proof fn lemma_put_no_worse(types: TypesM, c: CellM, path: Seq<PathStep>, v: CellM)
    requires
        spec_get(c, path) is Some,
        spec_no_worse(types, spec_get(c, path)->Some_0, v),
    ensures
        spec_no_worse(types, c, spec_put(c, path, v)),
    decreases path.len(),
{
    if path.len() > 0 {
        let next = spec_step(c, path[0])->Some_0;
        let rest = path.drop_first();
        lemma_put_no_worse(types, next, rest, v);
        let nv = spec_put(next, rest, v);
        match (c, path[0]) {
            (CellM::Field(f), PathStep::IntoField) => {
                lemma_field_no_worse(types, f, nv);
            },
            (CellM::Struct(sv), PathStep::IntoStruct) => {
                lemma_struct_no_worse(types, sv, next, nv);
            },
            (CellM::Tree(t), PathStep::Tree(x, y)) => {
                lemma_tree_update_no_worse(types, t, spec_tree_index(t, x, y), nv);
            },
            _ => {},
        }
    }
}

/// In a valid document, replacing the cell at `p` by one that is no worse
/// keeps the document valid.
proof fn lemma_set_at_no_worse(types: TypesM, d: DocumentM, p: CellPathM, v: CellM)
    requires
        spec_valid(types, d),
        spec_at(d, p) is Some,
        spec_no_worse(types, spec_at(d, p)->Some_0, v),
    ensures
        spec_valid(types, spec_set_at(d, p, v)),
{
    let root = spec_region(d, p.region);
    lemma_put_no_worse(types, root, p.path, v);
    let root2 = spec_put(root, p.path, v);
    match p.region {
        Region::Rim => {
            assert(spec_fits(types, Slot::FieldValue(types.rim), root));
            assert(spec_fits(types, Slot::FieldValue(types.rim), root2));
        },
        _ => {
            assert(spec_fits(types, Slot::RegionRoot, root));
            assert(spec_fits(types, Slot::RegionRoot, root2));
        },
    }
}

// ===========================================================================
// The operations that are not checked keep validity
// ===========================================================================

/// Editing a symbol keeps a valid document valid.
pub proof fn lemma_edit_symbol_keeps_valid(types: TypesM, d: DocumentM, cell: CellPathM, new: Seq<char>)
    requires
        spec_valid(types, d),
        spec_at(d, cell) matches Some(CellM::Symbol(_)),
    ensures
        spec_valid(types, spec_edit_symbol(d, cell, new)),
{
    let a = spec_at(d, cell)->Some_0;
    let b = CellM::Symbol(new);
    assert forall|s: Slot| spec_fits(types, s, a) implies #[trigger] spec_fits(types, s, b) by {
        match s {
            Slot::FieldValue(def) => {
                if def.is_tree {
                    assert(!spec_fits(types, s, a));
                }
            },
            Slot::StructGrid(sv) => {
                assert(!spec_fits(types, s, a));
            },
            Slot::Element(v) => {
                assert(spec_valid_typed(types, a, v) ==> spec_valid_typed(types, b, v));
            },
            _ => {},
        }
    }
    lemma_set_at_no_worse(types, d, cell, b);
}

// ===========================================================================
// Defaults are valid
// ===========================================================================

/// Every variant's field list is short enough to index with a `usize`, as
/// that of any schema held in memory is.
pub open spec fn spec_schema_fits(types: TypesM) -> bool {
    forall|sid: int, vid: int|
        0 <= sid < types.types.len() && 0 <= vid < types.types[sid].variants.len()
            ==> #[trigger] types.types[sid].variants[vid].fields.len() <= usize::MAX
}

/// The default of variant `vid` of struct `sid` is a valid struct of that
/// type, when the defaults below it nest finitely.
pub proof fn lemma_default_struct_valid(types: TypesM, sid: usize, vid: usize, depth: nat)
    requires
        spec_schema_fits(types),
        depth > 0,
        sid < types.types.len(),
        vid < types.types[sid as int].variants.len(),
        spec_fields_finite(
            types,
            types.types[sid as int].variants[vid as int].fields,
            (depth - 1) as nat,
        ),
    ensures
        spec_default_struct_variant(types, sid, vid, depth) matches CellM::Struct(sv) && sv.struct_id
            == sid && spec_valid_struct(types, sv),
    decreases depth, 0int,
{
    let fields = types.types[sid as int].variants[vid as int].fields;
    let cells = spec_field_cells(types, sid, vid, (depth - 1) as nat);
    let c = spec_default_struct_variant(types, sid, vid, depth);
    let sv = c->Struct_0;
    assert(fields.len() <= usize::MAX);
    assert forall|i: int| 0 <= i < cells.len() implies spec_grid_cell_ok(types, sv, fields, #[trigger] cells[i]) by {
        assert(match fields[i] {
            FieldDefM { value: CellValue::Struct(n), is_tree: false, .. } => spec_finite(
                types,
                n as int,
                (depth - 1) as nat,
            ),
            _ => true,
        });
        lemma_default_field_valid(types, fields[i], (depth - 1) as nat);
        let fv = cells[i]->Field_0;
        assert(fv.field_id == i);
        assert(*fv.value == spec_default_field(types, fields[i], (depth - 1) as nat));
    }
    if cells.len() > 0 {
        let tags = spec_field_tags(cells);
        let t = TreeM { contents: cells, width: 1, height: cells.len() as usize };
        assert(sv.grid == Some(Box::new(CellM::Tree(t))));
        assert(forall|i: int| 0 <= i < cells.len() ==> #[trigger] tags[i] == Some(i as usize));
        assert forall|f: int| 0 <= f < fields.len() implies #[trigger] spec_tag_present(cells, f) by {
            assert(tags[f] == Some(f as usize));
        }
        assert forall|i: int, j: int|
            0 <= i < j < tags.len() && #[trigger] tags[i] is Some && #[trigger] tags[j] is Some implies tags[i]
                != tags[j] by {
            assert(tags[i] == Some(i as usize));
            assert(tags[j] == Some(j as usize));
        }
        assert(spec_tagged_once(cells, fields.len()));
        assert(spec_valid_shape(t));
    }
}

/// The struct type of field `fi` of variant 0 of struct `a`, when that
/// field is a non-tree struct field: the defaults of `a` contain one of it.
pub open spec fn spec_child(types: TypesM, a: int, fi: int) -> Option<int> {
    match types.types[a].variants[0].fields[fi] {
        FieldDefM { value: CellValue::Struct(n), is_tree: false, .. } => Some(n as int),
        _ => None,
    }
}

/// Struct `b` is reached from struct `a` in `k` steps, each from a struct
/// to the struct type of a non-tree field of its variant 0.
pub open spec fn spec_reaches(types: TypesM, a: int, b: int, k: nat) -> bool
    decreases k,
{
    if k == 0 {
        a == b
    } else {
        exists|fi: int|
            #![trigger spec_child(types, a, fi)]
            0 <= fi < types.types[a].variants[0].fields.len() && spec_child(types, a, fi) is Some
                && spec_reaches(types, spec_child(types, a, fi)->Some_0, b, (k - 1) as nat)
    }
}

/// Defaults can be built: every struct has a variant, every struct field
/// names a struct of the schema, and no struct reaches itself through the
/// non-tree struct fields of variants 0.
pub open spec fn spec_defaults_acyclic(types: TypesM) -> bool {
    &&& forall|s: int| 0 <= s < types.types.len() ==> #[trigger] types.types[s].variants.len() > 0
    &&& forall|s: int, v: int, fi: int|
        0 <= s < types.types.len() && 0 <= v < types.types[s].variants.len() && 0 <= fi
            < types.types[s].variants[v].fields.len() ==> match #[trigger] types.types[s].variants[v].fields[fi].value {
            CellValue::Struct(n) => n < types.types.len(),
            _ => true,
        }
    &&& forall|s: int, k: nat| 0 <= s < types.types.len() && k > 0 ==> !#[trigger] spec_reaches(types, s, s, k)
}

/// In an acyclic schema, the defaults of a struct that reaches none of the
/// structs `visited` nest at most as deep as the structs not visited.
proof fn lemma_finite_avoiding(types: TypesM, sid: int, visited: Set<int>, depth: nat)
    requires
        spec_defaults_acyclic(types),
        0 <= sid < types.types.len(),
        visited.finite(),
        forall|v: int| #[trigger] visited.contains(v) ==> 0 <= v < types.types.len(),
        !visited.contains(sid),
        forall|v: int, k: nat| #[trigger] visited.contains(v) ==> !#[trigger] spec_reaches(types, sid, v, k),
        depth + visited.len() >= types.types.len(),
    ensures
        spec_finite(types, sid, depth),
    decreases types.types.len() - visited.len(),
{
    let n = types.types.len() as int;
    let v2 = visited.insert(sid);
    vstd::set_lib::lemma_int_range(0, n);
    assert(v2.subset_of(vstd::set_lib::set_int_range(0, n)));
    vstd::set_lib::lemma_len_subset(v2, vstd::set_lib::set_int_range(0, n));
    assert(v2.len() == visited.len() + 1);
    assert(types.types[sid].variants.len() > 0);
    let fields = types.types[sid].variants[0].fields;
    assert forall|fi: int| 0 <= fi < fields.len() implies match #[trigger] fields[fi] {
        FieldDefM { value: CellValue::Struct(m), is_tree: false, .. } => spec_finite(
            types,
            m as int,
            (depth - 1) as nat,
        ),
        _ => true,
    } by {
        if let Some(c) = spec_child(types, sid, fi) {
            assert(match types.types[sid].variants[0].fields[fi].value {
                CellValue::Struct(m) => m < n,
                _ => true,
            });
            assert forall|v: int, k: nat| #[trigger] v2.contains(v) implies !#[trigger] spec_reaches(types, c, v, k) by {
                if spec_reaches(types, c, v, k) {
                    assert(spec_reaches(types, sid, v, k + 1));
                    if v == sid {
                        assert(spec_reaches(types, sid, sid, k + 1));
                    }
                }
            }
            assert(!visited.contains(c)) by {
                if visited.contains(c) {
                    assert(spec_reaches(types, c, c, 0));
                    assert(spec_reaches(types, sid, c, 1));
                }
            }
            if c == sid {
                assert(spec_reaches(types, c, c, 0));
                assert(spec_reaches(types, sid, sid, 1));
            }
            lemma_finite_avoiding(types, c, v2, (depth - 1) as nat);
        }
    }
}

/// In an acyclic schema the default of every variant of every struct is a
/// valid struct of that type, built at the depth the library builds
/// defaults at, whose field defaults nest finitely below it.
pub proof fn lemma_acyclic_defaults_valid(types: TypesM, sid: usize, vid: usize)
    requires
        spec_defaults_acyclic(types),
        spec_schema_fits(types),
        sid < types.types.len(),
        vid < types.types[sid as int].variants.len(),
    ensures
        spec_fields_finite(
            types,
            types.types[sid as int].variants[vid as int].fields,
            (spec_depth(types) - 1) as nat,
        ),
        spec_default_struct_variant(types, sid, vid, spec_depth(types)) matches CellM::Struct(sv)
            && sv.struct_id == sid && spec_valid_struct(types, sv),
{
    let fields = types.types[sid as int].variants[vid as int].fields;
    let n = types.types.len();
    assert forall|fi: int| 0 <= fi < fields.len() implies match #[trigger] fields[fi] {
        FieldDefM { value: CellValue::Struct(m), is_tree: false, .. } => spec_finite(types, m as int, n),
        _ => true,
    } by {
        if let FieldDefM { value: CellValue::Struct(m), is_tree: false, .. } = fields[fi] {
            assert(match types.types[sid as int].variants[vid as int].fields[fi].value {
                CellValue::Struct(m) => m < n,
                _ => true,
            });
            lemma_finite_avoiding(types, m as int, Set::empty(), n);
        }
    }
    lemma_default_struct_valid(types, sid, vid, spec_depth(types));
}

/// The default of a field is a valid value for it, when the defaults below
/// it nest finitely.
pub proof fn lemma_default_field_valid(types: TypesM, fd: FieldDefM, depth: nat)
    requires
        spec_schema_fits(types),
        !fd.is_tree ==> (fd.value matches CellValue::Struct(n) ==> spec_finite(types, n as int, depth)),
    ensures
        spec_valid_field_value(types, spec_default_field(types, fd, depth), fd),
    decreases depth, 1int,
{
    if fd.is_tree {
        let t = spec_any_default()->Tree_0;
        assert(t.contents[0] is Empty);
    } else {
        match fd.value {
            CellValue::Symbol => {},
            CellValue::Struct(n) => {
                let f0 = types.types[n as int].variants[0].fields;
                assert forall|fi: int| #![trigger f0[fi]] 0 <= fi < f0.len() implies match f0[fi] {
                    FieldDefM { value: CellValue::Struct(m), is_tree: false, .. } => spec_finite(
                        types,
                        m as int,
                        (depth - 1) as nat,
                    ),
                    _ => true,
                } by {
                    assert(f0[fi] == types.types[n as int].variants[0].fields[fi]);
                }
                lemma_default_struct_valid(types, n, 0, depth);
            },
        }
    }
}

/// Choosing a variant keeps a valid document valid: the struct becomes the
/// default of the chosen variant, a valid struct of the same type.
pub proof fn lemma_edit_variant_keeps_valid(types: TypesM, d: DocumentM, cell: CellPathM, variant_to: usize)
    requires
        spec_schema_fits(types),
        spec_valid(types, d),
        spec_at(d, cell) matches Some(CellM::Struct(sv)) && {
            &&& sv.struct_id < types.types.len()
            &&& variant_to < types.types[sv.struct_id as int].variants.len()
            &&& spec_fields_finite(
                types,
                types.types[sv.struct_id as int].variants[variant_to as int].fields,
                (spec_depth(types) - 1) as nat,
            )
        },
    ensures
        spec_valid(types, spec_edit_variant(types, d, cell, variant_to)),
{
    let a = spec_at(d, cell)->Some_0;
    let sid = a->Struct_0.struct_id;
    let b = spec_default_struct_variant(types, sid, variant_to, spec_depth(types));
    lemma_default_struct_valid(types, sid, variant_to, spec_depth(types));
    assert forall|s: Slot| spec_fits(types, s, a) implies #[trigger] spec_fits(types, s, b) by {
        match s {
            Slot::FieldValue(def) => {
                if def.is_tree {
                    assert(!spec_fits(types, s, a));
                }
            },
            Slot::StructGrid(sv) => {
                assert(!spec_fits(types, s, a));
            },
            Slot::Element(v) => {
                assert(spec_valid_typed(types, a, v) ==> spec_valid_typed(types, b, v));
            },
            _ => {},
        }
    }
    lemma_set_at_no_worse(types, d, cell, b);
}

// ===========================================================================
// Field ids across reshaped grids
// ===========================================================================

/// Some place of `s` holds field id `f`.
pub open spec fn spec_present(s: Seq<Option<usize>>, f: usize) -> bool {
    exists|i: int| 0 <= i < s.len() && #[trigger] s[i] == Some(f)
}

/// No field id is held in two places of `s`.
pub open spec fn spec_unique(s: Seq<Option<usize>>) -> bool {
    forall|i: int, j: int| 0 <= i < j < s.len() && #[trigger] s[i] is Some && #[trigger] s[j] is Some ==> s[i] != s[j]
}

/// `a` and `b` hold the same field ids, and either both hold each at most
/// once or neither does.
pub open spec fn spec_tags_equiv(a: Seq<Option<usize>>, b: Seq<Option<usize>>) -> bool {
    &&& forall|f: usize|
        #![trigger spec_present(a, f)]
        #![trigger spec_present(b, f)]
        spec_present(a, f) == spec_present(b, f)
    &&& spec_unique(a) == spec_unique(b)
}

/// Places holding no field id.
pub open spec fn spec_all_none(s: Seq<Option<usize>>) -> bool {
    forall|i: int| 0 <= i < s.len() ==> #[trigger] s[i] is None
}

proof fn lemma_tagged_once_by_tags(c: Seq<CellM>, n: nat)
    ensures
        spec_tagged_once(c, n) == ((forall|f: int| 0 <= f < n ==> #[trigger] spec_present(spec_field_tags(c), f as usize))
            && spec_unique(spec_field_tags(c))),
{
    let tags = spec_field_tags(c);
    assert(tags.len() == c.len());
    assert forall|f: int| #[trigger] spec_present(tags, f as usize) == spec_tag_present(c, f) by {
        if spec_present(tags, f as usize) {
            let i = choose|i: int| 0 <= i < tags.len() && #[trigger] tags[i] == Some(f as usize);
            assert(spec_field_tags(c)[i] == Some(f as usize));
        }
        if spec_tag_present(c, f) {
            let i = choose|i: int| 0 <= i < c.len() && #[trigger] spec_field_tags(c)[i] == Some(f as usize);
            assert(tags[i] == Some(f as usize));
        }
    }
    if spec_tagged_once(c, n) {
        assert forall|f: int| 0 <= f < n implies #[trigger] spec_present(tags, f as usize) by {
            assert(spec_tag_present(c, f));
        }
    }
    if (forall|f: int| 0 <= f < n ==> #[trigger] spec_present(tags, f as usize)) && spec_unique(tags) {
        assert forall|f: int| 0 <= f < n implies #[trigger] spec_tag_present(c, f) by {
            assert(spec_present(tags, f as usize));
        }
    }
}

proof fn lemma_concat_present(a: Seq<Option<usize>>, b: Seq<Option<usize>>, f: usize)
    ensures
        spec_present(a + b, f) == (spec_present(a, f) || spec_present(b, f)),
{
    let s = a + b;
    if spec_present(a, f) {
        let i = choose|i: int| 0 <= i < a.len() && #[trigger] a[i] == Some(f);
        assert(s[i] == Some(f));
    }
    if spec_present(b, f) {
        let i = choose|i: int| 0 <= i < b.len() && #[trigger] b[i] == Some(f);
        assert(s[a.len() + i] == Some(f));
    }
    if spec_present(s, f) {
        let i = choose|i: int| 0 <= i < s.len() && #[trigger] s[i] == Some(f);
        if i < a.len() {
            assert(a[i] == Some(f));
        } else {
            assert(b[i - a.len()] == Some(f));
        }
    }
}

proof fn lemma_concat_unique(a: Seq<Option<usize>>, b: Seq<Option<usize>>)
    ensures
        spec_unique(a + b) == (spec_unique(a) && spec_unique(b) && forall|f: usize|
            !(#[trigger] spec_present(a, f) && spec_present(b, f))),
{
    let s = a + b;
    let n = a.len();
    if spec_unique(s) {
        assert forall|i: int, j: int| 0 <= i < j < a.len() && #[trigger] a[i] is Some && #[trigger] a[j] is Some implies a[i]
            != a[j] by {
            assert(s[i] == a[i] && s[j] == a[j]);
        }
        assert forall|i: int, j: int| 0 <= i < j < b.len() && #[trigger] b[i] is Some && #[trigger] b[j] is Some implies b[i]
            != b[j] by {
            assert(s[n + i] == b[i] && s[n + j] == b[j]);
        }
        assert forall|f: usize| !(#[trigger] spec_present(a, f) && spec_present(b, f)) by {
            if spec_present(a, f) && spec_present(b, f) {
                let i = choose|i: int| 0 <= i < a.len() && #[trigger] a[i] == Some(f);
                let j = choose|j: int| 0 <= j < b.len() && #[trigger] b[j] == Some(f);
                assert(s[i] == Some(f) && s[n + j] == Some(f));
            }
        }
    }
    if spec_unique(a) && spec_unique(b) && forall|f: usize| !(#[trigger] spec_present(a, f) && spec_present(b, f)) {
        assert forall|i: int, j: int| 0 <= i < j < s.len() && #[trigger] s[i] is Some && #[trigger] s[j] is Some implies s[i]
            != s[j] by {
            if i < n && j < n {
                assert(a[i] == s[i] && a[j] == s[j]);
            } else if i >= n && j >= n {
                assert(b[i - n] == s[i] && b[j - n] == s[j]);
            } else if s[i] == s[j] {
                let f = s[i]->Some_0;
                assert(a[i] == Some(f));
                assert(b[j - n] == Some(f));
                assert(spec_present(a, f) && spec_present(b, f));
            }
        }
    }
}

proof fn lemma_equiv_concat(a: Seq<Option<usize>>, a2: Seq<Option<usize>>, b: Seq<Option<usize>>, b2: Seq<Option<usize>>)
    requires
        spec_tags_equiv(a, a2),
        spec_tags_equiv(b, b2),
    ensures
        spec_tags_equiv(a + b, a2 + b2),
{
    lemma_concat_unique(a, b);
    lemma_concat_unique(a2, b2);
    assert forall|f: usize| #[trigger] spec_present(a + b, f) == spec_present(a2 + b2, f) by {
        lemma_concat_present(a, b, f);
        lemma_concat_present(a2, b2, f);
        assert(spec_present(a, f) == spec_present(a2, f));
        assert(spec_present(b, f) == spec_present(b2, f));
    }
    if forall|f: usize| !(#[trigger] spec_present(a, f) && spec_present(b, f)) {
        assert forall|f: usize| !(#[trigger] spec_present(a2, f) && spec_present(b2, f)) by {
            assert(!(spec_present(a, f) && spec_present(b, f)));
        }
    }
    if forall|f: usize| !(#[trigger] spec_present(a2, f) && spec_present(b2, f)) {
        assert forall|f: usize| !(#[trigger] spec_present(a, f) && spec_present(b, f)) by {
            assert(!(spec_present(a2, f) && spec_present(b2, f)));
        }
    }
}

proof fn lemma_equiv_trans(a: Seq<Option<usize>>, b: Seq<Option<usize>>, c: Seq<Option<usize>>)
    requires
        spec_tags_equiv(a, b),
        spec_tags_equiv(b, c),
    ensures
        spec_tags_equiv(a, c),
{
    assert forall|f: usize| #[trigger] spec_present(a, f) == spec_present(c, f) by {
        assert(spec_present(a, f) == spec_present(b, f));
        assert(spec_present(b, f) == spec_present(c, f));
    }
}

proof fn lemma_equiv_refl(a: Seq<Option<usize>>)
    ensures
        spec_tags_equiv(a, a),
{
}

/// Places holding no field id can be dropped.
proof fn lemma_drop_none(a: Seq<Option<usize>>, n: Seq<Option<usize>>, b: Seq<Option<usize>>)
    requires
        spec_all_none(n),
    ensures
        spec_tags_equiv(a + n + b, a + b),
{
    assert forall|f: usize| !#[trigger] spec_present(n, f) by {}
    lemma_concat_unique(a, n);
    lemma_concat_unique(a + n, b);
    lemma_concat_unique(a, b);
    assert forall|f: usize| #[trigger] spec_present(a + n + b, f) == spec_present(a + b, f) by {
        lemma_concat_present(a, n, f);
        lemma_concat_present(a + n, b, f);
        lemma_concat_present(a, b, f);
    }
    if forall|f: usize| !(#[trigger] spec_present(a + n, f) && spec_present(b, f)) {
        assert forall|f: usize| !(#[trigger] spec_present(a, f) && spec_present(b, f)) by {
            lemma_concat_present(a, n, f);
            assert(!(spec_present(a + n, f) && spec_present(b, f)));
        }
    }
    if forall|f: usize| !(#[trigger] spec_present(a, f) && spec_present(b, f)) {
        assert forall|f: usize| !(#[trigger] spec_present(a + n, f) && spec_present(b, f)) by {
            lemma_concat_present(a, n, f);
            assert(!(spec_present(a, f) && spec_present(b, f)));
        }
    }
    if forall|f: usize| !(#[trigger] spec_present(a, f) && spec_present(n, f)) {
    } else {
        let f = choose|f: usize| !!(#[trigger] spec_present(a, f) && spec_present(n, f));
        assert(!spec_present(n, f));
    }
}

/// Inserting a column of empty cells keeps the field ids.
proof fn lemma_insert_col_tags(cells: Seq<CellM>, w: int, at: int, h: nat)
    requires
        0 <= at <= w,
        cells.len() == w * h,
    ensures
        spec_tags_equiv(
            spec_field_tags(cells),
            spec_field_tags(spec_insert_col_cells(cells, w, at, h, CellM::Empty)),
        ),
    decreases h,
{
    if h == 0 {
        assert(cells.len() == 0) by (nonlinear_arith)
            requires
                cells.len() == w * h,
                h == 0,
        ;
        assert(spec_field_tags(cells) =~= spec_field_tags(spec_insert_col_cells(cells, w, at, h, CellM::Empty)));
    } else {
        assert(w * h == w * (h - 1) + w) by (nonlinear_arith);
        assert(w * (h - 1) >= 0) by (nonlinear_arith)
            requires
                w >= 0,
                h >= 1,
        ;
        let rest = cells.skip(w);
        lemma_insert_col_tags(rest, w, at, (h - 1) as nat);
        let rec = spec_insert_col_cells(rest, w, at, (h - 1) as nat, CellM::Empty);
        let t1 = spec_field_tags(cells.take(at));
        let nn = spec_field_tags(seq![CellM::Empty]);
        let t2 = spec_field_tags(cells.subrange(at, w));
        let r = spec_field_tags(rest);
        let r2 = spec_field_tags(rec);
        assert(spec_field_tags(spec_insert_col_cells(cells, w, at, h, CellM::Empty)) =~= (t1 + nn) + (t2 + r2));
        assert(spec_field_tags(cells) =~= t1 + (t2 + r));
        lemma_drop_none(t1, nn, t2 + r2);
        lemma_equiv_refl(t1);
        lemma_equiv_refl(t2);
        lemma_equiv_concat(t2, t2, r, r2);
        lemma_equiv_concat(t1, t1, t2 + r, t2 + r2);
        lemma_equiv_trans(t1 + (t2 + r), t1 + (t2 + r2), t1 + nn + (t2 + r2));
    }
}

/// Removing a column holding no field cell keeps the field ids.
proof fn lemma_delete_col_tags(cells: Seq<CellM>, w: int, col: int, h: nat)
    requires
        0 <= col < w,
        cells.len() == w * h,
        forall|y: int| 0 <= y < h ==> !(#[trigger] cells[w * y + col] is Field),
    ensures
        spec_tags_equiv(
            spec_field_tags(cells),
            spec_field_tags(spec_delete_col_cells(cells, w, col, h)),
        ),
    decreases h,
{
    if h == 0 {
        assert(cells.len() == 0) by (nonlinear_arith)
            requires
                cells.len() == w * h,
                h == 0,
        ;
        assert(spec_field_tags(cells) =~= spec_field_tags(spec_delete_col_cells(cells, w, col, h)));
    } else {
        assert(w * h == w * (h - 1) + w) by (nonlinear_arith);
        assert(w * (h - 1) >= 0) by (nonlinear_arith)
            requires
                w >= 0,
                h >= 1,
        ;
        let rest = cells.skip(w);
        assert forall|y: int| 0 <= y < h - 1 implies !(#[trigger] rest[w * y + col] is Field) by {
            assert(w * (y + 1) == w * y + w) by (nonlinear_arith);
            assert(0 <= w * y) by (nonlinear_arith)
                requires
                    w >= 0,
                    y >= 0,
            ;
            assert(w * (y + 1) <= w * (h - 1)) by (nonlinear_arith)
                requires
                    w >= 0,
                    y + 1 <= h - 1,
            ;
            assert(rest[w * y + col] == cells[w * (y + 1) + col]);
        }
        lemma_delete_col_tags(rest, w, col, (h - 1) as nat);
        let rec = spec_delete_col_cells(rest, w, col, (h - 1) as nat);
        let t1 = spec_field_tags(cells.take(col));
        let nn = spec_field_tags(cells.subrange(col, col + 1));
        let t2 = spec_field_tags(cells.subrange(col + 1, w));
        let r = spec_field_tags(rest);
        let r2 = spec_field_tags(rec);
        assert(w * 0 == 0);
        assert(!(cells[w * 0 + col] is Field));
        assert(spec_all_none(nn));
        assert(spec_field_tags(spec_delete_col_cells(cells, w, col, h)) =~= t1 + (t2 + r2));
        assert(spec_field_tags(cells) =~= t1 + nn + (t2 + r));
        lemma_drop_none(t1, nn, t2 + r);
        lemma_equiv_refl(t1);
        lemma_equiv_refl(t2);
        lemma_equiv_concat(t2, t2, r, r2);
        lemma_equiv_concat(t1, t1, t2 + r, t2 + r2);
        lemma_equiv_trans(t1 + nn + (t2 + r), t1 + (t2 + r), t1 + (t2 + r2));
    }
}

/// Inserting a row of empty cells keeps the field ids.
proof fn lemma_insert_row_tags(cells: Seq<CellM>, w: int, at: int)
    requires
        0 <= at * w <= cells.len(),
        w >= 0,
    ensures
        spec_tags_equiv(
            spec_field_tags(cells),
            spec_field_tags(spec_insert_row_cells(cells, w, at, CellM::Empty)),
        ),
{
    let a = at * w;
    let t1 = spec_field_tags(cells.take(a));
    let nn = spec_field_tags(Seq::new(w as nat, |i: int| CellM::Empty));
    let t2 = spec_field_tags(cells.skip(a));
    assert(spec_field_tags(spec_insert_row_cells(cells, w, at, CellM::Empty)) =~= t1 + nn + t2);
    assert(spec_field_tags(cells) =~= t1 + t2);
    lemma_drop_none(t1, nn, t2);
}

/// Removing a row holding no field cell keeps the field ids.
proof fn lemma_delete_row_tags(cells: Seq<CellM>, w: int, row: int)
    requires
        0 <= row * w,
        row * w + w <= cells.len(),
        w >= 0,
        forall|x: int| 0 <= x < w ==> !(#[trigger] cells[row * w + x] is Field),
    ensures
        spec_tags_equiv(
            spec_field_tags(cells),
            spec_field_tags(spec_delete_row_cells(cells, w, row)),
        ),
{
    let a = row * w;
    let t1 = spec_field_tags(cells.take(a));
    let nn = spec_field_tags(cells.subrange(a, a + w));
    let t2 = spec_field_tags(cells.skip(a + w));
    assert forall|i: int| 0 <= i < nn.len() implies #[trigger] nn[i] is None by {
        assert(!(cells[row * w + i] is Field));
    }
    assert(spec_field_tags(spec_delete_row_cells(cells, w, row)) =~= t1 + t2);
    assert(spec_field_tags(cells) =~= t1 + nn + t2);
    lemma_drop_none(t1, nn, t2);
}

// ===========================================================================
// The breadth operations keep validity
// ===========================================================================

/// Every cell of `t2` is empty or a cell of `t`.
pub open spec fn spec_cells_from(t: TreeM, t2: TreeM) -> bool {
    forall|k: int|
        0 <= k < t2.contents.len() ==> (#[trigger] t2.contents[k] is Empty || exists|j: int|
            0 <= j < t.contents.len() && t.contents[j] == t2.contents[k])
}

/// A well-shaped tree rebuilt from empty cells and its own cells, keeping
/// its field ids, is no worse than it was.
proof fn lemma_rebuilt_no_worse(types: TypesM, t: TreeM, t2: TreeM)
    requires
        spec_valid_shape(t) ==> (spec_valid_shape(t2) && spec_cells_from(t, t2) && spec_tags_equiv(
            spec_field_tags(t.contents),
            spec_field_tags(t2.contents),
        )),
    ensures
        spec_no_worse(types, CellM::Tree(t), CellM::Tree(t2)),
{
    let a = CellM::Tree(t);
    let b = CellM::Tree(t2);
    assert forall|s: Slot| spec_fits(types, s, a) implies #[trigger] spec_fits(types, s, b) by {
        match s {
            Slot::Free => {
                assert forall|k: int| 0 <= k < t2.contents.len() implies spec_valid_free_cell(
                    types,
                    #[trigger] t2.contents[k],
                ) by {
                    if !(t2.contents[k] is Empty) {
                        let j = choose|j: int| 0 <= j < t.contents.len() && t.contents[j] == t2.contents[k];
                        assert(spec_valid_free_cell(types, t.contents[j]));
                    }
                }
            },
            Slot::RegionRoot => {
                assert forall|k: int| 0 <= k < t2.contents.len() implies spec_valid_free_cell(
                    types,
                    #[trigger] t2.contents[k],
                ) by {
                    if !(t2.contents[k] is Empty) {
                        let j = choose|j: int| 0 <= j < t.contents.len() && t.contents[j] == t2.contents[k];
                        assert(spec_valid_free_cell(types, t.contents[j]));
                    }
                }
            },
            Slot::FieldValue(def) => {
                if def.is_tree {
                    assert forall|k: int| 0 <= k < t2.contents.len() implies spec_valid_element(
                        types,
                        #[trigger] t2.contents[k],
                        def.value,
                    ) by {
                        if !(t2.contents[k] is Empty) {
                            let j = choose|j: int| 0 <= j < t.contents.len() && t.contents[j] == t2.contents[k];
                            assert(spec_valid_element(types, t.contents[j], def.value));
                        }
                    }
                } else {
                    assert(!spec_fits(types, s, a));
                }
            },
            Slot::Element(v) => {
                assert forall|k: int| 0 <= k < t2.contents.len() implies spec_valid_element(
                    types,
                    #[trigger] t2.contents[k],
                    v,
                ) by {
                    if !(t2.contents[k] is Empty) {
                        let j = choose|j: int| 0 <= j < t.contents.len() && t.contents[j] == t2.contents[k];
                        assert(spec_valid_element(types, t.contents[j], v));
                    }
                }
            },
            Slot::StructGrid(sv) => {
                let sva = StructValM { grid: Some(Box::new(a)), ..sv };
                let svb = StructValM { grid: Some(Box::new(b)), ..sv };
                let fields = types.types[sv.struct_id as int].variants[sv.variant_id as int].fields;
                assert forall|k: int| 0 <= k < t2.contents.len() implies spec_grid_cell_ok(
                    types,
                    svb,
                    fields,
                    #[trigger] t2.contents[k],
                ) by {
                    if !(t2.contents[k] is Empty) {
                        let j = choose|j: int| 0 <= j < t.contents.len() && t.contents[j] == t2.contents[k];
                        assert(spec_grid_cell_ok(types, sva, fields, t.contents[j]));
                    }
                }
                let ta = spec_field_tags(t.contents);
                let tb = spec_field_tags(t2.contents);
                lemma_tagged_once_by_tags(t.contents, fields.len());
                lemma_tagged_once_by_tags(t2.contents, fields.len());
                assert forall|f: int| 0 <= f < fields.len() implies #[trigger] spec_present(tb, f as usize) by {
                    assert(spec_present(ta, f as usize));
                }
            },
            _ => {},
        }
    }
}

/// A breadth operation that rebuilds the tree around `cell` keeps a valid
/// document valid when the rebuilt tree is no worse.
proof fn lemma_with_tree_valid(types: TypesM, d: DocumentM, cell: CellPathM, t: TreeM, t2: TreeM)
    requires
        spec_valid(types, d),
        spec_breadth_target(d, cell) == Some(t),
        spec_no_worse(types, CellM::Tree(t), CellM::Tree(t2)),
    ensures
        spec_valid(types, spec_with_tree(d, cell, t2)),
{
    lemma_set_at_no_worse(types, d, spec_parent(cell), CellM::Tree(t2));
}

/// Adding a row keeps a valid document valid.
pub proof fn lemma_add_row_keeps_valid(types: TypesM, d: DocumentM, cell: CellPathM, is_down: bool)
    requires
        spec_valid(types, d),
        spec_breadth_ok(
            d,
            cell,
            (|t: TreeM|
                spec_last_xy(cell).1 + (if is_down {
                    1int
                } else {
                    0int
                }) <= t.height && t.height < usize::MAX),
        ),
    ensures
        spec_valid(types, spec_add_row(d, cell, is_down)),
{
    if let Some(t) = spec_breadth_target(d, cell) {
        let at = spec_last_xy(cell).1 + if is_down {
            1int
        } else {
            0int
        };
        let w = t.width as int;
        let cells2 = spec_insert_row_cells(t.contents, w, at, CellM::Empty);
        let t2 = TreeM { contents: cells2, width: t.width, height: (t.height + 1) as usize };
        assert(0 <= at * w <= t.contents.len()) by (nonlinear_arith)
            requires
                0 <= at <= t.height,
                w >= 0,
                t.contents.len() == w * t.height,
        ;
        assert(w * (t.height + 1) == w * t.height + w) by (nonlinear_arith);
        assert(cells2.len() == t.contents.len() + w);
        assert forall|k: int| 0 <= k < cells2.len() implies (#[trigger] cells2[k] is Empty || exists|j: int|
            0 <= j < t.contents.len() && t.contents[j] == cells2[k]) by {
            if k < at * w {
                assert(cells2[k] == t.contents[k]);
            } else if k >= at * w + w {
                assert(cells2[k] == t.contents[k - w]);
            }
        }
        lemma_insert_row_tags(t.contents, w, at);
        lemma_rebuilt_no_worse(types, t, t2);
        lemma_with_tree_valid(types, d, cell, t, t2);
    }
}

/// Adding a column keeps a valid document valid.
pub proof fn lemma_add_column_keeps_valid(types: TypesM, d: DocumentM, cell: CellPathM, is_right: bool)
    requires
        spec_valid(types, d),
        spec_breadth_ok(
            d,
            cell,
            (|t: TreeM|
                spec_last_xy(cell).0 + (if is_right {
                    1int
                } else {
                    0int
                }) <= t.width && t.width < usize::MAX),
        ),
    ensures
        spec_valid(types, spec_add_column(d, cell, is_right)),
{
    if let Some(t) = spec_breadth_target(d, cell) {
        let at = spec_last_xy(cell).0 + if is_right {
            1int
        } else {
            0int
        };
        let w = t.width as int;
        let h = t.height as nat;
        let cells2 = spec_insert_col_cells(t.contents, w, at, h, CellM::Empty);
        let t2 = TreeM { contents: cells2, width: (t.width + 1) as usize, height: t.height };
        lemma_insert_col_len(t.contents, w, at, h, CellM::Empty);
        assert forall|k: int| 0 <= k < cells2.len() implies (#[trigger] cells2[k] is Empty || exists|j: int|
            0 <= j < t.contents.len() && t.contents[j] == cells2[k]) by {
            lemma_insert_col_from(t.contents, w, at, h, CellM::Empty, k);
        }
        lemma_insert_col_tags(t.contents, w, at, h);
        lemma_rebuilt_no_worse(types, t, t2);
        lemma_with_tree_valid(types, d, cell, t, t2);
    }
}

proof fn lemma_without_row_valid(types: TypesM, d: DocumentM, cell: CellPathM, t: TreeM, r: int)
    requires
        spec_valid(types, d),
        spec_breadth_target(d, cell) == Some(t),
        spec_valid_shape(t),
        0 <= r < t.height,
    ensures
        spec_valid(types, spec_without_row(d, cell, t, r)),
{
    if !spec_row_has_field(t, r) {
        let w = t.width as int;
        let cells2 = spec_delete_row_cells(t.contents, w, r);
        let t2 = TreeM { contents: cells2, width: t.width, height: (t.height - 1) as usize };
        assert(0 <= r * w && r * w + w <= t.contents.len()) by (nonlinear_arith)
            requires
                0 <= r < t.height,
                w >= 0,
                t.contents.len() == w * t.height,
        ;
        assert(w * (t.height - 1) == w * t.height - w) by (nonlinear_arith);
        assert(cells2.len() == t.contents.len() - w);
        assert forall|k: int| 0 <= k < cells2.len() implies (#[trigger] cells2[k] is Empty || exists|j: int|
            0 <= j < t.contents.len() && t.contents[j] == cells2[k]) by {
            if k < r * w {
                assert(cells2[k] == t.contents[k]);
            } else {
                assert(cells2[k] == t.contents[k + w]);
            }
        }
        assert forall|x: int| 0 <= x < w implies !(#[trigger] t.contents[r * w + x] is Field) by {
            assert(w * r == r * w) by (nonlinear_arith);
            assert(!(spec_cell_xy(t.contents, w, x, r) is Field));
        }
        lemma_delete_row_tags(t.contents, w, r);
        lemma_rebuilt_no_worse(types, t, t2);
        lemma_with_tree_valid(types, d, cell, t, t2);
    }
}

proof fn lemma_without_col_valid(types: TypesM, d: DocumentM, cell: CellPathM, t: TreeM, c: int)
    requires
        spec_valid(types, d),
        spec_breadth_target(d, cell) == Some(t),
        spec_valid_shape(t),
        0 <= c < t.width,
    ensures
        spec_valid(types, spec_without_col(d, cell, t, c)),
{
    if !spec_col_has_field(t, c) {
        let w = t.width as int;
        let h = t.height as nat;
        let cells2 = spec_delete_col_cells(t.contents, w, c, h);
        let t2 = TreeM { contents: cells2, width: (t.width - 1) as usize, height: t.height };
        lemma_delete_col_len(t.contents, w, c, h);
        assert forall|k: int| 0 <= k < cells2.len() implies (#[trigger] cells2[k] is Empty || exists|j: int|
            0 <= j < t.contents.len() && t.contents[j] == cells2[k]) by {
            lemma_delete_col_from(t.contents, w, c, h, k);
        }
        assert forall|y: int| 0 <= y < h implies !(#[trigger] t.contents[w * y + c] is Field) by {
            assert(!(spec_cell_xy(t.contents, w, c, y) is Field));
        }
        lemma_delete_col_tags(t.contents, w, c, h);
        lemma_rebuilt_no_worse(types, t, t2);
        lemma_with_tree_valid(types, d, cell, t, t2);
    }
}

/// Deleting the row above keeps a valid document valid.
pub proof fn lemma_delete_row_above_keeps_valid(types: TypesM, d: DocumentM, cell: CellPathM)
    requires
        spec_valid(types, d),
        spec_last_xy(cell).1 > 0 ==> spec_breadth_ok(
            d,
            cell,
            (|t: TreeM| spec_last_xy(cell).1 <= t.height),
        ),
    ensures
        spec_valid(types, spec_delete_row_above(d, cell)),
{
    let y = spec_last_xy(cell).1;
    if y > 0 {
        if let Some(t) = spec_breadth_target(d, cell) {
            lemma_without_row_valid(types, d, cell, t, y - 1);
        }
    }
}

/// Deleting the row below keeps a valid document valid.
pub proof fn lemma_delete_row_below_keeps_valid(types: TypesM, d: DocumentM, cell: CellPathM)
    requires
        spec_valid(types, d),
        spec_breadth_ok(d, cell, (|t: TreeM| spec_last_xy(cell).1 < t.height)),
    ensures
        spec_valid(types, spec_delete_row_below(d, cell)),
{
    let y = spec_last_xy(cell).1;
    if let Some(t) = spec_breadth_target(d, cell) {
        if y != t.height - 1 {
            lemma_without_row_valid(types, d, cell, t, y + 1);
        }
    }
}

/// Deleting the column to the left keeps a valid document valid.
pub proof fn lemma_delete_column_left_keeps_valid(types: TypesM, d: DocumentM, cell: CellPathM)
    requires
        spec_valid(types, d),
        spec_last_xy(cell).0 > 0 ==> spec_breadth_ok(
            d,
            cell,
            (|t: TreeM| spec_last_xy(cell).0 <= t.width),
        ),
    ensures
        spec_valid(types, spec_delete_column_left(d, cell)),
{
    let x = spec_last_xy(cell).0;
    if x > 0 {
        if let Some(t) = spec_breadth_target(d, cell) {
            lemma_without_col_valid(types, d, cell, t, x - 1);
        }
    }
}

/// Deleting the column to the right keeps a valid document valid.
pub proof fn lemma_delete_column_right_keeps_valid(types: TypesM, d: DocumentM, cell: CellPathM)
    requires
        spec_valid(types, d),
        spec_breadth_ok(d, cell, (|t: TreeM| spec_last_xy(cell).0 < t.width)),
    ensures
        spec_valid(types, spec_delete_column_right(d, cell)),
{
    let x = spec_last_xy(cell).0;
    if let Some(t) = spec_breadth_target(d, cell) {
        if x != t.width - 1 {
            lemma_without_col_valid(types, d, cell, t, x + 1);
        }
    }
}

// ===========================================================================
// A new document
// ===========================================================================

/// Every cell of the palette is a valid cell of an untyped tree.
proof fn lemma_rom_cell_free(types: TypesM, row: int, col: int)
    requires
        spec_new_ok(types),
        spec_schema_fits(types),
        0 <= row < types.types.len() + 2,
        0 <= col < spec_rom_width(types),
    ensures
        spec_valid_free_cell(types, spec_rom_cell(types, row, col)),
{
    let n = types.types.len();
    assert(spec_rom_width(types) * (n + 2) <= usize::MAX);
    assert(spec_rom_width(types) <= usize::MAX && n + 2 <= usize::MAX) by (nonlinear_arith)
        requires
            spec_rom_width(types) * (n + 2) <= usize::MAX,
            spec_rom_width(types) >= 1,
            n + 2 >= 1,
    ;
    if row < n {
        if col < types.types[row].variants.len() {
            assert(types.types[row].variants[col] == types.types[row].variants[col]);
            lemma_default_struct_valid(types, row as usize, col as usize, spec_depth(types));
        }
    } else if col == 0 && row == n {
        let t = spec_any_default()->Tree_0;
        assert(spec_valid_free_cell(types, CellM::Empty));
        assert(forall|i: int| 0 <= i < t.contents.len() ==> #[trigger] t.contents[i] == CellM::Empty);
    }
}

/// The first `k` rows of the palette: `width * k` valid untyped cells.
proof fn lemma_rom_rows_free(types: TypesM, k: nat)
    requires
        spec_new_ok(types),
        spec_schema_fits(types),
        k <= types.types.len() + 2,
    ensures
        spec_rom_rows(types, spec_rom_width(types), k).len() == spec_rom_width(types) * k,
        forall|i: int|
            0 <= i < spec_rom_rows(types, spec_rom_width(types), k).len() ==> spec_valid_free_cell(
                types,
                #[trigger] spec_rom_rows(types, spec_rom_width(types), k)[i],
            ),
    decreases k,
{
    let w = spec_rom_width(types);
    if k > 0 {
        lemma_rom_rows_free(types, (k - 1) as nat);
        let prev = spec_rom_rows(types, w, (k - 1) as nat);
        let row = Seq::new(w, |c: int| spec_rom_cell(types, k - 1, c));
        assert(spec_rom_rows(types, w, k) == prev + row);
        assert(w * k == w * (k - 1) + w) by (nonlinear_arith);
        assert forall|i: int| 0 <= i < (prev + row).len() implies spec_valid_free_cell(
            types,
            #[trigger] (prev + row)[i],
        ) by {
            if i >= prev.len() {
                lemma_rom_cell_free(types, k - 1, i - prev.len());
            }
        }
    }
}

/// A new document is valid.
pub proof fn lemma_new_valid(types: TypesM)
    requires
        spec_new_ok(types),
        spec_schema_fits(types),
    ensures
        spec_valid(types, spec_new(types)),
{
    let d = spec_new(types);
    lemma_default_field_valid(types, types.rim, spec_depth(types));
    let ram = spec_any_default()->Tree_0;
    assert(ram.contents[0] is Empty);
    let n = types.types.len();
    let w = spec_rom_width(types);
    let h = (n + 2) as nat;
    lemma_rom_rows_free(types, h);
    assert(w <= usize::MAX && h <= usize::MAX) by (nonlinear_arith)
        requires
            w * h <= usize::MAX,
            w >= 1,
            h >= 1,
    ;
    let rom = d.rom->Tree_0;
    assert(rom.contents.len() == rom.width * rom.height);
}

// ===========================================================================
// Rom
// ===========================================================================

/// The editing operations at a cell outside Rom leave Rom as it was.
pub proof fn lemma_edits_outside_rom_keep_rom(
    types: TypesM,
    d: DocumentM,
    cell: CellPathM,
    new: Seq<char>,
    variant_to: usize,
    flag: bool,
)
    requires
        cell.region != Region::Rom,
    ensures
        spec_edit_symbol(d, cell, new).rom == d.rom,
        spec_edit_variant(types, d, cell, variant_to).rom == d.rom,
        spec_add_row(d, cell, flag).rom == d.rom,
        spec_add_column(d, cell, flag).rom == d.rom,
        spec_delete_row_above(d, cell).rom == d.rom,
        spec_delete_row_below(d, cell).rom == d.rom,
        spec_delete_column_left(d, cell).rom == d.rom,
        spec_delete_column_right(d, cell).rom == d.rom,
{
}

// ===========================================================================
// Grids keep a cell
// ===========================================================================

/// A cell deletes only a neighbouring row or column, never its own, so the
/// grid around an existing cell keeps at least one row and one column.
pub proof fn lemma_deletes_keep_a_cell(d: DocumentM, cell: CellPathM)
    requires
        spec_breadth_target(d, cell) matches Some(t) && {
            &&& t.width >= 1
            &&& t.height >= 1
            &&& spec_last_xy(cell).0 < t.width
            &&& spec_last_xy(cell).1 < t.height
        },
    ensures
        spec_breadth_target(spec_delete_row_above(d, cell), cell) matches Some(t2) && t2.width >= 1
            && t2.height >= 1,
        spec_breadth_target(spec_delete_row_below(d, cell), cell) matches Some(t2) && t2.width >= 1
            && t2.height >= 1,
        spec_breadth_target(spec_delete_column_left(d, cell), cell) matches Some(t2) && t2.width >= 1
            && t2.height >= 1,
        spec_breadth_target(spec_delete_column_right(d, cell), cell) matches Some(t2) && t2.width >= 1
            && t2.height >= 1,
{
    let t = spec_breadth_target(d, cell)->Some_0;
    let p = spec_parent(cell);
    let (x, y) = spec_last_xy(cell);
    let w = t.width as int;
    let h = t.height as nat;
    if y > 0 {
        lemma_at_set_at(
            d,
            p,
            CellM::Tree(
                TreeM { contents: spec_delete_row_cells(t.contents, w, y - 1), width: t.width, height: (t.height - 1) as usize },
            ),
        );
    }
    if y != t.height - 1 {
        lemma_at_set_at(
            d,
            p,
            CellM::Tree(
                TreeM { contents: spec_delete_row_cells(t.contents, w, y + 1), width: t.width, height: (t.height - 1) as usize },
            ),
        );
    }
    if x > 0 {
        lemma_at_set_at(
            d,
            p,
            CellM::Tree(
                TreeM {
                    contents: spec_delete_col_cells(t.contents, w, x - 1, h),
                    width: (t.width - 1) as usize,
                    height: t.height,
                },
            ),
        );
    }
    if x != t.width - 1 {
        lemma_at_set_at(
            d,
            p,
            CellM::Tree(
                TreeM {
                    contents: spec_delete_col_cells(t.contents, w, x + 1, h),
                    width: (t.width - 1) as usize,
                    height: t.height,
                },
            ),
        );
    }
}


// ===========================================================================
// Where the breadth operations put each cell
// ===========================================================================

/// Replacing the tree around `cell` makes the new tree the one around it.
proof fn lemma_target_after(d: DocumentM, cell: CellPathM, t2: TreeM)
    requires
        spec_breadth_target(d, cell) is Some,
    ensures
        spec_breadth_target(spec_with_tree(d, cell, t2), cell) == Some(t2),
{
    super::lemma_at_set_at(d, spec_parent(cell), CellM::Tree(t2));
}

/// Adding a row next to the cell at `cell` in a well-shaped tree, above the
/// cell's row or, when `is_down`, below it: the tree grows by one row. The
/// rows before the new row are the old rows, the new row is empty, and the
/// rows after it are the old rows moved down by one. Nothing else in the
/// document changes.
pub proof fn lemma_add_row_places(d: DocumentM, cell: CellPathM, is_down: bool)
    requires
        spec_breadth_target(d, cell) matches Some(t) && {
            &&& spec_valid_shape(t)
            &&& spec_last_xy(cell).1 + (if is_down {
                1int
            } else {
                0int
            }) <= t.height
            &&& t.height < usize::MAX
        },
    ensures
        ({
            let t = spec_breadth_target(d, cell)->Some_0;
            let at = spec_last_xy(cell).1 + if is_down {
                1int
            } else {
                0int
            };
            let d2 = spec_add_row(d, cell, is_down);
            let w = t.width as int;
            &&& spec_breadth_target(d2, cell) is Some
            &&& d2 == spec_set_at(d, spec_parent(cell), CellM::Tree(spec_breadth_target(d2, cell)->Some_0))
            &&& {
                let t2 = spec_breadth_target(d2, cell)->Some_0;
                &&& t2.width == t.width
                &&& t2.height == t.height + 1
                &&& spec_valid_shape(t2)
                &&& forall|r: int, c: int|
                    0 <= r < t2.height && 0 <= c < w ==> #[trigger] spec_cell_xy(t2.contents, w, c, r) == if r
                        < at {
                        spec_cell_xy(t.contents, w, c, r)
                    } else if r == at {
                        CellM::Empty
                    } else {
                        spec_cell_xy(t.contents, w, c, r - 1)
                    }
            }
        }),
{
    let t = spec_breadth_target(d, cell)->Some_0;
    let at = spec_last_xy(cell).1 + if is_down {
        1int
    } else {
        0int
    };
    let w = t.width as int;
    let h = t.height as int;
    let cs = t.contents;
    let t2 = TreeM {
        contents: spec_insert_row_cells(cs, w, at, CellM::Empty),
        width: t.width,
        height: (t.height + 1) as usize,
    };
    lemma_target_after(d, cell, t2);
    assert(at * w <= cs.len()) by (nonlinear_arith)
        requires
            0 <= at <= h,
            cs.len() == w * h,
            w >= 0,
    ;
    assert(w * (h + 1) == w * h + w) by (nonlinear_arith);
    assert forall|r: int, c: int| 0 <= r < t2.height && 0 <= c < w implies #[trigger] spec_cell_xy(
        t2.contents,
        w,
        c,
        r,
    ) == if r < at {
        spec_cell_xy(cs, w, c, r)
    } else if r == at {
        CellM::Empty
    } else {
        spec_cell_xy(cs, w, c, r - 1)
    } by {
        assert(w * r + c < w * (h + 1)) by (nonlinear_arith)
            requires
                0 <= r < h + 1,
                0 <= c < w,
        ;
        lemma_insert_row_index(cs, w, at, CellM::Empty, r, c);
    }
}

/// Adding a column next to the cell at `cell` in a well-shaped tree, left
/// of the cell's column or, when `is_right`, right of it: the tree grows by
/// one column. In every row the columns before the new one are the old
/// columns, the new column is empty, and the columns after it are the old
/// columns moved right by one. Nothing else in the document changes.
pub proof fn lemma_add_column_places(d: DocumentM, cell: CellPathM, is_right: bool)
    requires
        spec_breadth_target(d, cell) matches Some(t) && {
            &&& spec_valid_shape(t)
            &&& spec_last_xy(cell).0 + (if is_right {
                1int
            } else {
                0int
            }) <= t.width
            &&& t.width < usize::MAX
        },
    ensures
        ({
            let t = spec_breadth_target(d, cell)->Some_0;
            let at = spec_last_xy(cell).0 + if is_right {
                1int
            } else {
                0int
            };
            let d2 = spec_add_column(d, cell, is_right);
            let w = t.width as int;
            &&& spec_breadth_target(d2, cell) is Some
            &&& d2 == spec_set_at(d, spec_parent(cell), CellM::Tree(spec_breadth_target(d2, cell)->Some_0))
            &&& {
                let t2 = spec_breadth_target(d2, cell)->Some_0;
                &&& t2.width == t.width + 1
                &&& t2.height == t.height
                &&& spec_valid_shape(t2)
                &&& forall|r: int, c: int|
                    0 <= r < t2.height && 0 <= c <= w ==> #[trigger] spec_cell_xy(t2.contents, w + 1, c, r)
                        == if c < at {
                        spec_cell_xy(t.contents, w, c, r)
                    } else if c == at {
                        CellM::Empty
                    } else {
                        spec_cell_xy(t.contents, w, c - 1, r)
                    }
            }
        }),
{
    let t = spec_breadth_target(d, cell)->Some_0;
    let at = spec_last_xy(cell).0 + if is_right {
        1int
    } else {
        0int
    };
    let w = t.width as int;
    let h = t.height as nat;
    let cs = t.contents;
    let t2 = TreeM {
        contents: spec_insert_col_cells(cs, w, at, h, CellM::Empty),
        width: (t.width + 1) as usize,
        height: t.height,
    };
    lemma_target_after(d, cell, t2);
    lemma_insert_col_len(cs, w, at, h, CellM::Empty);
    assert forall|r: int, c: int| 0 <= r < t2.height && 0 <= c <= w implies #[trigger] spec_cell_xy(
        t2.contents,
        w + 1,
        c,
        r,
    ) == if c < at {
        spec_cell_xy(cs, w, c, r)
    } else if c == at {
        CellM::Empty
    } else {
        spec_cell_xy(cs, w, c - 1, r)
    } by {
        if c < at {
            lemma_insert_col_index(cs, w, at, h, CellM::Empty, c, r);
        } else if c == at {
            lemma_insert_col_fill(cs, w, at, h, CellM::Empty, r);
        } else {
            lemma_insert_col_index(cs, w, at, h, CellM::Empty, c - 1, r);
        }
    }
}

/// Removing row `row` of the well-shaped tree around `cell`, unless a cell
/// of that row is a field cell (then nothing changes): the tree loses that
/// row, the rows before it are kept, and the rows after it move up by one.
/// Nothing else in the document changes.
pub proof fn lemma_without_row_places(d: DocumentM, cell: CellPathM, t: TreeM, row: int)
    requires
        spec_breadth_target(d, cell) == Some(t),
        spec_valid_shape(t),
        0 <= row < t.height,
    ensures
        (exists|x: int| 0 <= x < t.width && #[trigger] spec_cell_xy(t.contents, t.width as int, x, row) is Field)
            ==> spec_without_row(d, cell, t, row) == d,
        !(exists|x: int| 0 <= x < t.width && #[trigger] spec_cell_xy(t.contents, t.width as int, x, row) is Field)
            ==> {
            let d2 = spec_without_row(d, cell, t, row);
            let w = t.width as int;
            &&& spec_breadth_target(d2, cell) is Some
            &&& d2 == spec_set_at(d, spec_parent(cell), CellM::Tree(spec_breadth_target(d2, cell)->Some_0))
            &&& {
                let t2 = spec_breadth_target(d2, cell)->Some_0;
                &&& t2.width == t.width
                &&& t2.height == t.height - 1
                &&& spec_valid_shape(t2)
                &&& forall|r: int, c: int|
                    0 <= r < t2.height && 0 <= c < w ==> #[trigger] spec_cell_xy(t2.contents, w, c, r) == if r
                        < row {
                        spec_cell_xy(t.contents, w, c, r)
                    } else {
                        spec_cell_xy(t.contents, w, c, r + 1)
                    }
            }
        },
{
    let w = t.width as int;
    let h = t.height as int;
    let cs = t.contents;
    if !spec_row_has_field(t, row) {
        let t2 = TreeM { contents: spec_delete_row_cells(cs, w, row), width: t.width, height: (t.height - 1) as usize };
        lemma_target_after(d, cell, t2);
        assert(row * w + w <= cs.len()) by (nonlinear_arith)
            requires
                0 <= row < h,
                cs.len() == w * h,
                w >= 0,
        ;
        assert(w * (h - 1) == w * h - w) by (nonlinear_arith);
        assert forall|r: int, c: int| 0 <= r < t2.height && 0 <= c < w implies #[trigger] spec_cell_xy(
            t2.contents,
            w,
            c,
            r,
        ) == if r < row {
            spec_cell_xy(cs, w, c, r)
        } else {
            spec_cell_xy(cs, w, c, r + 1)
        } by {
            assert(w * r + c < w * (h - 1)) by (nonlinear_arith)
                requires
                    0 <= r < h - 1,
                    0 <= c < w,
            ;
            lemma_delete_row_index(cs, w, row, r, c);
        }
    }
}

/// Removing column `col` of the well-shaped tree around `cell`, unless a
/// cell of that column is a field cell (then nothing changes): the tree
/// loses that column, in every row the columns before it are kept and the
/// columns after it move left by one. Nothing else in the document changes.
pub proof fn lemma_without_col_places(d: DocumentM, cell: CellPathM, t: TreeM, col: int)
    requires
        spec_breadth_target(d, cell) == Some(t),
        spec_valid_shape(t),
        0 <= col < t.width,
    ensures
        (exists|y: int| 0 <= y < t.height && #[trigger] spec_cell_xy(t.contents, t.width as int, col, y) is Field)
            ==> spec_without_col(d, cell, t, col) == d,
        !(exists|y: int| 0 <= y < t.height && #[trigger] spec_cell_xy(t.contents, t.width as int, col, y) is Field)
            ==> {
            let d2 = spec_without_col(d, cell, t, col);
            let w = t.width as int;
            &&& spec_breadth_target(d2, cell) is Some
            &&& d2 == spec_set_at(d, spec_parent(cell), CellM::Tree(spec_breadth_target(d2, cell)->Some_0))
            &&& {
                let t2 = spec_breadth_target(d2, cell)->Some_0;
                &&& t2.width == t.width - 1
                &&& t2.height == t.height
                &&& spec_valid_shape(t2)
                &&& forall|r: int, c: int|
                    0 <= r < t2.height && 0 <= c < w - 1 ==> #[trigger] spec_cell_xy(t2.contents, w - 1, c, r)
                        == if c < col {
                        spec_cell_xy(t.contents, w, c, r)
                    } else {
                        spec_cell_xy(t.contents, w, c + 1, r)
                    }
            }
        },
{
    let w = t.width as int;
    let h = t.height as nat;
    let cs = t.contents;
    if !spec_col_has_field(t, col) {
        let t2 = TreeM {
            contents: spec_delete_col_cells(cs, w, col, h),
            width: (t.width - 1) as usize,
            height: t.height,
        };
        lemma_target_after(d, cell, t2);
        lemma_delete_col_len(cs, w, col, h);
        assert forall|r: int, c: int| 0 <= r < t2.height && 0 <= c < w - 1 implies #[trigger] spec_cell_xy(
            t2.contents,
            w - 1,
            c,
            r,
        ) == if c < col {
            spec_cell_xy(cs, w, c, r)
        } else {
            spec_cell_xy(cs, w, c + 1, r)
        } by {
            if c < col {
                lemma_delete_col_index(cs, w, col, h, c, r);
            } else {
                lemma_delete_col_index(cs, w, col, h, c + 1, r);
            }
        }
    }
}

/// Deleting the row above the cell at `cell` removes row `y - 1` of its
/// tree as `lemma_without_row_places` describes; in the top row it changes
/// nothing.
pub proof fn lemma_delete_row_above_places(d: DocumentM, cell: CellPathM)
    requires
        spec_breadth_target(d, cell) matches Some(t) && spec_valid_shape(t) && spec_last_xy(cell).1
            <= t.height,
    ensures
        spec_last_xy(cell).1 == 0 ==> spec_delete_row_above(d, cell) == d,
        spec_last_xy(cell).1 > 0 ==> spec_delete_row_above(d, cell) == spec_without_row(
            d,
            cell,
            spec_breadth_target(d, cell)->Some_0,
            spec_last_xy(cell).1 - 1,
        ),
{
    let t = spec_breadth_target(d, cell)->Some_0;
    if spec_last_xy(cell).1 > 0 {
        lemma_without_row_places(d, cell, t, spec_last_xy(cell).1 - 1);
    }
}

/// Deleting the row below the cell at `cell` removes row `y + 1` of its
/// tree as `lemma_without_row_places` describes; in the bottom row it
/// changes nothing.
pub proof fn lemma_delete_row_below_places(d: DocumentM, cell: CellPathM)
    requires
        spec_breadth_target(d, cell) matches Some(t) && spec_valid_shape(t) && spec_last_xy(cell).1
            < t.height,
    ensures
        spec_last_xy(cell).1 + 1 == (spec_breadth_target(d, cell)->Some_0).height ==> spec_delete_row_below(
            d,
            cell,
        ) == d,
        spec_last_xy(cell).1 + 1 < (spec_breadth_target(d, cell)->Some_0).height ==> spec_delete_row_below(
            d,
            cell,
        ) == spec_without_row(d, cell, spec_breadth_target(d, cell)->Some_0, spec_last_xy(cell).1 + 1),
{
    let t = spec_breadth_target(d, cell)->Some_0;
    if spec_last_xy(cell).1 + 1 < t.height {
        lemma_without_row_places(d, cell, t, spec_last_xy(cell).1 + 1);
    }
}

/// Deleting the column left of the cell at `cell` removes column `x - 1`
/// of its tree as `lemma_without_col_places` describes; in the first
/// column it changes nothing.
pub proof fn lemma_delete_column_left_places(d: DocumentM, cell: CellPathM)
    requires
        spec_breadth_target(d, cell) matches Some(t) && spec_valid_shape(t) && spec_last_xy(cell).0
            <= t.width,
    ensures
        spec_last_xy(cell).0 == 0 ==> spec_delete_column_left(d, cell) == d,
        spec_last_xy(cell).0 > 0 ==> spec_delete_column_left(d, cell) == spec_without_col(
            d,
            cell,
            spec_breadth_target(d, cell)->Some_0,
            spec_last_xy(cell).0 - 1,
        ),
{
    let t = spec_breadth_target(d, cell)->Some_0;
    if spec_last_xy(cell).0 > 0 {
        lemma_without_col_places(d, cell, t, spec_last_xy(cell).0 - 1);
    }
}

/// Deleting the column right of the cell at `cell` removes column `x + 1`
/// of its tree as `lemma_without_col_places` describes; in the last column
/// it changes nothing.
pub proof fn lemma_delete_column_right_places(d: DocumentM, cell: CellPathM)
    requires
        spec_breadth_target(d, cell) matches Some(t) && spec_valid_shape(t) && spec_last_xy(cell).0
            < t.width,
    ensures
        spec_last_xy(cell).0 + 1 == (spec_breadth_target(d, cell)->Some_0).width ==> spec_delete_column_right(
            d,
            cell,
        ) == d,
        spec_last_xy(cell).0 + 1 < (spec_breadth_target(d, cell)->Some_0).width ==> spec_delete_column_right(
            d,
            cell,
        ) == spec_without_col(d, cell, spec_breadth_target(d, cell)->Some_0, spec_last_xy(cell).0 + 1),
{
    let t = spec_breadth_target(d, cell)->Some_0;
    if spec_last_xy(cell).0 + 1 < t.width {
        lemma_without_col_places(d, cell, t, spec_last_xy(cell).0 + 1);
    }
}


// ===========================================================================
// What the edits put in place
// ===========================================================================

/// Editing the symbol at `cell` leaves a symbol with the new text there.
pub proof fn lemma_edit_symbol_sets(d: DocumentM, cell: CellPathM, new: Seq<char>)
    requires
        spec_at(d, cell) matches Some(CellM::Symbol(_)),
    ensures
        spec_at(spec_edit_symbol(d, cell, new), cell) == Some(CellM::Symbol(new)),
{
    super::lemma_at_set_at(d, cell, CellM::Symbol(new));
}

/// Editing the variant of the struct at `cell` leaves there a valid struct
/// of the same type at the chosen variant, when that variant's field
/// defaults nest finitely.
pub proof fn lemma_edit_variant_sets(types: TypesM, d: DocumentM, cell: CellPathM, variant_to: usize)
    requires
        spec_schema_fits(types),
        spec_at(d, cell) matches Some(CellM::Struct(sv)) && {
            &&& sv.struct_id < types.types.len()
            &&& variant_to < types.types[sv.struct_id as int].variants.len()
            &&& spec_fields_finite(
                types,
                types.types[sv.struct_id as int].variants[variant_to as int].fields,
                (spec_depth(types) - 1) as nat,
            )
        },
    ensures
        spec_at(spec_edit_variant(types, d, cell, variant_to), cell) matches Some(CellM::Struct(sv2)) && {
            &&& sv2.struct_id == (spec_at(d, cell)->Some_0)->Struct_0.struct_id
            &&& sv2.variant_id == variant_to
            &&& spec_valid_struct(types, sv2)
        },
{
    let sid = (spec_at(d, cell)->Some_0)->Struct_0.struct_id;
    let v = spec_default_struct_variant(types, sid, variant_to, spec_depth(types));
    lemma_default_struct_valid(types, sid, variant_to, spec_depth(types));
    super::lemma_at_set_at(d, cell, v);
}


// ===========================================================================
// What a new document holds
// ===========================================================================

proof fn lemma_rom_rows_index(types: TypesM, w: nat, k: nat, row: int, col: int)
    requires
        0 <= row < k,
        0 <= col < w,
    ensures
        spec_rom_rows(types, w, k).len() == w * k,
        w * row + col < w * k,
        spec_rom_rows(types, w, k)[w * row + col] == spec_rom_cell(types, row, col),
    decreases k,
{
    let prev = spec_rom_rows(types, w, (k - 1) as nat);
    assert(w * k == w * (k - 1) + w) by (nonlinear_arith);
    if row < k - 1 {
        lemma_rom_rows_index(types, w, (k - 1) as nat, row, col);
    } else {
        if k > 1 {
            lemma_rom_rows_index(types, w, (k - 1) as nat, 0, 0);
        } else {
            assert(prev.len() == 0);
        }
        assert(prev.len() == w * (k - 1));
        assert(w * row == w * (k - 1)) by (nonlinear_arith)
            requires
                row == k - 1,
        ;
    }
    assert(w * row + col < w * k) by (nonlinear_arith)
        requires
            0 <= row < k,
            0 <= col < w,
    ;
}

/// A new document: the Rim holds the default of the root field and Ram the
/// default tree. The palette has a row per struct, in schema order, holding
/// the default of each of its variants in variant order and nothing after
/// them, then a row holding the default tree and a row holding an empty
/// symbol, each alone in its row.
pub proof fn lemma_new_places(types: TypesM)
    requires
        spec_new_ok(types),
    ensures
        spec_new(types).rim == spec_default_field(types, types.rim, spec_depth(types)),
        spec_new(types).ram == spec_any_default(),
        ({
            let n = types.types.len() as int;
            let w = spec_rom_width(types) as int;
            let rom = spec_new(types).rom->Tree_0;
            &&& spec_new(types).rom is Tree
            &&& rom.width == w && rom.height == n + 2 && rom.contents.len() == w * (n + 2)
            &&& forall|s: int, v: int|
                0 <= s < n && 0 <= v < types.types[s].variants.len() ==> v < w && #[trigger] spec_at(
                    spec_new(types),
                    CellPathM { region: Region::Rom, path: seq![PathStep::Tree(v as usize, s as usize)] },
                ) == Some(spec_default_struct_variant(types, s as usize, v as usize, spec_depth(types)))
            &&& forall|s: int, v: int|
                0 <= s < n && types.types[s].variants.len() <= v < w ==> #[trigger] spec_cell_xy(rom.contents, w, v, s)
                    == CellM::Empty
            &&& spec_cell_xy(rom.contents, w, 0, n) == spec_any_default()
            &&& spec_cell_xy(rom.contents, w, 0, n + 1) == spec_symbol()
            &&& forall|c: int| 0 < c < w ==> #[trigger] spec_cell_xy(rom.contents, w, c, n) == CellM::Empty
                && spec_cell_xy(rom.contents, w, c, n + 1) == CellM::Empty
        }),
{
    let n = types.types.len() as int;
    let w = spec_rom_width(types);
    let h = (n + 2) as nat;
    let d = spec_new(types);
    let rom = d.rom->Tree_0;
    assert(w >= 1);
    assert(w <= usize::MAX && n + 2 <= usize::MAX) by (nonlinear_arith)
        requires
            w * (n + 2) <= usize::MAX,
            w >= 1,
            n >= 0,
    ;
    assert(rom.width == w);
    lemma_rom_rows_index(types, w, h, 0, 0);
    assert forall|s: int, v: int|
        0 <= s < n && 0 <= v < types.types[s].variants.len() implies v < w && #[trigger] spec_at(
        d,
        CellPathM { region: Region::Rom, path: seq![PathStep::Tree(v as usize, s as usize)] },
    ) == Some(spec_default_struct_variant(types, s as usize, v as usize, spec_depth(types))) by {
        super::lemma_max_variants(types.types, s);
        lemma_rom_rows_index(types, w, h, s, v);
        let p = seq![PathStep::Tree(v as usize, s as usize)];
        assert(p.drop_first() =~= Seq::<PathStep>::empty());
        assert(super::spec_tree_index(rom, v as usize, s as usize) == w * s + v);
        assert(w * s + v < rom.contents.len());
        let c = rom.contents[w * s + v];
        assert(super::spec_step(d.rom, p[0]) == Some(c));
        assert(spec_get(c, p.drop_first()) == Some(c));
        assert(spec_get(d.rom, p) == Some(c));
        assert(c == spec_rom_cell(types, s, v));
    }
    assert forall|s: int, v: int| 0 <= s < n && types.types[s].variants.len() <= v < w implies #[trigger] spec_cell_xy(
        rom.contents,
        w as int,
        v,
        s,
    ) == CellM::Empty by {
        lemma_rom_rows_index(types, w, h, s, v);
    }
    lemma_rom_rows_index(types, w, h, n, 0);
    lemma_rom_rows_index(types, w, h, n + 1, 0);
    assert forall|c: int| 0 < c < w implies #[trigger] spec_cell_xy(rom.contents, w as int, c, n) == CellM::Empty
        && spec_cell_xy(rom.contents, w as int, c, n + 1) == CellM::Empty by {
        lemma_rom_rows_index(types, w, h, n, c);
        lemma_rom_rows_index(types, w, h, n + 1, c);
    }
}


// ===========================================================================
// Nesting in tree fields
// ===========================================================================

/// Nesting on the grid axis is free in a tree field: wrapping any element
/// of a valid tree-field value in a one-cell tree keeps the value valid.
pub proof fn lemma_tree_field_nesting(types: TypesM, t: TreeM, k: int, def: FieldDefM)
    requires
        def.is_tree,
        0 <= k < t.contents.len(),
        spec_valid_field_value(types, CellM::Tree(t), def),
    ensures
        spec_valid_field_value(
            types,
            CellM::Tree(
                TreeM {
                    contents: t.contents.update(
                        k,
                        CellM::Tree(TreeM { contents: seq![t.contents[k]], width: 1, height: 1 }),
                    ),
                    ..t
                },
            ),
            def,
        ),
{
    let inner = TreeM { contents: seq![t.contents[k]], width: 1, height: 1 };
    let t2 = TreeM { contents: t.contents.update(k, CellM::Tree(inner)), ..t };
    assert(spec_valid_element(types, t.contents[k], def.value));
    assert(inner.contents[0] == t.contents[k]);
    assert(spec_valid_element(types, CellM::Tree(inner), def.value));
    assert forall|i: int| 0 <= i < t2.contents.len() implies spec_valid_element(
        types,
        #[trigger] t2.contents[i],
        def.value,
    ) by {
        if i != k {
            assert(t2.contents[i] == t.contents[i]);
        }
    }
}

} // verus!
