//! Validation of a copy against its destination's governance, and what a
//! well-formed document is.

use vstd::prelude::*;

use super::{
    CellContent, ContentM, DocumentM, FieldDef, FieldDefM, Governance, GovM, Grid, GridM, LeafM,
    LeafValue, StructDefM, TypeRef, opt_view,
};

verus! {

// ===========================================================================
// Specifications
// ===========================================================================

/// Whether a single value matches the element kind. A struct is confirmed
/// by its identifier only.
pub open spec fn spec_value_ok(v: LeafM, elem: TypeRef) -> bool {
    match (v, elem) {
        (LeafM::Symbol(_), TypeRef::Symbol) => true,
        (LeafM::Struct(si), TypeRef::Struct(id)) => si.struct_id == id,
        _ => false,
    }
}

/// Whether every grid-axis leaf of the tree has element kind `elem`.
pub open spec fn spec_tree_ok(g: GridM, elem: TypeRef) -> bool
    decreases g,
{
    forall|i: int|
        #![trigger g.cells[i]]
        0 <= i < g.cells.len() ==> match g.cells[i] {
            None => true,
            Some(ContentM::Value(v)) => spec_value_ok(v, elem),
            Some(ContentM::Tree(sub)) => spec_tree_ok(sub, elem),
        }
}

/// Whether `c` is a valid value for the field `fd`.
pub open spec fn spec_conforms(c: ContentM, fd: FieldDefM) -> bool {
    match c {
        ContentM::Value(v) => !fd.is_tree && spec_value_ok(v, fd.elem),
        ContentM::Tree(g) => fd.is_tree && spec_tree_ok(g, fd.elem),
    }
}

/// Whether a content is acceptable in a slot with this governance.
pub open spec fn spec_compat(c: ContentM, gov: GovM) -> bool {
    match gov {
        GovM::Ungoverned => true,
        GovM::Field(fd) => spec_conforms(c, fd),
        GovM::GovernedGridCell(elem) => match c {
            ContentM::Value(v) => spec_value_ok(v, elem),
            ContentM::Tree(g) => spec_tree_ok(g, elem),
        },
    }
}

/// A copy of `payload` (or `None` for an empty source) into a destination
/// with this governance is valid exactly when this holds: a field rejects
/// an empty payload, everything else is checked by kind.
pub open spec fn spec_validates(payload: Option<ContentM>, gov: GovM) -> bool {
    match payload {
        Some(c) => spec_compat(c, gov),
        None => !(gov is Field),
    }
}

/// A type reference resolves against the schema.
pub open spec fn spec_type_ok(t: TypeRef, schema: Seq<StructDefM>) -> bool {
    match t {
        TypeRef::Symbol => true,
        TypeRef::Struct(id) => id < schema.len(),
    }
}

/// Schema well-formedness: every struct has variants, variant 0 has no
/// fields, and every field's element type resolves.
pub open spec fn spec_schema_ok(schema: Seq<StructDefM>) -> bool {
    forall|sid: int|
        #![trigger schema[sid]]
        0 <= sid < schema.len() ==> {
            &&& schema[sid].variants.len() > 0
            &&& schema[sid].variants[0].fields.len() == 0
            &&& forall|vi: int, fi: int|
                #![trigger schema[sid].variants[vi].fields[fi]]
                0 <= vi < schema[sid].variants.len() && 0 <= fi
                    < schema[sid].variants[vi].fields.len() ==> spec_type_ok(
                    schema[sid].variants[vi].fields[fi].elem,
                    schema,
                )
        }
}

/// A content tree is well-formed against the schema: every grid is
/// rectangular and non-empty, every struct instance names an existing
/// struct and variant and carries one conforming field cell per field.
pub open spec fn spec_verified(c: ContentM, schema: Seq<StructDefM>) -> bool
    decreases c,
{
    match c {
        ContentM::Value(LeafM::Symbol(_)) => true,
        ContentM::Value(LeafM::Struct(si)) => {
            &&& si.struct_id < schema.len()
            &&& si.variant < schema[si.struct_id as int].variants.len()
            &&& si.fields.len() == schema[si.struct_id as int].variants[si.variant as int].fields.len()
            &&& forall|i: int|
                #![trigger si.fields[i]]
                0 <= i < si.fields.len() ==> spec_conforms(
                    si.fields[i],
                    schema[si.struct_id as int].variants[si.variant as int].fields[i],
                ) && spec_verified(si.fields[i], schema)
        },
        ContentM::Tree(g) => {
            &&& g.width >= 1
            &&& g.height >= 1
            &&& g.cells.len() == g.width * g.height
            &&& forall|i: int|
                #![trigger g.cells[i]]
                0 <= i < g.cells.len() ==> match g.cells[i] {
                    None => true,
                    Some(inner) => spec_verified(inner, schema),
                }
        },
    }
}

/// The integrity of a whole document: schema well-formedness, every region
/// verified, and the Rim root conforming to the root field.
pub open spec fn spec_integrity(d: DocumentM) -> bool {
    &&& spec_schema_ok(d.schema)
    &&& spec_type_ok(d.rim_root_field.elem, d.schema)
    &&& spec_verified(d.rom, d.schema)
    &&& spec_verified(d.ram, d.schema)
    &&& spec_verified(d.rim, d.schema)
    &&& spec_conforms(d.rim, d.rim_root_field)
}

// ===========================================================================
// Validation
// ===========================================================================

/// A copy of `payload` (the source's content, or `None` for an empty
/// source) into a destination with this governance is valid iff this
/// returns `true`.
pub fn validates(payload: &Option<CellContent>, gov: &Governance) -> (r: bool)
    ensures
        r == spec_validates(opt_view(*payload), gov@),
{
    match gov {
        Governance::Ungoverned => true,
        Governance::Field(fd) => match payload {
            Some(c) => conforms(c, fd),
            None => false,
        },
        Governance::GovernedGridCell(elem) => match payload {
            None => true,
            Some(CellContent::Value(v)) => value_ok(v, *elem),
            Some(CellContent::Tree(g)) => tree_ok(g, *elem),
        },
    }
}

/// Whether `content` is a valid value for the field `fd`.
pub(crate) fn conforms(content: &CellContent, fd: &FieldDef) -> (r: bool)
    ensures
        r == spec_conforms(content@, fd@),
{
    match content {
        CellContent::Value(v) => !fd.is_tree && value_ok(v, fd.elem),
        CellContent::Tree(g) => fd.is_tree && tree_ok(g, fd.elem),
    }
}

/// Whether every grid-axis leaf of the tree has element kind `elem`.
pub(crate) fn tree_ok(g: &Grid, elem: TypeRef) -> (r: bool)
    ensures
        r == spec_tree_ok(g@, elem),
    decreases g,
{
    let n = g.cells.len();
    let ghost gv = g@;
    let mut i: usize = 0;
    while i < n
        invariant
            n == g.cells@.len(),
            gv == g@,
            gv.cells.len() == n,
            i <= n,
            forall|j: int|
                #![trigger gv.cells[j]]
                0 <= j < i ==> match gv.cells[j] {
                    None => true,
                    Some(ContentM::Value(v)) => spec_value_ok(v, elem),
                    Some(ContentM::Tree(sub)) => spec_tree_ok(sub, elem),
                },
            forall|j: int| 0 <= j < n ==> decreases_to!(g => g.cells@[j]),
        decreases n - i,
    {
        proof {
            assert(gv.cells[i as int] == opt_view(g.cells@[i as int]));
        }
        let ok = match &g.cells[i] {
            None => true,
            Some(CellContent::Value(v)) => value_ok(v, elem),
            Some(CellContent::Tree(sub)) => {
                proof {
                    assert(decreases_to!(g => g.cells@[i as int]));
                }
                tree_ok(sub, elem)
            },
        };
        if !ok {
            return false;
        }
        i = i + 1;
    }
    true
}

/// Whether a single value matches the element kind.
pub(crate) fn value_ok(v: &LeafValue, elem: TypeRef) -> (r: bool)
    ensures
        r == spec_value_ok(v@, elem),
{
    match (v, elem) {
        (LeafValue::Symbol(_), TypeRef::Symbol) => true,
        (LeafValue::Struct(si), TypeRef::Struct(id)) => si.struct_id == id,
        _ => false,
    }
}

} // verus!
