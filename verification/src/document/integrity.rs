//! The integrity check a document must pass before it goes live, and the
//! message that names the first check it fails.

use vstd::prelude::*;
use vstd::string::StringExecFns;

use super::{
    CellContent, ContentM, Document, DocumentM, GridM, IntegrityError, LeafM, LeafValue, Schema,
    StructDefM, StructM, TypeRef, opt_view,
};
use super::validation::{
    conforms, spec_conforms, spec_integrity, spec_type_ok, spec_verified,
};

verus! {

// ===========================================================================
// Numbers and messages
// ===========================================================================

/// The character of a decimal digit.
pub open spec fn spec_digit(d: nat) -> char {
    if d == 0 {
        '0'
    } else if d == 1 {
        '1'
    } else if d == 2 {
        '2'
    } else if d == 3 {
        '3'
    } else if d == 4 {
        '4'
    } else if d == 5 {
        '5'
    } else if d == 6 {
        '6'
    } else if d == 7 {
        '7'
    } else if d == 8 {
        '8'
    } else {
        '9'
    }
}

/// `n` written in decimal, without leading zeros.
pub open spec fn spec_decimal(n: nat) -> Seq<char>
    decreases n,
{
    if n < 10 {
        seq![spec_digit(n)]
    } else {
        spec_decimal(n / 10).push(spec_digit(n % 10))
    }
}

fn digit_text(d: usize) -> (r: &'static str)
    requires
        d < 10,
    ensures
        r@ == seq![spec_digit(d as nat)],
{
    if d == 0 {
        proof {
            reveal_strlit("0");
        }
        "0"
    } else if d == 1 {
        proof {
            reveal_strlit("1");
        }
        "1"
    } else if d == 2 {
        proof {
            reveal_strlit("2");
        }
        "2"
    } else if d == 3 {
        proof {
            reveal_strlit("3");
        }
        "3"
    } else if d == 4 {
        proof {
            reveal_strlit("4");
        }
        "4"
    } else if d == 5 {
        proof {
            reveal_strlit("5");
        }
        "5"
    } else if d == 6 {
        proof {
            reveal_strlit("6");
        }
        "6"
    } else if d == 7 {
        proof {
            reveal_strlit("7");
        }
        "7"
    } else if d == 8 {
        proof {
            reveal_strlit("8");
        }
        "8"
    } else {
        proof {
            reveal_strlit("9");
        }
        "9"
    }
}

/// `n` written in decimal.
pub fn decimal(n: usize) -> (r: String)
    ensures
        r@ == spec_decimal(n as nat),
    decreases n,
{
    if n < 10 {
        String::from_str(digit_text(n))
    } else {
        let mut s = decimal(n / 10);
        s.append(digit_text(n % 10));
        assert(s@ =~= spec_decimal((n / 10) as nat).push(spec_digit((n % 10) as nat)));
        s
    }
}

pub open spec fn spec_msg_no_variants(sid: nat, name: Seq<char>) -> Seq<char> {
    "struct "@ + spec_decimal(sid) + " ('"@ + name + "') has no variants"@
}

pub open spec fn spec_msg_variant_zero(sid: nat, name: Seq<char>) -> Seq<char> {
    "struct "@ + spec_decimal(sid) + " ('"@ + name + "'): variant 0 is not the empty variant"@
}

pub open spec fn spec_msg_id_range(id: nat) -> Seq<char> {
    "struct id "@ + spec_decimal(id) + " is out of range"@
}

pub open spec fn spec_msg_variant_range(variant: nat, id: nat) -> Seq<char> {
    "variant "@ + spec_decimal(variant) + " is out of range for struct "@ + spec_decimal(id)
}

pub open spec fn spec_msg_field_count(id: nat, variant: nat, have: nat, want: nat) -> Seq<char> {
    "struct "@ + spec_decimal(id) + " variant "@ + spec_decimal(variant) + ": has "@ + spec_decimal(
        have,
    ) + " field cells, expected "@ + spec_decimal(want)
}

pub open spec fn spec_msg_field_conform(field: Seq<char>, id: nat) -> Seq<char> {
    "field '"@ + field + "' of struct "@ + spec_decimal(id) + " does not conform to its declared type"@
}

pub open spec fn spec_msg_grid_empty() -> Seq<char> {
    "a grid is empty"@
}

pub open spec fn spec_msg_not_rectangular(cells: nat, width: nat, height: nat) -> Seq<char> {
    "a grid is not rectangular: "@ + spec_decimal(cells) + " cells, expected "@ + spec_decimal(width)
        + "x"@ + spec_decimal(height)
}

pub open spec fn spec_msg_rim_root() -> Seq<char> {
    "the Rim root does not conform to the root field"@
}

fn msg_no_variants(sid: usize, name: &str) -> (r: IntegrityError)
    ensures
        r.0@ == spec_msg_no_variants(sid as nat, name@),
{
    let mut m = String::from_str("struct ");
    m.append(decimal(sid).as_str());
    m.append(" ('");
    m.append(name);
    m.append("') has no variants");
    IntegrityError(m)
}

fn msg_variant_zero(sid: usize, name: &str) -> (r: IntegrityError)
    ensures
        r.0@ == spec_msg_variant_zero(sid as nat, name@),
{
    let mut m = String::from_str("struct ");
    m.append(decimal(sid).as_str());
    m.append(" ('");
    m.append(name);
    m.append("'): variant 0 is not the empty variant");
    IntegrityError(m)
}

fn msg_id_range(id: usize) -> (r: IntegrityError)
    ensures
        r.0@ == spec_msg_id_range(id as nat),
{
    let mut m = String::from_str("struct id ");
    m.append(decimal(id).as_str());
    m.append(" is out of range");
    IntegrityError(m)
}

fn msg_variant_range(variant: usize, id: usize) -> (r: IntegrityError)
    ensures
        r.0@ == spec_msg_variant_range(variant as nat, id as nat),
{
    let mut m = String::from_str("variant ");
    m.append(decimal(variant).as_str());
    m.append(" is out of range for struct ");
    m.append(decimal(id).as_str());
    IntegrityError(m)
}

fn msg_field_count(id: usize, variant: usize, have: usize, want: usize) -> (r: IntegrityError)
    ensures
        r.0@ == spec_msg_field_count(id as nat, variant as nat, have as nat, want as nat),
{
    let mut m = String::from_str("struct ");
    m.append(decimal(id).as_str());
    m.append(" variant ");
    m.append(decimal(variant).as_str());
    m.append(": has ");
    m.append(decimal(have).as_str());
    m.append(" field cells, expected ");
    m.append(decimal(want).as_str());
    IntegrityError(m)
}

fn msg_field_conform(field: &str, id: usize) -> (r: IntegrityError)
    ensures
        r.0@ == spec_msg_field_conform(field@, id as nat),
{
    let mut m = String::from_str("field '");
    m.append(field);
    m.append("' of struct ");
    m.append(decimal(id).as_str());
    m.append(" does not conform to its declared type");
    IntegrityError(m)
}

fn msg_not_rectangular(cells: usize, width: usize, height: usize) -> (r: IntegrityError)
    ensures
        r.0@ == spec_msg_not_rectangular(cells as nat, width as nat, height as nat),
{
    let mut m = String::from_str("a grid is not rectangular: ");
    m.append(decimal(cells).as_str());
    m.append(" cells, expected ");
    m.append(decimal(width).as_str());
    m.append("x");
    m.append(decimal(height).as_str());
    IntegrityError(m)
}

// ===========================================================================
// Which check fails first
// ===========================================================================

/// The first failure of a sequence of checks, in order.
pub open spec fn spec_first(s: Seq<Option<Seq<char>>>) -> Option<Seq<char>>
    decreases s.len(),
{
    if s.len() == 0 {
        None
    } else if s[0] is Some {
        s[0]
    } else {
        spec_first(s.drop_first())
    }
}

proof fn lemma_first_at(s: Seq<Option<Seq<char>>>, k: int)
    requires
        0 <= k < s.len(),
        forall|j: int| 0 <= j < k ==> #[trigger] s[j] is None,
        s[k] is Some,
    ensures
        spec_first(s) == s[k],
    decreases k,
{
    if k > 0 {
        let t = s.drop_first();
        assert forall|j: int| 0 <= j < k - 1 implies #[trigger] t[j] is None by {
            assert(s[j + 1] is None);
        }
        lemma_first_at(t, k - 1);
    }
}

proof fn lemma_first_none(s: Seq<Option<Seq<char>>>)
    requires
        forall|j: int| 0 <= j < s.len() ==> #[trigger] s[j] is None,
    ensures
        spec_first(s) is None,
    decreases s.len(),
{
    if s.len() > 0 {
        let t = s.drop_first();
        assert forall|j: int| 0 <= j < t.len() implies #[trigger] t[j] is None by {
            assert(s[j + 1] is None);
        }
        lemma_first_none(t);
    }
}

/// The message of a type reference that does not resolve.
pub open spec fn spec_type_err(t: TypeRef, schema: Seq<StructDefM>) -> Option<Seq<char>> {
    match t {
        TypeRef::Symbol => None,
        TypeRef::Struct(id) => if id < schema.len() {
            None
        } else {
            Some(spec_msg_id_range(id as nat))
        },
    }
}

/// The element types of variant `vi` of struct `sid`, checked in order.
pub open spec fn spec_variant_types_err(schema: Seq<StructDefM>, sid: int, vi: int) -> Option<Seq<char>> {
    let fields = schema[sid].variants[vi].fields;
    spec_first(
        Seq::new(fields.len(), |fi: int| spec_type_err(fields[fi].elem, schema)),
    )
}

/// The checks of struct `sid`: it has variants, its variant 0 is empty,
/// and every field's element type resolves, variant by variant.
pub open spec fn spec_struct_def_err(schema: Seq<StructDefM>, sid: int) -> Option<Seq<char>> {
    let sd = schema[sid];
    if sd.variants.len() == 0 {
        Some(spec_msg_no_variants(sid as nat, sd.name))
    } else if sd.variants[0].fields.len() != 0 {
        Some(spec_msg_variant_zero(sid as nat, sd.name))
    } else {
        spec_first(
            Seq::new(sd.variants.len(), |vi: int| spec_variant_types_err(schema, sid, vi)),
        )
    }
}

/// The schema's checks, struct by struct.
pub open spec fn spec_schema_err(schema: Seq<StructDefM>) -> Option<Seq<char>> {
    spec_first(Seq::new(schema.len(), |sid: int| spec_struct_def_err(schema, sid)))
}

/// The checks of a content tree, in the order of a walk from the top:
/// a struct's identifiers and field count, then each field cell's
/// conformance and its own content; a grid's dimensions, then each cell.
pub open spec fn spec_content_err(c: ContentM, schema: Seq<StructDefM>) -> Option<Seq<char>>
    decreases c, 0int,
{
    match c {
        ContentM::Value(LeafM::Symbol(_)) => None,
        ContentM::Value(LeafM::Struct(si)) => {
            if si.struct_id >= schema.len() {
                Some(spec_msg_id_range(si.struct_id as nat))
            } else if si.variant >= schema[si.struct_id as int].variants.len() {
                Some(spec_msg_variant_range(si.variant as nat, si.struct_id as nat))
            } else if si.fields.len() != schema[si.struct_id as int].variants[si.variant as int].fields.len() {
                Some(
                    spec_msg_field_count(
                        si.struct_id as nat,
                        si.variant as nat,
                        si.fields.len(),
                        schema[si.struct_id as int].variants[si.variant as int].fields.len(),
                    ),
                )
            } else {
                spec_fields_err(si, schema, 0)
            }
        },
        ContentM::Tree(g) => {
            if g.width < 1 || g.height < 1 {
                Some(spec_msg_grid_empty())
            } else if g.cells.len() != g.width * g.height {
                Some(spec_msg_not_rectangular(g.cells.len(), g.width as nat, g.height as nat))
            } else {
                spec_cells_err(g, schema, 0)
            }
        },
    }
}

/// The checks of the field cells of a struct instance from the `k`-th on:
/// each conforms to its field, then its own content is checked.
pub open spec fn spec_fields_err(si: StructM, schema: Seq<StructDefM>, k: nat) -> Option<Seq<char>>
    decreases si, si.fields.len() - k,
{
    if k >= si.fields.len() {
        None
    } else {
        let def = schema[si.struct_id as int].variants[si.variant as int].fields[k as int];
        if !spec_conforms(si.fields[k as int], def) {
            Some(spec_msg_field_conform(def.name, si.struct_id as nat))
        } else {
            match spec_content_err(si.fields[k as int], schema) {
                Some(m) => Some(m),
                None => spec_fields_err(si, schema, k + 1),
            }
        }
    }
}

/// The checks of the cells of a grid from the `k`-th on.
pub open spec fn spec_cells_err(g: GridM, schema: Seq<StructDefM>, k: nat) -> Option<Seq<char>>
    decreases g, g.cells.len() - k,
{
    if k >= g.cells.len() {
        None
    } else {
        match g.cells[k as int] {
            Some(inner) => match spec_content_err(inner, schema) {
                Some(m) => Some(m),
                None => spec_cells_err(g, schema, k + 1),
            },
            None => spec_cells_err(g, schema, k + 1),
        }
    }
}

/// The checks of a whole document, in order: the schema, the root field's
/// element type, Rom, Ram and Rim, and the Rim root against the root field.
pub open spec fn spec_integrity_err(d: DocumentM) -> Option<Seq<char>> {
    spec_first(spec_integrity_checks(d))
}

/// The document's checks, in the order they are made.
pub open spec fn spec_integrity_checks(d: DocumentM) -> Seq<Option<Seq<char>>> {
    seq![
        spec_schema_err(d.schema),
        spec_type_err(d.rim_root_field.elem, d.schema),
        spec_content_err(d.rom, d.schema),
        spec_content_err(d.ram, d.schema),
        spec_content_err(d.rim, d.schema),
        if spec_conforms(d.rim, d.rim_root_field) {
            None
        } else {
            Some(spec_msg_rim_root())
        },
    ]
}

/// The message of a failed check, `None` for a passed one.
pub open spec fn spec_error_text(r: Result<(), IntegrityError>) -> Option<Seq<char>> {
    match r {
        Ok(()) => None,
        Err(e) => Some(e.0@),
    }
}

// ===========================================================================
// The integrity check
// ===========================================================================

/// Confirm the maintained invariants over a whole document: a well-formed
/// schema, every region verified, and the Rim root conforming to its field.
/// A document that fails must never go live; the error names the first
/// check it fails.
pub fn check_integrity(doc: &Document) -> (r: Result<(), IntegrityError>)
    ensures
        r is Ok <==> spec_integrity(doc@),
        spec_error_text(r) == spec_integrity_err(doc@),
{
    let schema = &doc.schema;
    let ghost sv = schema@;
    let ghost structs = Seq::new(sv.len(), |k: int| spec_struct_def_err(sv, k));
    let ns = schema.structs.len();
    let mut sid: usize = 0;
    while sid < ns
        invariant
            ns == schema.structs@.len(),
            sv == schema@,
            sv == doc.schema@,
            sv.len() == ns,
            sid <= ns,
            structs == Seq::new(sv.len(), |k: int| spec_struct_def_err(sv, k)),
            forall|k: int|
                #![trigger sv[k]]
                0 <= k < sid ==> {
                    &&& sv[k].variants.len() > 0
                    &&& sv[k].variants[0].fields.len() == 0
                    &&& forall|vi: int, fi: int|
                        #![trigger sv[k].variants[vi].fields[fi]]
                        0 <= vi < sv[k].variants.len() && 0 <= fi
                            < sv[k].variants[vi].fields.len() ==> spec_type_ok(
                            sv[k].variants[vi].fields[fi].elem,
                            sv,
                        )
                },
            forall|k: int| 0 <= k < sid ==> #[trigger] structs[k] is None,
        decreases ns - sid,
    {
        let sd = &schema.structs[sid];
        proof {
            assert(sv[sid as int] == sd@);
        }
        if sd.variants.len() == 0 {
            let e = msg_no_variants(sid, sd.name.as_str());
            proof {
                lemma_first_at(structs, sid as int);
                lemma_first_at(spec_integrity_checks(doc@), 0);
            }
            return Err(e);
        }
        if sd.variants[0].fields.len() != 0 {
            let e = msg_variant_zero(sid, sd.name.as_str());
            proof {
                lemma_first_at(structs, sid as int);
                lemma_first_at(spec_integrity_checks(doc@), 0);
            }
            return Err(e);
        }
        let ghost variants = Seq::new(
            sv[sid as int].variants.len(),
            |vi: int| spec_variant_types_err(sv, sid as int, vi),
        );
        let nv = sd.variants.len();
        let mut vi: usize = 0;
        while vi < nv
            invariant
                ns == schema.structs@.len(),
                sv == schema@,
                sv == doc.schema@,
                sv.len() == ns,
                sid < ns,
                sd@ == sv[sid as int],
                nv == sd.variants@.len(),
                vi <= nv,
                structs == Seq::new(sv.len(), |k: int| spec_struct_def_err(sv, k)),
                forall|k: int| 0 <= k < sid ==> #[trigger] structs[k] is None,
                sv[sid as int].variants.len() > 0,
                sv[sid as int].variants[0].fields.len() == 0,
                variants == Seq::new(
                    sv[sid as int].variants.len(),
                    |v2: int| spec_variant_types_err(sv, sid as int, v2),
                ),
                forall|v2: int| 0 <= v2 < vi ==> #[trigger] variants[v2] is None,
                forall|v2: int, fi: int|
                    #![trigger sv[sid as int].variants[v2].fields[fi]]
                    0 <= v2 < vi && 0 <= fi < sv[sid as int].variants[v2].fields.len()
                        ==> spec_type_ok(sv[sid as int].variants[v2].fields[fi].elem, sv),
            decreases nv - vi,
        {
            let vd = &sd.variants[vi];
            let ghost fields = sv[sid as int].variants[vi as int].fields;
            let ghost checks = Seq::new(fields.len(), |fi: int| spec_type_err(fields[fi].elem, sv));
            let nf = vd.fields.len();
            let mut fi: usize = 0;
            while fi < nf
                invariant
                    ns == schema.structs@.len(),
                    sv == schema@,
                    sv == doc.schema@,
                    sv.len() == ns,
                    sid < ns,
                    sd@ == sv[sid as int],
                    nv == sd.variants@.len(),
                    vi < nv,
                    vd@ == sv[sid as int].variants[vi as int],
                    nf == vd.fields@.len(),
                    fi <= nf,
                    structs == Seq::new(sv.len(), |k: int| spec_struct_def_err(sv, k)),
                    forall|k: int| 0 <= k < sid ==> #[trigger] structs[k] is None,
                    sv[sid as int].variants.len() > 0,
                    sv[sid as int].variants[0].fields.len() == 0,
                    variants == Seq::new(
                        sv[sid as int].variants.len(),
                        |v2: int| spec_variant_types_err(sv, sid as int, v2),
                    ),
                    forall|v2: int| 0 <= v2 < vi ==> #[trigger] variants[v2] is None,
                    fields == sv[sid as int].variants[vi as int].fields,
                    checks == Seq::new(fields.len(), |f2: int| spec_type_err(fields[f2].elem, sv)),
                    forall|f2: int| 0 <= f2 < fi ==> #[trigger] checks[f2] is None,
                    forall|f2: int|
                        #![trigger sv[sid as int].variants[vi as int].fields[f2]]
                        0 <= f2 < fi ==> spec_type_ok(
                            sv[sid as int].variants[vi as int].fields[f2].elem,
                            sv,
                        ),
                decreases nf - fi,
            {
                proof {
                    assert(vd.fields@[fi as int]@ == sv[sid as int].variants[vi as int].fields[fi as int]);
                }
                match check_typeref(vd.fields[fi].elem, schema) {
                    Ok(()) => {},
                    Err(e) => {
                        proof {
                            lemma_first_at(checks, fi as int);
                            lemma_first_at(variants, vi as int);
                            lemma_first_at(structs, sid as int);
                            lemma_first_at(spec_integrity_checks(doc@), 0);
                        }
                        return Err(e);
                    },
                }
                fi = fi + 1;
            }
            proof {
                lemma_first_none(checks);
            }
            vi = vi + 1;
        }
        proof {
            lemma_first_none(variants);
        }
        sid = sid + 1;
    }
    proof {
        lemma_first_none(structs);
    }
    let ghost all = spec_integrity_checks(doc@);
    match check_typeref(doc.rim_root_field.elem, schema) {
        Ok(()) => {},
        Err(e) => {
            proof {
                lemma_first_at(all, 1);
            }
            return Err(e);
        },
    }
    match verify_content(&doc.rom, schema) {
        Ok(()) => {},
        Err(e) => {
            proof {
                lemma_first_at(all, 2);
            }
            return Err(e);
        },
    }
    match verify_content(&doc.ram, schema) {
        Ok(()) => {},
        Err(e) => {
            proof {
                lemma_first_at(all, 3);
            }
            return Err(e);
        },
    }
    match verify_content(&doc.rim, schema) {
        Ok(()) => {},
        Err(e) => {
            proof {
                lemma_first_at(all, 4);
            }
            return Err(e);
        },
    }
    if !conforms(&doc.rim, &doc.rim_root_field) {
        let e = IntegrityError(String::from_str("the Rim root does not conform to the root field"));
        proof {
            lemma_first_at(all, 5);
        }
        return Err(e);
    }
    proof {
        lemma_first_none(all);
    }
    Ok(())
}

fn check_typeref(t: TypeRef, schema: &Schema) -> (r: Result<(), IntegrityError>)
    ensures
        r is Ok <==> spec_type_ok(t, schema@),
        spec_error_text(r) == spec_type_err(t, schema@),
{
    match t {
        TypeRef::Symbol => Ok(()),
        TypeRef::Struct(id) => {
            if id < schema.structs.len() {
                Ok(())
            } else {
                Err(msg_id_range(id))
            }
        },
    }
}

/// Recursively check one content tree: every grid rectangular and
/// non-empty, every struct instance well-formed with each of its field
/// cells conforming to its `FieldDef`.
fn verify_content(content: &CellContent, schema: &Schema) -> (r: Result<(), IntegrityError>)
    ensures
        r is Ok <==> spec_verified(content@, schema@),
        spec_error_text(r) == spec_content_err(content@, schema@),
    decreases content,
{
    match content {
        CellContent::Value(LeafValue::Symbol(_)) => Ok(()),
        CellContent::Value(LeafValue::Struct(si)) => {
            if si.struct_id >= schema.structs.len() {
                return Err(msg_id_range(si.struct_id));
            }
            let sd = &schema.structs[si.struct_id];
            if si.variant >= sd.variants.len() {
                return Err(msg_variant_range(si.variant, si.struct_id));
            }
            let vd = &sd.variants[si.variant];
            if si.fields.len() != vd.fields.len() {
                return Err(msg_field_count(si.struct_id, si.variant, si.fields.len(), vd.fields.len()));
            }
            let ghost cv = content@;
            let ghost siv = super::struct_view(*si);
            let ghost vdv = schema@[si.struct_id as int].variants[si.variant as int];
            proof {
                assert(sd@ == schema@[si.struct_id as int]);
                assert(vd@ == vdv);
                assert(cv == ContentM::Value(LeafM::Struct(siv)));
            }
            let n = si.fields.len();
            let mut i: usize = 0;
            while i < n
                invariant
                    n == si.fields@.len(),
                    siv == super::struct_view(*si),
                    content@ == ContentM::Value(LeafM::Struct(siv)),
                    siv.struct_id < schema@.len(),
                    siv.variant < schema@[siv.struct_id as int].variants.len(),
                    vdv == schema@[siv.struct_id as int].variants[siv.variant as int],
                    siv.fields.len() == n,
                    vd@ == vdv,
                    vdv.fields.len() == n,
                    i <= n,
                    forall|j: int|
                        #![trigger siv.fields[j]]
                        0 <= j < i ==> spec_conforms(siv.fields[j], vdv.fields[j]) && spec_verified(
                            siv.fields[j],
                            schema@,
                        ),
                    spec_content_err(content@, schema@) == spec_fields_err(siv, schema@, i as nat),
                    forall|j: int| 0 <= j < n ==> decreases_to!(content => si.fields@[j]),
                decreases n - i,
            {
                let cell = &si.fields[i];
                let fd = &vd.fields[i];
                proof {
                    assert(siv.fields[i as int] == cell@);
                    assert(fd@ == vdv.fields[i as int]);
                }
                if !conforms(cell, fd) {
                    return Err(msg_field_conform(fd.name.as_str(), si.struct_id));
                }
                proof {
                    assert(decreases_to!(content => si.fields@[i as int]));
                }
                match verify_content(cell, schema) {
                    Ok(()) => {},
                    Err(e) => {
                        return Err(e);
                    },
                }
                i = i + 1;
            }
            Ok(())
        },
        CellContent::Tree(grid) => {
            if grid.width < 1 || grid.height < 1 {
                return Err(IntegrityError(String::from_str("a grid is empty")));
            }
            let rectangular = match grid.width.checked_mul(grid.height) {
                Some(p) => grid.cells.len() == p,
                None => false,
            };
            if !rectangular {
                return Err(msg_not_rectangular(grid.cells.len(), grid.width, grid.height));
            }
            let ghost gv = grid@;
            let n = grid.cells.len();
            let mut i: usize = 0;
            while i < n
                invariant
                    n == grid.cells@.len(),
                    gv == grid@,
                    content@ == ContentM::Tree(gv),
                    gv.width >= 1,
                    gv.height >= 1,
                    gv.cells.len() == gv.width * gv.height,
                    gv.cells.len() == n,
                    i <= n,
                    forall|j: int|
                        #![trigger gv.cells[j]]
                        0 <= j < i ==> match gv.cells[j] {
                            None => true,
                            Some(inner) => spec_verified(inner, schema@),
                        },
                    spec_content_err(content@, schema@) == spec_cells_err(gv, schema@, i as nat),
                    forall|j: int| 0 <= j < n ==> decreases_to!(content => grid.cells@[j]),
                decreases n - i,
            {
                proof {
                    assert(gv.cells[i as int] == opt_view(grid.cells@[i as int]));
                }
                match &grid.cells[i] {
                    Some(c) => {
                        proof {
                            assert(decreases_to!(content => grid.cells@[i as int]));
                        }
                        match verify_content(c, schema) {
                            Ok(()) => {},
                            Err(e) => {
                                return Err(e);
                            },
                        }
                    },
                    None => {},
                }
                i = i + 1;
            }
            Ok(())
        },
    }
}

} // verus!
