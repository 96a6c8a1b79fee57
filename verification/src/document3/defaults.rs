//! Default cells, and the palette that a new document's Rom holds.
//!
//! A struct field's default is built from the default of its type, and a
//! struct's default (variant 0) is built from its fields' defaults, so the
//! defaults of a type nest. The specifications carry a depth: the nesting of
//! variant-0 defaults below a struct must stop within it, which holds for
//! every depth beyond the number of struct types exactly when no struct
//! reaches itself through variant-0, non-tree struct fields.

use vstd::prelude::*;

use super::{
    Cell, CellM, CellValue, Document, DocumentM, FieldDef, FieldDefM, FieldVal, FieldValM,
    StructVal, StructValM, Tree, TreeM, Types, TypesM, VariantDefM, cell_view, contents_view,
};

verus! {

// ===========================================================================
// Specifications
// ===========================================================================

/// The variant-0 defaults below struct `sid` nest at most `depth` deep.
pub open spec fn spec_finite(types: TypesM, sid: int, depth: nat) -> bool
    decreases depth,
{
    &&& depth > 0
    &&& 0 <= sid < types.types.len()
    &&& types.types[sid].variants.len() > 0
    &&& forall|fi: int|
        #![trigger types.types[sid].variants[0].fields[fi]]
        0 <= fi < types.types[sid].variants[0].fields.len() ==> match types.types[sid].variants[0].fields[fi] {
            FieldDefM { value: CellValue::Struct(n), is_tree: false, .. } => spec_finite(
                types,
                n as int,
                (depth - 1) as nat,
            ),
            _ => true,
        }
}

/// The defaults of these fields nest at most `depth` deep.
pub open spec fn spec_fields_finite(types: TypesM, fields: Seq<FieldDefM>, depth: nat) -> bool {
    forall|fi: int|
        #![trigger fields[fi]]
        0 <= fi < fields.len() ==> match fields[fi] {
            FieldDefM { value: CellValue::Struct(n), is_tree: false, .. } => spec_finite(
                types,
                n as int,
                depth,
            ),
            _ => true,
        }
}

/// The depth that every finite nesting of defaults fits in: one more than
/// the number of struct types.
pub open spec fn spec_depth(types: TypesM) -> nat {
    (types.types.len() + 1) as nat
}

/// An empty symbol.
pub open spec fn spec_symbol() -> CellM {
    CellM::Symbol(Seq::empty())
}

/// The default tree: a 1x1 grid holding one empty cell.
pub open spec fn spec_any_default() -> CellM {
    CellM::Tree(TreeM { contents: seq![CellM::Empty], width: 1, height: 1 })
}

/// The `Field` cells of variant `vid` of struct `sid`, each holding its
/// field's default.
pub open spec fn spec_field_cells(types: TypesM, sid: usize, vid: usize, depth: nat) -> Seq<CellM>
    decreases depth, 3int,
{
    let fields = types.types[sid as int].variants[vid as int].fields;
    Seq::new(
        fields.len(),
        |i: int|
            CellM::Field(
                FieldValM {
                    struct_id: sid,
                    variant_id: vid,
                    field_id: i as usize,
                    value: Box::new(
                        if 0 <= i < fields.len() {
                            spec_default_field(types, fields[i], depth)
                        } else {
                            CellM::Empty
                        },
                    ),
                },
            ),
    )
}

/// The default instance of variant `vid` of struct `sid`: no grid for a
/// fieldless variant, else a one-column grid of its field cells in order.
pub open spec fn spec_default_struct_variant(types: TypesM, sid: usize, vid: usize, depth: nat) -> CellM
    decreases depth, 0int,
{
    if depth == 0 {
        CellM::Empty
    } else {
        let cells = spec_field_cells(types, sid, vid, (depth - 1) as nat);
        CellM::Struct(
            StructValM {
                struct_id: sid,
                variant_id: vid,
                grid: if cells.len() == 0 {
                    None
                } else {
                    Some(
                        Box::new(
                            CellM::Tree(
                                TreeM { contents: cells, width: 1, height: cells.len() as usize },
                            ),
                        ),
                    )
                },
            },
        )
    }
}

/// The default of a value type: an empty symbol, or the struct's variant 0.
pub open spec fn spec_default_value(types: TypesM, v: CellValue, depth: nat) -> CellM
    decreases depth, 1int,
{
    match v {
        CellValue::Symbol => spec_symbol(),
        CellValue::Struct(n) => spec_default_struct_variant(types, n, 0, depth),
    }
}

/// The default of a field: the default tree, or the default of its value
/// type.
pub open spec fn spec_default_field(types: TypesM, fd: FieldDefM, depth: nat) -> CellM
    decreases depth, 2int,
{
    if fd.is_tree {
        spec_any_default()
    } else {
        spec_default_value(types, fd.value, depth)
    }
}

/// The widest struct, counted in variants.
pub open spec fn spec_max_variants(structs: Seq<super::StructDefM>) -> nat
    decreases structs.len(),
{
    if structs.len() == 0 {
        0
    } else {
        let rest = spec_max_variants(structs.drop_last());
        let v = structs.last().variants.len();
        if v > rest {
            v
        } else {
            rest
        }
    }
}

/// The width of the palette: one column per variant of the widest struct,
/// or one column when there are no structs.
pub open spec fn spec_rom_width(types: TypesM) -> nat {
    if types.types.len() == 0 {
        1
    } else {
        spec_max_variants(types.types)
    }
}

/// Cell `col` of row `row` of the palette: a row per struct holding the
/// default of each of its variants, then a row holding the default tree and
/// a row holding an empty symbol, every other cell empty.
pub open spec fn spec_rom_cell(types: TypesM, row: int, col: int) -> CellM {
    let n = types.types.len();
    if row < n {
        if col < types.types[row].variants.len() {
            spec_default_struct_variant(types, row as usize, col as usize, spec_depth(types))
        } else {
            CellM::Empty
        }
    } else if col != 0 {
        CellM::Empty
    } else if row == n {
        spec_any_default()
    } else {
        spec_symbol()
    }
}

/// The first `k` rows of the palette, row after row.
pub open spec fn spec_rom_rows(types: TypesM, width: nat, k: nat) -> Seq<CellM>
    decreases k,
{
    if k == 0 {
        Seq::empty()
    } else {
        spec_rom_rows(types, width, (k - 1) as nat) + Seq::new(
            width,
            |c: int| spec_rom_cell(types, k - 1, c),
        )
    }
}

/// The palette: a grid of `spec_rom_width` columns and one row per struct
/// plus two.
pub open spec fn spec_rom(types: TypesM) -> CellM {
    let w = spec_rom_width(types);
    let h = (types.types.len() + 2) as nat;
    CellM::Tree(TreeM { contents: spec_rom_rows(types, w, h), width: w as usize, height: h as usize })
}

/// A new document: Rim the default of the root field, Ram the default
/// tree, Rom the palette.
pub open spec fn spec_new(types: TypesM) -> DocumentM {
    DocumentM {
        rim: spec_default_field(types, types.rim, spec_depth(types)),
        ram: spec_any_default(),
        rom: spec_rom(types),
    }
}

// ===========================================================================
// Building defaults
// ===========================================================================

fn default_struct_variant_at(types: &Types, struct_id: usize, variant_id: usize, Ghost(depth): Ghost<nat>) -> (r: Cell)
    requires
        depth > 0,
        struct_id < types@.types.len(),
        variant_id < types@.types[struct_id as int].variants.len(),
        spec_fields_finite(
            types@,
            types@.types[struct_id as int].variants[variant_id as int].fields,
            (depth - 1) as nat,
        ),
    ensures
        r@ == spec_default_struct_variant(types@, struct_id, variant_id, depth),
    decreases depth, 0int,
{
    let fields = &types.types[struct_id].variants[variant_id].fields;
    let ghost fm = types@.types[struct_id as int].variants[variant_id as int].fields;
    let ghost target = spec_field_cells(types@, struct_id, variant_id, (depth - 1) as nat);
    assert(fm.len() == fields@.len());
    let mut contents: Vec<Cell> = Vec::new();
    let mut i: usize = 0;
    while i < fields.len()
        invariant
            fm == fields@.map_values(|f: FieldDef| f@),
            target == spec_field_cells(types@, struct_id, variant_id, (depth - 1) as nat),
            fm == types@.types[struct_id as int].variants[variant_id as int].fields,
            spec_fields_finite(types@, fm, (depth - 1) as nat),
            depth > 0,
            i <= fields@.len(),
            contents@.len() == i,
            forall|j: int| 0 <= j < i ==> #[trigger] cell_view(contents@[j]) == target[j],
        decreases fields@.len() - i,
    {
        assert(fm[i as int] == fields@[i as int]@);
        let v = default_field_at(types, &fields[i], Ghost((depth - 1) as nat));
        let c = Cell::Field(FieldVal { struct_id, variant_id, field_id: i, value: Box::new(v) });
        contents.push(c);
        i = i + 1;
    }
    proof {
        assert(contents_view(contents@) =~= target) by {
            assert forall|j: int| 0 <= j < contents@.len() implies contents_view(contents@)[j]
                == target[j] by {
                assert(cell_view(contents@[j]) == target[j]);
            }
        }
    }
    let n = contents.len();
    let grid = if n == 0 {
        None
    } else {
        let t = Tree { contents, width: 1, height: n };
        assert(t@ == TreeM { contents: target, width: 1, height: n });
        Some(Box::new(Cell::Tree(t)))
    };
    let sv = StructVal { struct_id, variant_id, grid };
    assert(sv@.grid == (if target.len() == 0 {
        None
    } else {
        Some(Box::new(CellM::Tree(TreeM { contents: target, width: 1, height: target.len() as usize })))
    }));
    Cell::Struct(sv)
}

fn default_value_at(types: &Types, v: CellValue, Ghost(depth): Ghost<nat>) -> (r: Cell)
    requires
        v matches CellValue::Struct(n) ==> spec_finite(types@, n as int, depth),
    ensures
        r@ == spec_default_value(types@, v, depth),
    decreases depth, 1int,
{
    match v {
        CellValue::Symbol => Cell::symbol(),
        CellValue::Struct(n) => {
            proof {
                let f0 = types@.types[n as int].variants[0].fields;
                assert forall|fi: int| 0 <= fi < f0.len() implies match #[trigger] f0[fi] {
                    FieldDefM { value: CellValue::Struct(m), is_tree: false, .. } => spec_finite(
                        types@,
                        m as int,
                        (depth - 1) as nat,
                    ),
                    _ => true,
                } by {
                    assert(f0[fi] == types@.types[n as int].variants[0].fields[fi]);
                }
            }
            default_struct_variant_at(types, n, 0, Ghost(depth))
        },
    }
}

fn default_field_at(types: &Types, fd: &FieldDef, Ghost(depth): Ghost<nat>) -> (r: Cell)
    requires
        !fd.is_tree ==> (fd.value matches CellValue::Struct(n) ==> spec_finite(types@, n as int, depth)),
    ensures
        r@ == spec_default_field(types@, fd@, depth),
    decreases depth, 2int,
{
    if fd.is_tree {
        Tree::any_default()
    } else {
        default_value_at(types, fd.value, Ghost(depth))
    }
}

impl Tree {
    /// The default tree: a 1x1 grid holding one empty cell.
    pub fn any_default() -> (r: Cell)
        ensures
            r@ == spec_any_default(),
    {
        let t = Tree { contents: vec![Cell::Empty], width: 1, height: 1 };
        proof {
            assert(t.contents@ == seq![Cell::Empty]);
            assert(contents_view(t.contents@) =~= seq![CellM::Empty]);
            assert(t@ == TreeM { contents: seq![CellM::Empty], width: 1, height: 1 });
        }
        Cell::Tree(t)
    }
}

impl FieldDef {
    /// The default of this field: the default tree for a tree field, else
    /// the default of its value type.
    pub fn default(&self, types: &Types) -> (r: Cell)
        requires
            !self.is_tree ==> (self.value matches CellValue::Struct(n) ==> spec_finite(
                types@,
                n as int,
                spec_depth(types@),
            )),
        ensures
            r@ == spec_default_field(types@, self@, spec_depth(types@)),
    {
        default_field_at(types, self, Ghost(spec_depth(types@)))
    }
}

impl CellValue {
    /// The default of a value type: an empty symbol, or variant 0 of the
    /// struct.
    pub fn default(&self, types: &Types) -> (r: Cell)
        requires
            *self matches CellValue::Struct(n) ==> spec_finite(types@, n as int, spec_depth(types@)),
        ensures
            r@ == spec_default_value(types@, *self, spec_depth(types@)),
    {
        default_value_at(types, *self, Ghost(spec_depth(types@)))
    }
}

impl Types {
    /// The default instance of variant `variant_id` of struct `struct_id`:
    /// each of the variant's fields, in order, holding its default.
    pub fn default_struct_variant(&self, struct_id: usize, variant_id: usize) -> (r: Cell)
        requires
            struct_id < self@.types.len(),
            variant_id < self@.types[struct_id as int].variants.len(),
            spec_fields_finite(
                self@,
                self@.types[struct_id as int].variants[variant_id as int].fields,
                (spec_depth(self@) - 1) as nat,
            ),
        ensures
            r@ == spec_default_struct_variant(self@, struct_id, variant_id, spec_depth(self@)),
    {
        default_struct_variant_at(self, struct_id, variant_id, Ghost(spec_depth(self@)))
    }

    /// The default instance of struct `n`: its variant 0.
    pub fn default_struct(&self, n: usize) -> (r: Cell)
        requires
            spec_finite(self@, n as int, spec_depth(self@)),
        ensures
            r@ == spec_default_struct_variant(self@, n, 0, spec_depth(self@)),
    {
        let d = self.types.len();
        proof {
            let f0 = self@.types[n as int].variants[0].fields;
            assert forall|fi: int| 0 <= fi < f0.len() implies match #[trigger] f0[fi] {
                FieldDefM { value: CellValue::Struct(m), is_tree: false, .. } => spec_finite(
                    self@,
                    m as int,
                    (spec_depth(self@) - 1) as nat,
                ),
                _ => true,
            } by {
                assert(f0[fi] == self@.types[n as int].variants[0].fields[fi]);
            }
        }
        self.default_struct_variant(n, 0)
    }
}

/// Every struct is at most as wide as the widest.
pub(crate) proof fn lemma_max_variants(structs: Seq<super::StructDefM>, i: int)
    requires
        0 <= i < structs.len(),
    ensures
        structs[i].variants.len() <= spec_max_variants(structs),
    decreases structs.len(),
{
    if i < structs.len() - 1 {
        lemma_max_variants(structs.drop_last(), i);
    }
}

/// Whether the variant-0 defaults below struct `sid` nest at most `depth`
/// deep.
fn finite(types: &Types, sid: usize, depth: usize) -> (r: bool)
    ensures
        r == spec_finite(types@, sid as int, depth as nat),
    decreases depth,
{
    if depth == 0 || sid >= types.types.len() {
        return false;
    }
    let sd = &types.types[sid];
    if sd.variants.len() == 0 {
        assert(types@.types[sid as int].variants.len() == 0);
        return false;
    }
    let fields = &sd.variants[0].fields;
    let ghost fm = types@.types[sid as int].variants[0].fields;
    assert(fm == fields@.map_values(|f: FieldDef| f@));
    let mut i: usize = 0;
    while i < fields.len()
        invariant
            fm == types@.types[sid as int].variants[0].fields,
            fm == fields@.map_values(|f: FieldDef| f@),
            depth > 0,
            i <= fields@.len(),
            forall|fi: int|
                #![trigger fm[fi]]
                0 <= fi < i ==> match fm[fi] {
                    FieldDefM { value: CellValue::Struct(n), is_tree: false, .. } => spec_finite(
                        types@,
                        n as int,
                        (depth - 1) as nat,
                    ),
                    _ => true,
                },
        decreases fields@.len() - i,
    {
        let f = &fields[i];
        assert(fm[i as int] == f@);
        if !f.is_tree {
            match f.value {
                CellValue::Struct(n) => {
                    if !finite(types, n, depth - 1) {
                        return false;
                    }
                },
                CellValue::Symbol => {},
            }
        }
        i = i + 1;
    }
    true
}

/// Whether the defaults of these fields nest at most `depth` deep.
fn fields_finite(types: &Types, fields: &Vec<FieldDef>, depth: usize) -> (r: bool)
    ensures
        r == spec_fields_finite(types@, fields@.map_values(|f: FieldDef| f@), depth as nat),
{
    let ghost fm = fields@.map_values(|f: FieldDef| f@);
    let mut i: usize = 0;
    while i < fields.len()
        invariant
            fm == fields@.map_values(|f: FieldDef| f@),
            i <= fields@.len(),
            forall|fi: int|
                #![trigger fm[fi]]
                0 <= fi < i ==> match fm[fi] {
                    FieldDefM { value: CellValue::Struct(n), is_tree: false, .. } => spec_finite(
                        types@,
                        n as int,
                        depth as nat,
                    ),
                    _ => true,
                },
        decreases fields@.len() - i,
    {
        let f = &fields[i];
        assert(fm[i as int] == f@);
        if !f.is_tree {
            match f.value {
                CellValue::Struct(n) => {
                    if !finite(types, n, depth) {
                        return false;
                    }
                },
                CellValue::Symbol => {},
            }
        }
        i = i + 1;
    }
    true
}

/// Whether a new document can be built over `types`: every default nests
/// finitely and the palette fits in memory.
pub fn new_ok(types: &Types) -> (r: bool)
    ensures
        r == spec_new_ok(types@),
{
    let ghost tm = types@;
    let n = types.types.len();
    let height = match n.checked_add(2) {
        Some(h) => h,
        None => {
            proof {
                let w = spec_rom_width(tm);
                if w >= 1 {
                    assert(w * (tm.types.len() + 2) >= tm.types.len() + 2) by (nonlinear_arith)
                        requires
                            w >= 1,
                    ;
                }
            }
            return false;
        },
    };
    let depth = n + 1;
    if !types.rim.is_tree {
        match types.rim.value {
            CellValue::Struct(m) => {
                if !finite(types, m, depth) {
                    return false;
                }
            },
            CellValue::Symbol => {},
        }
    }
    let mut width: usize = 0;
    let mut sid: usize = 0;
    while sid < n
        invariant
            n == tm.types.len(),
            tm == types@,
            depth == n + 1,
            sid <= n,
            width == spec_max_variants(tm.types.take(sid as int)),
            forall|s2: int, vid: int|
                #![trigger tm.types[s2].variants[vid]]
                0 <= s2 < sid && 0 <= vid < tm.types[s2].variants.len() ==> spec_fields_finite(
                    tm,
                    tm.types[s2].variants[vid].fields,
                    (spec_depth(tm) - 1) as nat,
                ),
        decreases n - sid,
    {
        let sd = &types.types[sid];
        assert(tm.types[sid as int] == sd@);
        let nv = sd.variants.len();
        let mut vid: usize = 0;
        while vid < nv
            invariant
                n == tm.types.len(),
                tm == types@,
                depth == n + 1,
                sid < n,
                tm.types[sid as int] == sd@,
                nv == sd.variants@.len(),
                vid <= nv,
                forall|s2: int, v2: int|
                    #![trigger tm.types[s2].variants[v2]]
                    0 <= s2 < sid && 0 <= v2 < tm.types[s2].variants.len() ==> spec_fields_finite(
                        tm,
                        tm.types[s2].variants[v2].fields,
                        (spec_depth(tm) - 1) as nat,
                    ),
                forall|v2: int|
                    #![trigger tm.types[sid as int].variants[v2]]
                    0 <= v2 < vid ==> spec_fields_finite(
                        tm,
                        tm.types[sid as int].variants[v2].fields,
                        (spec_depth(tm) - 1) as nat,
                    ),
            decreases nv - vid,
        {
            assert(tm.types[sid as int].variants[vid as int] == sd.variants@[vid as int]@);
            if !fields_finite(types, &sd.variants[vid].fields, n) {
                assert(tm.types[sid as int].variants[vid as int] == tm.types[sid as int].variants[vid as int]);
                return false;
            }
            vid = vid + 1;
        }
        proof {
            assert(tm.types.take(sid + 1).drop_last() =~= tm.types.take(sid as int));
        }
        if nv > width {
            width = nv;
        }
        sid = sid + 1;
    }
    if n == 0 {
        width = 1;
    }
    proof {
        assert(tm.types.take(n as int) =~= tm.types);
    }
    if width == 0 {
        return false;
    }
    width.checked_mul(height).is_some()
}

/// What a new document needs of its types: every default it builds nests
/// finitely, the palette has a column, and its cells fit in memory.
pub open spec fn spec_new_ok(types: TypesM) -> bool {
    &&& (!types.rim.is_tree ==> (types.rim.value matches CellValue::Struct(n) ==> spec_finite(
        types,
        n as int,
        spec_depth(types),
    )))
    &&& forall|sid: int, vid: int|
        #![trigger types.types[sid].variants[vid]]
        0 <= sid < types.types.len() && 0 <= vid < types.types[sid].variants.len()
            ==> spec_fields_finite(
            types,
            types.types[sid].variants[vid].fields,
            (spec_depth(types) - 1) as nat,
        )
    &&& spec_rom_width(types) >= 1
    &&& spec_rom_width(types) * (types.types.len() + 2) <= usize::MAX
}

impl Document {
    /// A new document: Rim the default of the root field, Ram the default
    /// tree, Rom the palette of every struct variant's default, the default
    /// tree and an empty symbol.
    pub fn new(types: &Types) -> (r: Self)
        requires
            spec_new_ok(types@),
        ensures
            r@ == spec_new(types@),
    {
        broadcast use super::group_cell_view;

        let ghost tm = types@;
        let n = types.types.len();
        let mut width: usize = 0;
        let mut i: usize = 0;
        while i < n
            invariant
                n == types@.types.len(),
                tm == types@,
                i <= n,
                width == spec_max_variants(tm.types.take(i as int)),
            decreases n - i,
        {
            let v = types.types[i].variants.len();
            proof {
                assert(tm.types.take(i + 1).drop_last() =~= tm.types.take(i as int));
                assert(tm.types[i as int].variants.len() == v);
            }
            if v > width {
                width = v;
            }
            i = i + 1;
        }
        if n == 0 {
            width = 1;
        }
        proof {
            assert(tm.types.take(n as int) =~= tm.types);
            assert(width == spec_rom_width(tm));
        }
        assert(width * (n + 2) <= usize::MAX);
        assert(n + 2 <= width * (n + 2)) by (nonlinear_arith)
            requires
                width >= 1,
        ;
        let height = n + 2;
        let ghost w = width as nat;
        let mut contents: Vec<Cell> = Vec::new();
        let mut sid: usize = 0;
        while sid < n
            invariant
                n == tm.types.len(),
                tm == types@,
                spec_new_ok(tm),
                width == spec_rom_width(tm),
                w == width as nat,
                sid <= n,
                contents_view(contents@) == spec_rom_rows(tm, w, sid as nat),
            decreases n - sid,
        {
            let variants = types.types[sid].variants.len();
            proof {
                lemma_max_variants(tm.types, sid as int);
            }
            let mut vid: usize = 0;
            while vid < variants
                invariant
                    n == tm.types.len(),
                    tm == types@,
                    spec_new_ok(tm),
                    sid < n,
                    variants == tm.types[sid as int].variants.len(),
                    vid <= variants,
                    contents_view(contents@) == spec_rom_rows(tm, w, sid as nat) + Seq::new(
                        vid as nat,
                        |c: int| spec_rom_cell(tm, sid as int, c),
                    ),
                decreases variants - vid,
            {
                proof {
                    assert(tm.types[sid as int].variants[vid as int] == tm.types[sid as int].variants[vid as int]);
                }
                let c = types.default_struct_variant(sid, vid);
                contents.push(c);
                proof {
                    assert(spec_rom_rows(tm, w, sid as nat) + Seq::new(
                        (vid + 1) as nat,
                        |c: int| spec_rom_cell(tm, sid as int, c),
                    ) =~= (spec_rom_rows(tm, w, sid as nat) + Seq::new(
                        vid as nat,
                        |c: int| spec_rom_cell(tm, sid as int, c),
                    )).push(spec_rom_cell(tm, sid as int, vid as int)));
                }
                vid = vid + 1;
            }
            let mut k: usize = variants;
            while k < width
                invariant
                    n == tm.types.len(),
                    sid < n,
                    variants == tm.types[sid as int].variants.len(),
                    variants <= k <= width,
                    w == width as nat,
                    contents_view(contents@) == spec_rom_rows(tm, w, sid as nat) + Seq::new(
                        k as nat,
                        |c: int| spec_rom_cell(tm, sid as int, c),
                    ),
                decreases width - k,
            {
                contents.push(Cell::Empty);
                proof {
                    assert(spec_rom_rows(tm, w, sid as nat) + Seq::new(
                        (k + 1) as nat,
                        |c: int| spec_rom_cell(tm, sid as int, c),
                    ) =~= (spec_rom_rows(tm, w, sid as nat) + Seq::new(
                        k as nat,
                        |c: int| spec_rom_cell(tm, sid as int, c),
                    )).push(spec_rom_cell(tm, sid as int, k as int)));
                }
                k = k + 1;
            }
            proof {
                assert(spec_rom_rows(tm, w, (sid + 1) as nat) == spec_rom_rows(tm, w, sid as nat)
                    + Seq::new(w, |c: int| spec_rom_cell(tm, sid as int, c)));
            }
            sid = sid + 1;
        }
        let mut row: usize = n;
        while row < height
            invariant
                n == tm.types.len(),
                height == n + 2,
                n <= row <= height,
                width >= 1,
                w == width as nat,
                contents_view(contents@) == spec_rom_rows(tm, w, row as nat),
            decreases height - row,
        {
            let first = if row == n {
                Tree::any_default()
            } else {
                Cell::symbol()
            };
            contents.push(first);
            proof {
                assert(spec_rom_rows(tm, w, row as nat) + Seq::new(
                    1,
                    |c: int| spec_rom_cell(tm, row as int, c),
                ) =~= spec_rom_rows(tm, w, row as nat).push(spec_rom_cell(tm, row as int, 0)));
            }
            let mut k: usize = 1;
            while k < width
                invariant
                    n == tm.types.len(),
                    n <= row < height,
                    height == n + 2,
                    1 <= k <= width,
                    w == width as nat,
                    contents_view(contents@) == spec_rom_rows(tm, w, row as nat) + Seq::new(
                        k as nat,
                        |c: int| spec_rom_cell(tm, row as int, c),
                    ),
                decreases width - k,
            {
                contents.push(Cell::Empty);
                proof {
                    assert(spec_rom_rows(tm, w, row as nat) + Seq::new(
                        (k + 1) as nat,
                        |c: int| spec_rom_cell(tm, row as int, c),
                    ) =~= (spec_rom_rows(tm, w, row as nat) + Seq::new(
                        k as nat,
                        |c: int| spec_rom_cell(tm, row as int, c),
                    )).push(spec_rom_cell(tm, row as int, k as int)));
                }
                k = k + 1;
            }
            row = row + 1;
        }
        let rom_tree = Tree { contents, width, height };
        let rim = types.rim.default(types);
        let ram = Tree::any_default();
        Document { rim, ram, rom: Cell::Tree(rom_tree) }
    }
}

} // verus!
