//! Defaults, flatten, and semantic equality.

use vstd::prelude::*;

use super::{
    CellContent, ContentM, FieldDef, FieldDefM, Grid, GridM, LeafM, LeafValue, StructInstance,
    StructM, TypeRef, content_view, leaf_view, opt_view,
};

verus! {

// ===========================================================================
// Defaults
// ===========================================================================

/// The default value of a value type: an empty-string `Symbol`, or a
/// variant-0 `Struct` with no field cells.
pub open spec fn spec_default_value(elem: TypeRef) -> ContentM {
    match elem {
        TypeRef::Symbol => ContentM::Value(LeafM::Symbol(Seq::empty())),
        TypeRef::Struct(id) => ContentM::Value(
            LeafM::Struct(StructM { struct_id: id, variant: 0, fields: Seq::empty() }),
        ),
    }
}

/// The default tree: a 1x1 grid holding one empty cell.
pub open spec fn spec_default_tree() -> ContentM {
    ContentM::Tree(GridM { cells: seq![None], width: 1, height: 1 })
}

/// The default content for a field.
pub open spec fn spec_default_content(field: FieldDefM) -> ContentM {
    if field.is_tree {
        spec_default_tree()
    } else {
        spec_default_value(field.elem)
    }
}

/// The default value of a value type: an empty-string `Symbol`, or a
/// variant-0 `Struct`.
pub fn default_value(elem: TypeRef) -> (r: CellContent)
    ensures
        r@ == spec_default_value(elem),
{
    match elem {
        TypeRef::Symbol => {
            let r = CellContent::Value(LeafValue::Symbol(String::new()));
            proof {
                assert(r@ == spec_default_value(elem));
            }
            r
        },
        TypeRef::Struct(id) => {
            let r = CellContent::Value(
                LeafValue::Struct(StructInstance { struct_id: id, variant: 0, fields: Vec::new() }),
            );
            proof {
                assert(super::fields_view(Seq::<CellContent>::empty()) =~= Seq::<ContentM>::empty());
            }
            r
        },
    }
}

/// The default tree: a 1x1 grid holding one empty cell.
pub fn default_tree() -> (r: CellContent)
    ensures
        r@ == spec_default_tree(),
{
    let r = CellContent::Tree(Grid::single(None));
    proof {
        assert(super::cells_view(seq![None::<CellContent>]) =~= seq![None::<ContentM>]);
    }
    r
}

/// The default content for a field: a default tree if `is_tree`, else a
/// default value.
pub fn default_content(field: &FieldDef) -> (r: CellContent)
    ensures
        r@ == spec_default_content(field@),
{
    if field.is_tree {
        default_tree()
    } else {
        default_value(field.elem)
    }
}

// ===========================================================================
// Flatten
// ===========================================================================

/// The flatten of a content: its values in grid-axis row-major order. A
/// struct is one element; its fields are not descended.
pub open spec fn spec_flatten(c: ContentM) -> Seq<LeafM>
    decreases c,
{
    match c {
        ContentM::Value(v) => seq![v],
        ContentM::Tree(g) => spec_flatten_cells(g.cells),
    }
}

/// The flatten of a sequence of grid cells; empty cells contribute nothing.
pub open spec fn spec_flatten_cells(s: Seq<Option<ContentM>>) -> Seq<LeafM>
    decreases s,
{
    if s.len() == 0 {
        Seq::empty()
    } else {
        spec_flatten_cells(s.drop_last()) + match s.last() {
            None => Seq::empty(),
            Some(c) => spec_flatten(c),
        }
    }
}

pub open spec fn refs_view(s: Seq<&LeafValue>) -> Seq<LeafM> {
    s.map_values(|r: &LeafValue| leaf_view(*r))
}

/// The flatten of a content: its values, in grid-axis row-major order,
/// appended to `out`. Does not descend the field axis.
pub fn flatten<'a>(content: &'a CellContent, out: &mut Vec<&'a LeafValue>)
    ensures
        refs_view(final(out)@) == refs_view(old(out)@) + spec_flatten(content@),
    decreases content,
{
    match content {
        CellContent::Value(v) => {
            let ghost before = out@;
            out.push(v);
            proof {
                assert(refs_view(out@) =~= refs_view(before) + seq![leaf_view(*v)]);
            }
        },
        CellContent::Tree(grid) => {
            let cells = &grid.cells;
            let n = cells.len();
            let ghost before = refs_view(out@);
            let ghost cv = super::cells_view(cells@);
            let mut i: usize = 0;
            while i < n
                invariant
                    n == cells@.len(),
                    cv == super::cells_view(cells@),
                    i <= n,
                    refs_view(out@) == before + spec_flatten_cells(cv.take(i as int)),
                    forall|j: int| 0 <= j < n ==> decreases_to!(content => cells@[j]),
                decreases n - i,
            {
                proof {
                    assert(cv.take(i + 1).drop_last() =~= cv.take(i as int));
                    assert(cv.take(i + 1).last() == cv[i as int]);
                }
                match &cells[i] {
                    Some(c) => {
                        proof {
                            assert(decreases_to!(content => cells@[i as int]));
                        }
                        flatten(c, out);
                        proof {
                            assert(refs_view(out@) =~= before + spec_flatten_cells(
                                cv.take(i + 1),
                            ));
                        }
                    },
                    None => {
                        assert(refs_view(out@) =~= before + spec_flatten_cells(cv.take(i + 1)));
                    },
                }
                i = i + 1;
            }
            proof {
                assert(cv.take(n as int) =~= cv);
            }
        },
    }
}

// ===========================================================================
// Heights — the termination measure of semantic equality
// ===========================================================================

pub open spec fn content_height(c: ContentM) -> nat
    decreases c,
{
    match c {
        ContentM::Value(v) => 1 + leaf_height(v),
        ContentM::Tree(g) => 1 + cells_height(g.cells),
    }
}

pub open spec fn leaf_height(v: LeafM) -> nat
    decreases v,
{
    match v {
        LeafM::Symbol(_) => 0,
        LeafM::Struct(si) => 1 + fields_height(si.fields),
    }
}

pub open spec fn fields_height(s: Seq<ContentM>) -> nat
    decreases s,
{
    if s.len() == 0 {
        0
    } else {
        let a = fields_height(s.drop_last());
        let b = content_height(s.last());
        if a >= b {
            a
        } else {
            b
        }
    }
}

pub open spec fn cells_height(s: Seq<Option<ContentM>>) -> nat
    decreases s,
{
    if s.len() == 0 {
        0
    } else {
        let a = cells_height(s.drop_last());
        let b = match s.last() {
            None => 0,
            Some(c) => content_height(c),
        };
        if a >= b {
            a
        } else {
            b
        }
    }
}

pub proof fn lemma_fields_height(s: Seq<ContentM>, i: int)
    requires
        0 <= i < s.len(),
    ensures
        content_height(s[i]) <= fields_height(s),
    decreases s.len(),
{
    if i < s.len() - 1 {
        lemma_fields_height(s.drop_last(), i);
    }
}

pub proof fn lemma_cells_height(s: Seq<Option<ContentM>>, i: int)
    requires
        0 <= i < s.len(),
        s[i] is Some,
    ensures
        content_height(s[i]->Some_0) <= cells_height(s),
    decreases s.len(),
{
    if i < s.len() - 1 {
        lemma_cells_height(s.drop_last(), i);
    }
}

/// Every element of a flatten is lower than the content it came from.
pub proof fn lemma_flatten_height(c: ContentM)
    ensures
        forall|i: int|
            0 <= i < spec_flatten(c).len() ==> leaf_height(#[trigger] spec_flatten(c)[i])
                < content_height(c),
    decreases c,
{
    match c {
        ContentM::Value(v) => {
            assert(spec_flatten(c) == seq![v]);
        },
        ContentM::Tree(g) => {
            lemma_flatten_cells_height(g.cells);
            assert(spec_flatten(c) == spec_flatten_cells(g.cells));
            assert forall|i: int| 0 <= i < spec_flatten(c).len() implies leaf_height(
                #[trigger] spec_flatten(c)[i],
            ) < content_height(c) by {
                assert(spec_flatten(c)[i] == spec_flatten_cells(g.cells)[i]);
            }
        },
    }
}

pub proof fn lemma_flatten_cells_height(s: Seq<Option<ContentM>>)
    ensures
        forall|i: int|
            0 <= i < spec_flatten_cells(s).len() ==> leaf_height(#[trigger] spec_flatten_cells(s)[i])
                < cells_height(s) + 1,
    decreases s,
{
    if s.len() > 0 {
        lemma_flatten_cells_height(s.drop_last());
        let head = spec_flatten_cells(s.drop_last());
        match s.last() {
            None => {
                assert(spec_flatten_cells(s) =~= head);
                assert forall|i: int| 0 <= i < spec_flatten_cells(s).len() implies leaf_height(
                    #[trigger] spec_flatten_cells(s)[i],
                ) < cells_height(s) + 1 by {
                    assert(spec_flatten_cells(s)[i] == head[i]);
                }
            },
            Some(c) => {
                lemma_flatten_height(c);
                let tail = spec_flatten(c);
                assert(spec_flatten_cells(s) == head + tail);
                assert forall|i: int| 0 <= i < spec_flatten_cells(s).len() implies leaf_height(
                    #[trigger] spec_flatten_cells(s)[i],
                ) < cells_height(s) + 1 by {
                    if i < head.len() {
                        assert(spec_flatten_cells(s)[i] == head[i]);
                    } else {
                        assert(spec_flatten_cells(s)[i] == tail[i - head.len()]);
                    }
                }
            },
        }
    }
}

// ===========================================================================
// Semantic equality
// ===========================================================================

/// Semantic equality of contents: equal-length flattens whose values are
/// pairwise equal.
pub open spec fn spec_content_eq(a: ContentM, b: ContentM) -> bool
    decreases content_height(a),
    via content_eq_decreases
{
    let fa = spec_flatten(a);
    let fb = spec_flatten(b);
    fa.len() == fb.len() && forall|i: int|
        0 <= i < fa.len() ==> spec_value_eq(#[trigger] fa[i], fb[i])
}

#[via_fn]
proof fn content_eq_decreases(a: ContentM, b: ContentM) {
    lemma_flatten_height(a);
}

/// Semantic equality of values: equal symbols, or structs with the same
/// identifier, variant and number of fields whose fields are pairwise
/// semantically equal.
pub open spec fn spec_value_eq(a: LeafM, b: LeafM) -> bool
    decreases leaf_height(a),
    via value_eq_decreases
{
    match a {
        LeafM::Symbol(x) => b is Symbol && x == b->Symbol_0,
        LeafM::Struct(x) => b is Struct && {
            let y = b->Struct_0;
            &&& x.struct_id == y.struct_id
            &&& x.variant == y.variant
            &&& x.fields.len() == y.fields.len()
            &&& forall|i: int|
                0 <= i < x.fields.len() ==> spec_content_eq(#[trigger] x.fields[i], y.fields[i])
        },
    }
}

#[via_fn]
proof fn value_eq_decreases(a: LeafM, b: LeafM) {
    match a {
        LeafM::Struct(x) => {
            assert forall|i: int| 0 <= i < x.fields.len() implies content_height(x.fields[i])
                < leaf_height(a) by {
                lemma_fields_height(x.fields, i);
            }
        },
        _ => {},
    }
}

/// Semantic equality: equal flattens, with `LeafValue` equality recursing
/// the field axis. Layout-insensitive, unlike the derived `PartialEq`.
pub fn content_eq(a: &CellContent, b: &CellContent) -> (r: bool)
    ensures
        r == spec_content_eq(a@, b@),
    decreases content_height(a@),
{
    let mut fa: Vec<&LeafValue> = Vec::new();
    let mut fb: Vec<&LeafValue> = Vec::new();
    flatten(a, &mut fa);
    flatten(b, &mut fb);
    proof {
        assert(refs_view(Seq::<&LeafValue>::empty()) =~= Seq::<LeafM>::empty());
        assert(refs_view(fa@) =~= spec_flatten(a@));
        assert(refs_view(fb@) =~= spec_flatten(b@));
        lemma_flatten_height(a@);
    }
    if fa.len() != fb.len() {
        return false;
    }
    let n = fa.len();
    let mut i: usize = 0;
    while i < n
        invariant
            n == fa@.len(),
            n == fb@.len(),
            i <= n,
            refs_view(fa@) == spec_flatten(a@),
            refs_view(fb@) == spec_flatten(b@),
            forall|j: int|
                0 <= j < n ==> leaf_height(#[trigger] spec_flatten(a@)[j]) < content_height(a@),
            forall|j: int| 0 <= j < i ==> spec_value_eq(#[trigger] spec_flatten(a@)[j], spec_flatten(b@)[j]),
        decreases n - i,
    {
        let x: &LeafValue = fa[i];
        let y: &LeafValue = fb[i];
        proof {
            assert(leaf_view(*x) == spec_flatten(a@)[i as int]);
            assert(leaf_view(*y) == spec_flatten(b@)[i as int]);
        }
        if !value_eq(x, y) {
            return false;
        }
        i = i + 1;
    }
    true
}

pub fn value_eq(a: &LeafValue, b: &LeafValue) -> (r: bool)
    ensures
        r == spec_value_eq(a@, b@),
    decreases leaf_height(a@),
{
    match (a, b) {
        (LeafValue::Symbol(x), LeafValue::Symbol(y)) => *x == *y,
        (LeafValue::Struct(x), LeafValue::Struct(y)) => {
            if x.struct_id != y.struct_id || x.variant != y.variant || x.fields.len()
                != y.fields.len() {
                return false;
            }
            let n = x.fields.len();
            let ghost xf = super::fields_view(x.fields@);
            let ghost yf = super::fields_view(y.fields@);
            let mut i: usize = 0;
            while i < n
                invariant
                    n == x.fields@.len(),
                    n == y.fields@.len(),
                    xf == super::fields_view(x.fields@),
                    yf == super::fields_view(y.fields@),
                    i <= n,
                    leaf_height(a@) == 1 + fields_height(xf),
                    a@ == LeafM::Struct(super::struct_view(*x)),
                    b@ == LeafM::Struct(super::struct_view(*y)),
                    x.struct_id == y.struct_id,
                    x.variant == y.variant,
                    forall|j: int| 0 <= j < i ==> spec_content_eq(#[trigger] xf[j], yf[j]),
                decreases n - i,
            {
                proof {
                    lemma_fields_height(xf, i as int);
                }
                if !content_eq(&x.fields[i], &y.fields[i]) {
                    proof {
                        assert(a@ == LeafM::Struct(super::struct_view(*x)));
                        assert(b@ == LeafM::Struct(super::struct_view(*y)));
                        assert(!spec_content_eq(xf[i as int], yf[i as int]));
                    }
                    return false;
                }
                i = i + 1;
            }
            proof {
                assert(a@ == LeafM::Struct(super::struct_view(*x)));
                assert(b@ == LeafM::Struct(super::struct_view(*y)));
                assert(super::struct_view(*x).fields == xf);
            }
            true
        },
        _ => false,
    }
}

/// Semantic equality is reflexive.
pub proof fn lemma_content_eq_reflexive(a: ContentM)
    ensures
        spec_content_eq(a, a),
    decreases content_height(a),
{
    lemma_flatten_height(a);
    let fa = spec_flatten(a);
    assert forall|i: int| 0 <= i < fa.len() implies spec_value_eq(#[trigger] fa[i], fa[i]) by {
        lemma_value_eq_reflexive(fa[i]);
    }
}

/// Semantic equality of values is reflexive.
pub proof fn lemma_value_eq_reflexive(a: LeafM)
    ensures
        spec_value_eq(a, a),
    decreases leaf_height(a),
{
    match a {
        LeafM::Symbol(_) => {},
        LeafM::Struct(x) => {
            assert forall|i: int| 0 <= i < x.fields.len() implies spec_content_eq(
                #[trigger] x.fields[i],
                x.fields[i],
            ) by {
                lemma_fields_height(x.fields, i);
                lemma_content_eq_reflexive(x.fields[i]);
            }
        },
    }
}

/// Semantic equality is symmetric.
pub proof fn lemma_content_eq_symmetric(a: ContentM, b: ContentM)
    requires
        spec_content_eq(a, b),
    ensures
        spec_content_eq(b, a),
    decreases content_height(a),
{
    lemma_flatten_height(a);
    let fa = spec_flatten(a);
    let fb = spec_flatten(b);
    assert forall|i: int| 0 <= i < fb.len() implies spec_value_eq(#[trigger] fb[i], fa[i]) by {
        assert(spec_value_eq(fa[i], fb[i]));
        lemma_value_eq_symmetric(fa[i], fb[i]);
    }
}

/// Semantic equality of values is symmetric.
pub proof fn lemma_value_eq_symmetric(a: LeafM, b: LeafM)
    requires
        spec_value_eq(a, b),
    ensures
        spec_value_eq(b, a),
    decreases leaf_height(a),
{
    match (a, b) {
        (LeafM::Struct(x), LeafM::Struct(y)) => {
            assert forall|i: int| 0 <= i < y.fields.len() implies spec_content_eq(
                #[trigger] y.fields[i],
                x.fields[i],
            ) by {
                assert(spec_content_eq(x.fields[i], y.fields[i]));
                lemma_fields_height(x.fields, i);
                lemma_content_eq_symmetric(x.fields[i], y.fields[i]);
            }
        },
        _ => {},
    }
}


/// Semantic equality is transitive.
pub proof fn lemma_content_eq_transitive(a: ContentM, b: ContentM, c: ContentM)
    requires
        spec_content_eq(a, b),
        spec_content_eq(b, c),
    ensures
        spec_content_eq(a, c),
    decreases content_height(a),
{
    lemma_flatten_height(a);
    let fa = spec_flatten(a);
    let fb = spec_flatten(b);
    let fc = spec_flatten(c);
    assert forall|i: int| 0 <= i < fa.len() implies spec_value_eq(#[trigger] fa[i], fc[i]) by {
        assert(spec_value_eq(fa[i], fb[i]));
        assert(spec_value_eq(fb[i], fc[i]));
        lemma_value_eq_transitive(fa[i], fb[i], fc[i]);
    }
}

/// Semantic equality of values is transitive.
pub proof fn lemma_value_eq_transitive(a: LeafM, b: LeafM, c: LeafM)
    requires
        spec_value_eq(a, b),
        spec_value_eq(b, c),
    ensures
        spec_value_eq(a, c),
    decreases leaf_height(a),
{
    match (a, b, c) {
        (LeafM::Struct(x), LeafM::Struct(y), LeafM::Struct(z)) => {
            assert forall|i: int| 0 <= i < x.fields.len() implies spec_content_eq(
                #[trigger] x.fields[i],
                z.fields[i],
            ) by {
                assert(spec_content_eq(x.fields[i], y.fields[i]));
                assert(spec_content_eq(y.fields[i], z.fields[i]));
                lemma_fields_height(x.fields, i);
                lemma_content_eq_transitive(x.fields[i], y.fields[i], z.fields[i]);
            }
        },
        _ => {},
    }
}

/// A content wrapped alone in a one-cell tree is semantically equal to the
/// content itself: both flatten to the same values.
pub proof fn lemma_single_cell_tree_eq(a: ContentM)
    ensures
        spec_flatten(ContentM::Tree(GridM { cells: seq![Some(a)], width: 1, height: 1 })) == spec_flatten(a),
        spec_content_eq(ContentM::Tree(GridM { cells: seq![Some(a)], width: 1, height: 1 }), a),
        spec_content_eq(a, ContentM::Tree(GridM { cells: seq![Some(a)], width: 1, height: 1 })),
{
    let cells = seq![Some(a)];
    let t = ContentM::Tree(GridM { cells, width: 1, height: 1 });
    assert(cells.drop_last() =~= Seq::<Option<ContentM>>::empty());
    assert(spec_flatten_cells(cells.drop_last()) =~= Seq::<LeafM>::empty());
    assert(spec_flatten(t) =~= spec_flatten(a));
    lemma_content_eq_reflexive(a);
}


/// A value flattens to itself alone; the flatten of two runs of grid cells
/// one after the other is the flatten of the first followed by that of the
/// second, an empty cell contributing nothing.
pub proof fn lemma_flatten_concat(v: LeafM, a: Seq<Option<ContentM>>, b: Seq<Option<ContentM>>)
    ensures
        spec_flatten(ContentM::Value(v)) == seq![v],
        spec_flatten_cells(seq![None]) == Seq::<LeafM>::empty(),
        spec_flatten_cells(a + b) == spec_flatten_cells(a) + spec_flatten_cells(b),
    decreases b.len(),
{
    let one = seq![None::<ContentM>];
    assert(one.drop_last() =~= Seq::<Option<ContentM>>::empty());
    assert(spec_flatten_cells(one.drop_last()) == Seq::<LeafM>::empty());
    assert(one.last() is None);
    assert(spec_flatten_cells(one) =~= Seq::<LeafM>::empty() + Seq::<LeafM>::empty());
    if b.len() == 0 {
        assert(a + b =~= a);
        assert(spec_flatten_cells(a) + Seq::<LeafM>::empty() =~= spec_flatten_cells(a));
    } else {
        assert((a + b).drop_last() =~= a + b.drop_last());
        assert((a + b).last() == b.last());
        lemma_flatten_concat(v, a, b.drop_last());
        let tail = match b.last() {
            None => Seq::<LeafM>::empty(),
            Some(c) => spec_flatten(c),
        };
        assert(spec_flatten_cells(a) + spec_flatten_cells(b.drop_last()) + tail =~= spec_flatten_cells(a) + (
        spec_flatten_cells(b.drop_last()) + tail));
    }
}

} // verus!
