//! What every operation keeps: the integrity of a live document, the
//! constancy of Rom, and the typing of every reachable cell; and what an
//! applied copy leaves in its destinations.

use vstd::prelude::*;

use super::{
    ContentM, DocumentM, FieldDefM, GovM, GridM, LeafM, LocationM, OperationM, PathStep, Region,
    SlotM, StructDefM, StructM, spec_compat, spec_conforms, spec_content_at, spec_gov_root,
    spec_gov_step, spec_gov_walk, spec_gov_walk_ok, spec_governance, spec_governance_ok,
    spec_integrity, spec_location_ok, spec_put, spec_region_root, spec_resolve, spec_slot_at,
    spec_step, spec_tree_ok, spec_validates, spec_value_ok, spec_verified, spec_with_root,
    spec_write, spec_write_all, spec_all_validate, spec_breadth_ok, spec_enclosing, spec_parent,
    spec_finish, spec_schema_ok, spec_type_ok, spec_default_content, spec_fields_default,
    spec_replace_marked, spec_select_variant, spec_edit_symbol, spec_copy, spec_copy_ok,
    spec_copy_dests, spec_apply, spec_apply_ok, spec_mutation_target, HSide, VSide, SelectionM, Outcome,
    spec_add_row, spec_add_column, spec_delete_row, spec_delete_column, spec_add_row_ok,
    spec_add_column_ok, spec_delete_row_ok, spec_delete_column_ok, spec_with_grid,
    spec_insert_row_cells, spec_insert_col_cells, spec_delete_row_cells, spec_delete_col_cells,
    lemma_insert_row_index, lemma_delete_row_index, lemma_insert_col_index, lemma_delete_col_index,
    lemma_insert_col_fill, lemma_insert_col_len, lemma_delete_col_len,
};

verus! {

// ===========================================================================
// Slots along a walk
// ===========================================================================

/// A slot whose content (if any) is well-formed and fits the governance.
pub open spec fn spec_slot_ok(schema: Seq<StructDefM>, slot: SlotM, gov: GovM) -> bool {
    match slot.content() {
        None => true,
        Some(c) => spec_verified(c, schema) && spec_compat(c, gov),
    }
}

/// One step from a well-formed, well-typed content reaches a well-formed,
/// well-typed slot under the stepped governance.
proof fn lemma_step_ok(schema: Seq<StructDefM>, gov: GovM, c: ContentM, step: PathStep)
    requires
        spec_verified(c, schema),
        spec_compat(c, gov),
        spec_step(c, step) is Some,
    ensures
        spec_slot_ok(schema, spec_step(c, step)->Some_0, spec_gov_step(schema, gov, c, step)),
        match step {
            PathStep::Field { index } => match c {
                ContentM::Value(LeafM::Struct(si)) => {
                    &&& si.struct_id < schema.len()
                    &&& si.variant < schema[si.struct_id as int].variants.len()
                    &&& index < schema[si.struct_id as int].variants[si.variant as int].fields.len()
                },
                _ => false,
            },
            PathStep::Grid { .. } => match gov {
                GovM::Field(fd) => fd.is_tree,
                _ => true,
            },
        },
{
    match step {
        PathStep::Field { index } => {
            if let ContentM::Value(LeafM::Struct(si)) = c {
                assert(si.fields[index as int] == si.fields[index as int]);
            }
        },
        PathStep::Grid { row, col } => {
            if let ContentM::Tree(g) = c {
                let k = row * g.width + col;
                assert(g.cells[k] == g.cells[k]);
            }
        },
    }
}

/// Walking a resolvable path from a well-formed, well-typed slot: the
/// governance walk succeeds, and the slot reached is well-formed and fits
/// the governance the walk computes.
pub proof fn lemma_walk_ok(schema: Seq<StructDefM>, gov: GovM, slot: SlotM, path: Seq<PathStep>)
    requires
        spec_slot_ok(schema, slot, gov),
        spec_resolve(slot, path) is Some,
    ensures
        spec_gov_walk_ok(schema, gov, slot, path),
        spec_slot_ok(schema, spec_resolve(slot, path)->Some_0, spec_gov_walk(schema, gov, slot, path)),
    decreases path.len(),
{
    if path.len() > 0 {
        let c = slot.content()->Some_0;
        lemma_step_ok(schema, gov, c, path[0]);
        let next = spec_step(c, path[0])->Some_0;
        lemma_walk_ok(schema, spec_gov_step(schema, gov, c, path[0]), next, path.drop_first());
    }
}

// ===========================================================================
// Writing into a slot
// ===========================================================================

/// The slot at the end of a resolvable path is a field slot.
pub open spec fn spec_ends_in_field(slot: SlotM, path: Seq<PathStep>) -> bool {
    spec_resolve(slot, path)->Some_0 is Field
}

/// Writing a well-formed value that fits the governance of the slot it is
/// written to keeps a well-formed, well-typed content so. A field slot
/// takes only a value.
pub proof fn lemma_put_ok(
    schema: Seq<StructDefM>,
    gov: GovM,
    c: ContentM,
    path: Seq<PathStep>,
    v: Option<ContentM>,
)
    requires
        spec_verified(c, schema),
        spec_compat(c, gov),
        spec_resolve(SlotM::Field(c), path) is Some,
        spec_ends_in_field(SlotM::Field(c), path) ==> v is Some,
        match v {
            Some(x) => spec_verified(x, schema) && spec_compat(
                x,
                spec_gov_walk(schema, gov, SlotM::Field(c), path),
            ),
            None => true,
        },
    ensures
        spec_verified(spec_put(c, path, v), schema),
        spec_compat(spec_put(c, path, v), gov),
    decreases path.len(),
{
    if path.len() > 0 {
        let rest = path.drop_first();
        lemma_step_ok(schema, gov, c, path[0]);
        match path[0] {
            PathStep::Field { index } => {
                let si = c->Value_0->Struct_0;
                let fd = schema[si.struct_id as int].variants[si.variant as int].fields[index as int];
                let sub = si.fields[index as int];
                lemma_put_ok(schema, GovM::Field(fd), sub, rest, v);
                let si2 = StructM {
                    fields: si.fields.update(index as int, spec_put(sub, rest, v)),
                    ..si
                };
                assert(spec_put(c, path, v) == ContentM::Value(LeafM::Struct(si2)));
                assert forall|i: int| 0 <= i < si2.fields.len() implies spec_conforms(
                    #[trigger] si2.fields[i],
                    schema[si2.struct_id as int].variants[si2.variant as int].fields[i],
                ) && spec_verified(si2.fields[i], schema) by {
                    if i != index {
                        assert(si2.fields[i] == si.fields[i]);
                    }
                }
            },
            PathStep::Grid { row, col } => {
                let g = c->Tree_0;
                let k = row * g.width + col;
                let gov2 = spec_gov_step(schema, gov, c, path[0]);
                let nv = if rest.len() == 0 {
                    v
                } else {
                    let inner = g.cells[k]->Some_0;
                    assert(spec_resolve(SlotM::Grid(g.cells[k]), rest) == spec_resolve(
                        SlotM::Field(inner),
                        rest,
                    ));
                    assert(spec_gov_walk(schema, gov2, SlotM::Grid(g.cells[k]), rest)
                        == spec_gov_walk(schema, gov2, SlotM::Field(inner), rest));
                    lemma_put_ok(schema, gov2, inner, rest, v);
                    Some(spec_put(inner, rest, v))
                };
                let g2 = GridM { cells: g.cells.update(k, nv), ..g };
                assert(spec_put(c, path, v) == ContentM::Tree(g2));
                assert forall|i: int| 0 <= i < g2.cells.len() implies match #[trigger] g2.cells[i] {
                    None => true,
                    Some(inner) => spec_verified(inner, schema),
                } by {
                    if i != k {
                        assert(g2.cells[i] == g.cells[i]);
                    }
                }
                assert(spec_verified(ContentM::Tree(g2), schema));
                match gov {
                    GovM::Field(fd) => lemma_update_tree_ok(g, k, nv, fd.elem),
                    GovM::GovernedGridCell(e) => lemma_update_tree_ok(g, k, nv, e),
                    GovM::Ungoverned => {},
                }
            },
        }
    }
}

/// Overwriting one cell of a tree with a cell of the same element kind
/// keeps the tree of that kind.
proof fn lemma_update_tree_ok(g: GridM, k: int, nv: Option<ContentM>, elem: super::TypeRef)
    requires
        0 <= k < g.cells.len(),
        spec_tree_ok(g, elem),
        match nv {
            None => true,
            Some(x) => spec_compat(x, GovM::GovernedGridCell(elem)),
        },
    ensures
        spec_tree_ok(GridM { cells: g.cells.update(k, nv), ..g }, elem),
{
    let g2 = GridM { cells: g.cells.update(k, nv), ..g };
    assert forall|i: int| 0 <= i < g2.cells.len() implies match #[trigger] g2.cells[i] {
        None => true,
        Some(ContentM::Value(lv)) => spec_value_ok(lv, elem),
        Some(ContentM::Tree(sub)) => spec_tree_ok(sub, elem),
    } by {
        if i != k {
            assert(g2.cells[i] == g.cells[i]);
        }
    }
}

// ===========================================================================
// Cells that a write leaves alone
// ===========================================================================

/// The position a step selects inside a content: a field's index, or a grid
/// cell's place in the row-major cell list.
pub open spec fn spec_step_key(c: ContentM, step: PathStep) -> int {
    match step {
        PathStep::Field { index } => index as int,
        PathStep::Grid { row, col } => match c {
            ContentM::Tree(g) => row * g.width + col,
            _ => 0,
        },
    }
}

/// The positions a path selects, step by step, as far as it resolves. Two
/// paths that reach the same cell have the same positions, whatever rows and
/// columns they name.
pub open spec fn spec_keys(slot: SlotM, path: Seq<PathStep>) -> Seq<int>
    decreases path.len(),
{
    if path.len() == 0 {
        Seq::empty()
    } else {
        match slot.content() {
            None => Seq::empty(),
            Some(c) => match spec_step(c, path[0]) {
                None => Seq::empty(),
                Some(next) => seq![spec_step_key(c, path[0])] + spec_keys(next, path.drop_first()),
            },
        }
    }
}

/// `a` is a strict prefix of `b`.
pub open spec fn spec_proper_prefix(a: Seq<int>, b: Seq<int>) -> bool {
    a.len() < b.len() && b.take(a.len() as int) == a
}

proof fn lemma_keys_len(slot: SlotM, path: Seq<PathStep>)
    requires
        spec_resolve(slot, path) is Some,
    ensures
        spec_keys(slot, path).len() == path.len(),
    decreases path.len(),
{
    if path.len() > 0 {
        let c = slot.content()->Some_0;
        lemma_keys_len(spec_step(c, path[0])->Some_0, path.drop_first());
    }
}

proof fn lemma_proper_prefix_tail(a: Seq<int>, b: Seq<int>)
    requires
        a.len() > 0,
        b.len() > 0,
        a[0] == b[0],
        spec_proper_prefix(a.drop_first(), b.drop_first()),
    ensures
        spec_proper_prefix(a, b),
{
    assert(b.take(a.len() as int) =~= a) by {
        assert forall|i: int| 0 <= i < a.len() implies b.take(a.len() as int)[i] == a[i] by {
            if i > 0 {
                assert(b.drop_first().take(a.drop_first().len() as int)[i - 1] == a.drop_first()[i - 1]);
            }
        }
    }
}

/// A path from a grid cell or a field cell walks the same way once it has a
/// step to take: only the content of the starting slot matters.
proof fn lemma_same_content_walk(
    schema: Seq<StructDefM>,
    gov: GovM,
    s1: SlotM,
    s2: SlotM,
    path: Seq<PathStep>,
)
    requires
        path.len() > 0,
        s1.content() == s2.content(),
    ensures
        spec_resolve(s1, path) == spec_resolve(s2, path),
        spec_gov_walk(schema, gov, s1, path) == spec_gov_walk(schema, gov, s2, path),
        spec_keys(s1, path) == spec_keys(s2, path),
{
}

/// Writing at `p` leaves every path `q` that does not pass strictly through
/// the written cell as it was: `q` still resolves, with the same positions
/// and the same governance.
pub proof fn lemma_put_frame(
    schema: Seq<StructDefM>,
    gov: GovM,
    c: ContentM,
    p: Seq<PathStep>,
    v: Option<ContentM>,
    q: Seq<PathStep>,
)
    requires
        spec_resolve(SlotM::Field(c), p) is Some,
        spec_resolve(SlotM::Field(c), q) is Some,
        !spec_proper_prefix(spec_keys(SlotM::Field(c), p), spec_keys(SlotM::Field(c), q)),
    ensures
        spec_resolve(SlotM::Field(spec_put(c, p, v)), q) is Some,
        spec_gov_walk(schema, gov, SlotM::Field(spec_put(c, p, v)), q) == spec_gov_walk(
            schema,
            gov,
            SlotM::Field(c),
            q,
        ),
        spec_keys(SlotM::Field(spec_put(c, p, v)), q) == spec_keys(SlotM::Field(c), q),
    decreases p.len(),
{
    lemma_keys_len(SlotM::Field(c), p);
    lemma_keys_len(SlotM::Field(c), q);
    let c2 = spec_put(c, p, v);
    if p.len() == 0 {
        assert(spec_keys(SlotM::Field(c), p) =~= Seq::<int>::empty());
        if q.len() > 0 {
            assert(spec_keys(SlotM::Field(c), q).take(0) =~= Seq::<int>::empty());
        }
    } else if q.len() > 0 {
        let kp = spec_keys(SlotM::Field(c), p);
        let kq = spec_keys(SlotM::Field(c), q);
        let prest = p.drop_first();
        let qrest = q.drop_first();
        match (p[0], q[0]) {
            (PathStep::Field { index: ip }, PathStep::Field { index: iq }) => {
                let si = c->Value_0->Struct_0;
                let sub_p = si.fields[ip as int];
                let sub_q = si.fields[iq as int];
                let si2 = StructM { fields: si.fields.update(ip as int, spec_put(sub_p, prest, v)), ..si };
                assert(c2 == ContentM::Value(LeafM::Struct(si2)));
                if ip == iq {
                    assert(kp.drop_first() =~= spec_keys(SlotM::Field(sub_p), prest));
                    assert(kq.drop_first() =~= spec_keys(SlotM::Field(sub_p), qrest));
                    if spec_proper_prefix(kp.drop_first(), kq.drop_first()) {
                        lemma_proper_prefix_tail(kp, kq);
                    }
                    lemma_put_frame(schema, spec_gov_step(schema, gov, c, q[0]), sub_p, prest, v, qrest);
                    assert(spec_keys(SlotM::Field(c2), q) =~= spec_keys(SlotM::Field(c), q));
                } else {
                    assert(si2.fields[iq as int] == sub_q);
                    assert(spec_keys(SlotM::Field(c2), q) =~= spec_keys(SlotM::Field(c), q));
                }
            },
            (PathStep::Grid { row: rp, col: cp }, PathStep::Grid { row: rq, col: cq }) => {
                let g = c->Tree_0;
                let k = rp * g.width + cp;
                let kq0 = rq * g.width + cq;
                let nv = if prest.len() == 0 {
                    v
                } else {
                    Some(spec_put(g.cells[k]->Some_0, prest, v))
                };
                let g2 = GridM { cells: g.cells.update(k, nv), ..g };
                assert(spec_step(c, p[0]) == Some(SlotM::Grid(g.cells[k])));
                if prest.len() > 0 {
                    assert(spec_resolve(SlotM::Grid(g.cells[k]), prest) is Some);
                    assert(g.cells[k] is Some);
                }
                assert(c2 == ContentM::Tree(g2));
                assert(spec_step(c, q[0]) == Some(SlotM::Grid(g.cells[kq0])));
                assert(spec_step(c2, q[0]) == Some(SlotM::Grid(g2.cells[kq0])));
                assert(spec_step_key(c2, q[0]) == kq0);
                assert(spec_gov_step(schema, gov, c2, q[0]) == spec_gov_step(schema, gov, c, q[0]));
                if k == kq0 {
                    if qrest.len() > 0 {
                        if prest.len() == 0 {
                            assert(kq.take(kp.len() as int) =~= kp);
                        }
                        let inner = g.cells[k]->Some_0;
                        let gov2 = spec_gov_step(schema, gov, c, q[0]);
                        lemma_same_content_walk(schema, gov2, SlotM::Grid(g.cells[k]), SlotM::Field(inner), prest);
                        lemma_same_content_walk(schema, gov2, SlotM::Grid(g.cells[k]), SlotM::Field(inner), qrest);
                        assert(kp.drop_first() =~= spec_keys(SlotM::Field(inner), prest));
                        assert(kq.drop_first() =~= spec_keys(SlotM::Field(inner), qrest));
                        if spec_proper_prefix(kp.drop_first(), kq.drop_first()) {
                            lemma_proper_prefix_tail(kp, kq);
                        }
                        lemma_put_frame(schema, gov2, inner, prest, v, qrest);
                        let inner2 = spec_put(inner, prest, v);
                        lemma_same_content_walk(schema, gov2, SlotM::Grid(Some(inner2)), SlotM::Field(inner2), qrest);
                        assert(g2.cells[kq0] == Some(inner2));
                        assert(spec_step(c2, q[0]) == Some(SlotM::Grid(Some(inner2))));
                        assert(spec_keys(SlotM::Field(c2), q) == seq![kq0] + spec_keys(
                            SlotM::Field(inner2),
                            qrest,
                        ));
                        assert(spec_keys(SlotM::Field(c), q) == seq![kq0] + spec_keys(
                            SlotM::Field(inner),
                            qrest,
                        ));
                    } else {
                        assert(spec_resolve(SlotM::Grid(g2.cells[kq0]), qrest) is Some);
                        assert(spec_keys(SlotM::Grid(g2.cells[kq0]), qrest) =~= Seq::<int>::empty());
                        assert(spec_keys(SlotM::Grid(g.cells[kq0]), qrest) =~= Seq::<int>::empty());
                        assert(spec_keys(SlotM::Field(c2), q) =~= seq![kq0]);
                        let gs = spec_gov_step(schema, gov, c, q[0]);
                        assert(spec_gov_walk(schema, gs, SlotM::Grid(g2.cells[kq0]), qrest) == gs);
                        assert(spec_gov_walk(schema, gs, SlotM::Grid(g.cells[kq0]), qrest) == gs);
                        assert(spec_gov_walk(schema, gov, SlotM::Field(c2), q) == spec_gov_step(
                            schema,
                            gov,
                            c2,
                            q[0],
                        ));
                        assert(spec_gov_walk(schema, gov, SlotM::Field(c), q) == spec_gov_step(
                            schema,
                            gov,
                            c,
                            q[0],
                        ));
                        assert(spec_keys(SlotM::Field(c), q) =~= seq![kq0]);
                    }
                    assert(spec_keys(SlotM::Field(c2), q) =~= spec_keys(SlotM::Field(c), q));
                } else {
                    assert(g2.cells[kq0] == g.cells[kq0]);
                    assert(spec_keys(SlotM::Field(c2), q) =~= spec_keys(SlotM::Field(c), q));
                }
            },
            _ => {},
        }
    }
}

// ===========================================================================
// What a write leaves to read
// ===========================================================================

/// Writing at `p` and reading at `q`, where neither path passes strictly
/// through the other's cell: the same cell reads back what was written,
/// any other cell reads what it held.
proof fn lemma_put_read(c: ContentM, p: Seq<PathStep>, v: Option<ContentM>, q: Seq<PathStep>)
    requires
        spec_resolve(SlotM::Field(c), p) is Some,
        spec_resolve(SlotM::Field(c), q) is Some,
        spec_ends_in_field(SlotM::Field(c), p) ==> v is Some,
        !spec_proper_prefix(spec_keys(SlotM::Field(c), p), spec_keys(SlotM::Field(c), q)),
        !spec_proper_prefix(spec_keys(SlotM::Field(c), q), spec_keys(SlotM::Field(c), p)),
    ensures
        spec_resolve(SlotM::Field(spec_put(c, p, v)), q) is Some,
        (spec_resolve(SlotM::Field(spec_put(c, p, v)), q)->Some_0).content() == if spec_keys(
            SlotM::Field(c),
            p,
        ) == spec_keys(SlotM::Field(c), q) {
            v
        } else {
            (spec_resolve(SlotM::Field(c), q)->Some_0).content()
        },
    decreases p.len(),
{
    lemma_keys_len(SlotM::Field(c), p);
    lemma_keys_len(SlotM::Field(c), q);
    let kp = spec_keys(SlotM::Field(c), p);
    let kq = spec_keys(SlotM::Field(c), q);
    let c2 = spec_put(c, p, v);
    if p.len() == 0 {
        assert(kp =~= Seq::<int>::empty());
        if q.len() > 0 {
            assert(kq.take(0) =~= kp);
        }
        assert(kq =~= kp);
    } else {
        if q.len() == 0 {
            assert(kq =~= Seq::<int>::empty());
            assert(kp.take(0) =~= kq);
        }
        let prest = p.drop_first();
        let qrest = q.drop_first();
        match (p[0], q[0]) {
            (PathStep::Field { index: ip }, PathStep::Field { index: iq }) => {
                let si = c->Value_0->Struct_0;
                let sub_p = si.fields[ip as int];
                let sub_q = si.fields[iq as int];
                let si2 = StructM { fields: si.fields.update(ip as int, spec_put(sub_p, prest, v)), ..si };
                assert(c2 == ContentM::Value(LeafM::Struct(si2)));
                if ip == iq {
                    assert(kp.drop_first() =~= spec_keys(SlotM::Field(sub_p), prest));
                    assert(kq.drop_first() =~= spec_keys(SlotM::Field(sub_p), qrest));
                    if spec_proper_prefix(kp.drop_first(), kq.drop_first()) {
                        lemma_proper_prefix_tail(kp, kq);
                    }
                    if spec_proper_prefix(kq.drop_first(), kp.drop_first()) {
                        lemma_proper_prefix_tail(kq, kp);
                    }
                    lemma_put_read(sub_p, prest, v, qrest);
                    assert((kp == kq) == (kp.drop_first() == kq.drop_first())) by {
                        if kp.drop_first() =~= kq.drop_first() {
                            assert(kp =~= kq);
                        }
                    }
                } else {
                    assert(si2.fields[iq as int] == sub_q);
                    assert(kp[0] != kq[0]);
                    assert(spec_resolve(SlotM::Field(c2), q) == spec_resolve(SlotM::Field(c), q));
                }
            },
            (PathStep::Grid { row: rp, col: cp }, PathStep::Grid { row: rq, col: cq }) => {
                let g = c->Tree_0;
                let k = rp * g.width + cp;
                let kq0 = rq * g.width + cq;
                let nv = if prest.len() == 0 {
                    v
                } else {
                    Some(spec_put(g.cells[k]->Some_0, prest, v))
                };
                let g2 = GridM { cells: g.cells.update(k, nv), ..g };
                assert(spec_step(c, p[0]) == Some(SlotM::Grid(g.cells[k])));
                if prest.len() > 0 {
                    assert(spec_resolve(SlotM::Grid(g.cells[k]), prest) is Some);
                    assert(g.cells[k] is Some);
                }
                assert(c2 == ContentM::Tree(g2));
                assert(spec_step(c, q[0]) == Some(SlotM::Grid(g.cells[kq0])));
                assert(spec_step(c2, q[0]) == Some(SlotM::Grid(g2.cells[kq0])));
                if k == kq0 {
                    if prest.len() == 0 {
                        if qrest.len() > 0 {
                            assert(kq.take(kp.len() as int) =~= kp);
                        }
                        assert(spec_keys(SlotM::Grid(g.cells[k]), prest) =~= Seq::<int>::empty());
                        assert(spec_keys(SlotM::Grid(g.cells[kq0]), qrest) =~= Seq::<int>::empty());
                        assert(kp =~= kq);
                        assert(g2.cells[kq0] == v);
                    } else {
                        if qrest.len() == 0 {
                            assert(spec_keys(SlotM::Grid(g.cells[kq0]), qrest) =~= Seq::<int>::empty());
                            assert(kp.take(kq.len() as int) =~= kq);
                        }
                        let inner = g.cells[k]->Some_0;
                        lemma_same_content_walk(Seq::empty(), GovM::Ungoverned, SlotM::Grid(g.cells[k]), SlotM::Field(inner), prest);
                        lemma_same_content_walk(Seq::empty(), GovM::Ungoverned, SlotM::Grid(g.cells[k]), SlotM::Field(inner), qrest);
                        assert(kp.drop_first() =~= spec_keys(SlotM::Field(inner), prest));
                        assert(kq.drop_first() =~= spec_keys(SlotM::Field(inner), qrest));
                        if spec_proper_prefix(kp.drop_first(), kq.drop_first()) {
                            lemma_proper_prefix_tail(kp, kq);
                        }
                        if spec_proper_prefix(kq.drop_first(), kp.drop_first()) {
                            lemma_proper_prefix_tail(kq, kp);
                        }
                        lemma_put_read(inner, prest, v, qrest);
                        let inner2 = spec_put(inner, prest, v);
                        lemma_same_content_walk(Seq::empty(), GovM::Ungoverned, SlotM::Grid(Some(inner2)), SlotM::Field(inner2), qrest);
                        assert(g2.cells[kq0] == Some(inner2));
                        assert((kp == kq) == (kp.drop_first() == kq.drop_first())) by {
                            if kp.drop_first() =~= kq.drop_first() {
                                assert(kp =~= kq);
                            }
                        }
                    }
                } else {
                    assert(g2.cells[kq0] == g.cells[kq0]);
                    assert(kp[0] != kq[0]);
                    assert(spec_resolve(SlotM::Field(c2), q) == spec_resolve(SlotM::Field(c), q));
                }
            },
            _ => {},
        }
    }
}

/// Writing at `a` and reading at `q`, where neither cell strictly contains
/// the other: the written cell reads back the payload, any other cell what
/// it held.
proof fn lemma_write_read(d: DocumentM, a: LocationM, p: Option<ContentM>, q: LocationM)
    requires
        spec_location_ok(d, q),
        spec_write(d, a, p) is Some,
        !spec_contains(d, a, q),
        !spec_contains(d, q, a),
    ensures
        spec_location_ok(spec_write(d, a, p)->Some_0, q),
        spec_content_at(spec_write(d, a, p)->Some_0, q) == if a.region == q.region && spec_keys_at(
            d,
            a,
        ) == spec_keys_at(d, q) {
            p
        } else {
            spec_content_at(d, q)
        },
{
    if a.region == q.region {
        lemma_put_read(spec_region_root(d, a.region), a.path, p, q.path);
    }
}

/// Writing to each of `locs` in turn, when no location strictly contains
/// another: every location reads back the payload.
proof fn lemma_write_all_read(d: DocumentM, locs: Seq<LocationM>, p: Option<ContentM>)
    requires
        forall|i: int| 0 <= i < locs.len() ==> spec_location_ok(d, #[trigger] locs[i]),
        spec_write_all(d, locs, p) is Some,
        forall|i: int, j: int|
            0 <= i < locs.len() && 0 <= j < locs.len() ==> !spec_contains(
                d,
                #[trigger] locs[i],
                #[trigger] locs[j],
            ),
    ensures
        forall|i: int|
            0 <= i < locs.len() ==> spec_content_at(spec_write_all(d, locs, p)->Some_0, #[trigger] locs[i])
                == p,
    decreases locs.len(),
{
    if locs.len() > 0 {
        let n = locs.len();
        let init = locs.drop_last();
        let last = locs.last();
        assert forall|i: int, j: int|
            0 <= i < init.len() && 0 <= j < init.len() implies !spec_contains(
            d,
            #[trigger] init[i],
            #[trigger] init[j],
        ) by {
            assert(init[i] == locs[i] && init[j] == locs[j]);
        }
        assert forall|i: int| 0 <= i < init.len() implies spec_location_ok(d, #[trigger] init[i]) by {
            assert(init[i] == locs[i]);
        }
        assert(spec_write_all(d, init, p) is Some);
        lemma_write_all_read(d, init, p);
        let d1 = spec_write_all(d, init, p)->Some_0;
        assert(spec_dests_independent(d, init)) by {
            assert forall|i: int, j: int| 0 <= i < j < init.len() implies !spec_contains(
                d,
                #[trigger] init[i],
                #[trigger] init[j],
            ) by {
                assert(init[i] == locs[i] && init[j] == locs[j]);
            }
        }
        assert forall|i: int| 0 <= i < n implies spec_content_at(
            spec_write_all(d, locs, p)->Some_0,
            #[trigger] locs[i],
        ) == p by {
            let q = locs[i];
            assert forall|j: int| 0 <= j < init.len() implies !spec_contains(d, #[trigger] init[j], q) by {
                assert(init[j] == locs[j]);
            }
            assert forall|j: int| 0 <= j < init.len() implies !spec_contains(d, #[trigger] init[j], last) by {
                assert(init[j] == locs[j]);
                assert(last == locs[n - 1]);
            }
            assert(spec_location_ok(d, last));
            lemma_write_all_frame(d, init, p, q);
            lemma_write_all_frame(d, init, p, last);
            assert(!spec_contains(d, last, q) && !spec_contains(d, q, last)) by {
                assert(last == locs[n - 1]);
            }
            lemma_write_read(d1, last, p, q);
            if i < n - 1 {
                assert(q == init[i]);
                if !(last.region == q.region && spec_keys_at(d1, last) == spec_keys_at(d1, q)) {
                    assert(spec_content_at(d1, init[i]) == p);
                }
            }
        }
    }
}

/// After an applied copy, every destination holds what the source held,
/// when no destination strictly contains another.
pub proof fn lemma_copy_delivers(d: DocumentM, source: LocationM)
    requires
        spec_copy_ok(d, source),
        spec_copy(d, source).1 == Outcome::Applied,
        forall|i: int, j: int|
            0 <= i < spec_copy_dests(d.selection).len() && 0 <= j < spec_copy_dests(d.selection).len()
                ==> !spec_contains(
                d,
                #[trigger] spec_copy_dests(d.selection)[i],
                #[trigger] spec_copy_dests(d.selection)[j],
            ),
    ensures
        forall|i: int|
            0 <= i < spec_copy_dests(d.selection).len() ==> spec_content_at(
                spec_copy(d, source).0,
                #[trigger] spec_copy_dests(d.selection)[i],
            ) == spec_content_at(d, source),
{
    let dests = spec_copy_dests(d.selection);
    let p = spec_content_at(d, source);
    lemma_write_all_read(d, dests, p);
}

// ===========================================================================
// Writing into a document
// ===========================================================================

/// The root of every region of a document with integrity is well-formed
/// and fits its root governance.
proof fn lemma_root_ok(d: DocumentM, region: Region)
    requires
        spec_integrity(d),
    ensures
        spec_slot_ok(d.schema, SlotM::Field(spec_region_root(d, region)), spec_gov_root(d, region)),
{
}

/// In a document with integrity, every cell that a location reaches is
/// well-formed and fits its governance, and its governance can be computed.
pub proof fn lemma_location_typed(d: DocumentM, loc: LocationM)
    requires
        spec_integrity(d),
        spec_location_ok(d, loc),
    ensures
        spec_governance_ok(d, loc),
        spec_slot_ok(d.schema, spec_slot_at(d, loc)->Some_0, spec_governance(d, loc)),
        match spec_content_at(d, loc) {
            Some(c) => spec_verified(c, d.schema),
            None => true,
        },
{
    lemma_root_ok(d, loc.region);
    lemma_walk_ok(
        d.schema,
        spec_gov_root(d, loc.region),
        SlotM::Field(spec_region_root(d, loc.region)),
        loc.path,
    );
}

/// A write of a well-formed payload that validates against the
/// destination's governance keeps the document's integrity, and changes
/// nothing but the destination's region.
pub proof fn lemma_write_ok(d: DocumentM, loc: LocationM, p: Option<ContentM>)
    requires
        spec_integrity(d),
        p is Some ==> spec_verified(p->Some_0, d.schema),
        spec_validates(p, spec_governance(d, loc)),
        spec_write(d, loc, p) is Some,
    ensures
        spec_integrity(spec_write(d, loc, p)->Some_0),
        spec_write(d, loc, p)->Some_0 == spec_with_root(
            d,
            loc.region,
            spec_put(spec_region_root(d, loc.region), loc.path, p),
        ),
{
    lemma_root_ok(d, loc.region);
    lemma_put_ok(
        d.schema,
        spec_gov_root(d, loc.region),
        spec_region_root(d, loc.region),
        loc.path,
        p,
    );
}

/// The positions that `loc`'s path selects in `d`.
pub open spec fn spec_keys_at(d: DocumentM, loc: LocationM) -> Seq<int> {
    spec_keys(SlotM::Field(spec_region_root(d, loc.region)), loc.path)
}

/// In `d`, the cell at `a` strictly contains the cell at `b`.
pub open spec fn spec_contains(d: DocumentM, a: LocationM, b: LocationM) -> bool {
    a.region == b.region && spec_proper_prefix(spec_keys_at(d, a), spec_keys_at(d, b))
}

/// No destination strictly contains a later one.
pub open spec fn spec_dests_independent(d: DocumentM, dests: Seq<LocationM>) -> bool {
    forall|i: int, j: int|
        0 <= i < j < dests.len() ==> !spec_contains(d, #[trigger] dests[i], #[trigger] dests[j])
}

/// After a write at `a`, a location that `a` does not strictly contain
/// still resolves, with the same governance and the same positions.
proof fn lemma_write_frame(d: DocumentM, a: LocationM, p: Option<ContentM>, q: LocationM)
    requires
        spec_location_ok(d, q),
        spec_write(d, a, p) is Some,
        !spec_contains(d, a, q),
    ensures
        spec_location_ok(spec_write(d, a, p)->Some_0, q),
        spec_governance(spec_write(d, a, p)->Some_0, q) == spec_governance(d, q),
        spec_keys_at(spec_write(d, a, p)->Some_0, q) == spec_keys_at(d, q),
        (spec_write(d, a, p)->Some_0).schema == d.schema,
{
    if a.region == q.region {
        lemma_put_frame(
            d.schema,
            spec_gov_root(d, q.region),
            spec_region_root(d, a.region),
            a.path,
            p,
            q.path,
        );
    }
}

/// Writing to each of `locs` in turn leaves alone every location that none
/// of them strictly contains.
proof fn lemma_write_all_frame(d: DocumentM, locs: Seq<LocationM>, p: Option<ContentM>, q: LocationM)
    requires
        spec_location_ok(d, q),
        spec_write_all(d, locs, p) is Some,
        spec_dests_independent(d, locs),
        forall|i: int| 0 <= i < locs.len() ==> spec_location_ok(d, #[trigger] locs[i]),
        forall|i: int| 0 <= i < locs.len() ==> !spec_contains(d, #[trigger] locs[i], q),
    ensures
        spec_location_ok(spec_write_all(d, locs, p)->Some_0, q),
        spec_governance(spec_write_all(d, locs, p)->Some_0, q) == spec_governance(d, q),
        spec_keys_at(spec_write_all(d, locs, p)->Some_0, q) == spec_keys_at(d, q),
        (spec_write_all(d, locs, p)->Some_0).schema == d.schema,
    decreases locs.len(),
{
    if locs.len() > 0 {
        let init = locs.drop_last();
        let last = locs.last();
        assert forall|i: int, j: int| 0 <= i < j < init.len() implies !spec_contains(
            d,
            #[trigger] init[i],
            #[trigger] init[j],
        ) by {
            assert(init[i] == locs[i] && init[j] == locs[j]);
        }
        assert forall|i: int| 0 <= i < init.len() implies !spec_contains(d, #[trigger] init[i], q) by {
            assert(init[i] == locs[i]);
        }
        assert forall|i: int| 0 <= i < init.len() implies spec_location_ok(d, #[trigger] init[i]) by {
            assert(init[i] == locs[i]);
        }
        assert(spec_location_ok(d, locs[locs.len() - 1]));
        lemma_write_all_frame(d, init, p, q);
        let d1 = spec_write_all(d, init, p)->Some_0;
        assert(!spec_contains(d, locs[locs.len() - 1], q));
        assert(spec_contains(d1, last, q) == spec_contains(d, last, q)) by {
            assert(spec_write(d1, last, p) is Some);
            assert(spec_location_ok(d1, last));
            if last.region == q.region {
                assert(spec_keys_at(d1, last) == spec_keys_at(d, last)) by {
                    assert forall|i: int| 0 <= i < init.len() implies !spec_contains(
                        d,
                        #[trigger] init[i],
                        last,
                    ) by {
                        assert(init[i] == locs[i]);
                        assert(last == locs[locs.len() - 1]);
                    }
                    lemma_write_all_frame(d, init, p, last);
                }
            }
        }
        lemma_write_frame(d1, last, p, q);
    }
}

/// Writing a well-formed payload that validates against every destination
/// to each destination in turn keeps the document's integrity, as long as
/// no destination strictly contains a later one. Only the destinations'
/// regions change.
pub proof fn lemma_write_all_ok(d: DocumentM, locs: Seq<LocationM>, p: Option<ContentM>)
    requires
        spec_integrity(d),
        p is Some ==> spec_verified(p->Some_0, d.schema),
        forall|i: int| 0 <= i < locs.len() ==> spec_location_ok(d, #[trigger] locs[i]),
        spec_all_validate(d, locs, p),
        spec_dests_independent(d, locs),
        spec_write_all(d, locs, p) is Some,
    ensures
        spec_integrity(spec_write_all(d, locs, p)->Some_0),
        (spec_write_all(d, locs, p)->Some_0).schema == d.schema,
        (spec_write_all(d, locs, p)->Some_0).rim_root_field == d.rim_root_field,
        (spec_write_all(d, locs, p)->Some_0).selection == d.selection,
        (spec_write_all(d, locs, p)->Some_0).dirty == d.dirty,
        (forall|i: int| 0 <= i < locs.len() ==> (#[trigger] locs[i]).region != Region::Rom) ==> (
        spec_write_all(d, locs, p)->Some_0).rom == d.rom,
    decreases locs.len(),
{
    if locs.len() > 0 {
        let init = locs.drop_last();
        let last = locs.last();
        assert forall|i: int, j: int| 0 <= i < j < init.len() implies !spec_contains(
            d,
            #[trigger] init[i],
            #[trigger] init[j],
        ) by {
            assert(init[i] == locs[i] && init[j] == locs[j]);
        }
        assert forall|i: int| 0 <= i < init.len() implies spec_location_ok(d, #[trigger] init[i]) by {
            assert(init[i] == locs[i]);
        }
        assert forall|i: int| 0 <= i < init.len() implies spec_validates(
            p,
            spec_governance(d, #[trigger] init[i]),
        ) by {
            assert(init[i] == locs[i]);
        }
        assert forall|i: int| 0 <= i < init.len() implies !spec_contains(d, #[trigger] init[i], last) by {
            assert(init[i] == locs[i]);
            assert(last == locs[locs.len() - 1]);
        }
        if forall|i: int| 0 <= i < locs.len() ==> (#[trigger] locs[i]).region != Region::Rom {
            assert forall|i: int| 0 <= i < init.len() implies (#[trigger] init[i]).region != Region::Rom by {
                assert(init[i] == locs[i]);
            }
            assert(last.region != Region::Rom);
        }
        lemma_write_all_ok(d, init, p);
        assert(spec_location_ok(d, locs[locs.len() - 1]));
        lemma_write_all_frame(d, init, p, last);
        let d1 = spec_write_all(d, init, p)->Some_0;
        assert(spec_validates(p, spec_governance(d, locs[locs.len() - 1])));
        lemma_write_ok(d1, last, p);
    }
}

// ===========================================================================
// Grids rebuilt by the breadth operations
// ===========================================================================

/// Every cell of `g2` is empty or a cell of `g`.
pub open spec fn spec_cells_from(g: GridM, g2: GridM) -> bool {
    forall|k: int|
        0 <= k < g2.cells.len() ==> (#[trigger] g2.cells[k] is None || exists|j: int|
            0 <= j < g.cells.len() && g.cells[j] == g2.cells[k])
}

/// A well-shaped grid made of empty cells and cells of a well-formed,
/// well-typed tree is itself well-formed and fits the same governance.
proof fn lemma_cells_from_ok(schema: Seq<StructDefM>, gov: GovM, g: GridM, g2: GridM)
    requires
        spec_verified(ContentM::Tree(g), schema),
        spec_compat(ContentM::Tree(g), gov),
        g2.width >= 1,
        g2.height >= 1,
        g2.cells.len() == g2.width * g2.height,
        spec_cells_from(g, g2),
    ensures
        spec_verified(ContentM::Tree(g2), schema),
        spec_compat(ContentM::Tree(g2), gov),
{
    assert forall|k: int| 0 <= k < g2.cells.len() implies match #[trigger] g2.cells[k] {
        None => true,
        Some(inner) => spec_verified(inner, schema),
    } by {
        if g2.cells[k] is Some {
            let j = choose|j: int| 0 <= j < g.cells.len() && g.cells[j] == g2.cells[k];
            assert(g.cells[j] == g.cells[j]);
        }
    }
    let elem = match gov {
        GovM::Field(fd) => fd.elem,
        GovM::GovernedGridCell(e) => e,
        GovM::Ungoverned => super::TypeRef::Symbol,
    };
    if !(gov is Ungoverned) {
        assert forall|k: int| 0 <= k < g2.cells.len() implies match #[trigger] g2.cells[k] {
            None => true,
            Some(ContentM::Value(lv)) => spec_value_ok(lv, elem),
            Some(ContentM::Tree(sub)) => spec_tree_ok(sub, elem),
        } by {
            if g2.cells[k] is Some {
                let j = choose|j: int| 0 <= j < g.cells.len() && g.cells[j] == g2.cells[k];
                assert(g.cells[j] == g.cells[j]);
            }
        }
    }
}

/// Inserting a row of empty cells keeps a grid well-shaped and made of its
/// own cells.
proof fn lemma_insert_row_from(g: GridM, idx: int)
    requires
        super::spec_grid_shape_ok(g.cells.len() as int, g.width as int, g.height as int),
        0 <= idx <= g.height,
        g.height < usize::MAX,
    ensures
        ({
            let g2 = GridM {
                cells: super::spec_insert_row_cells(g.cells, g.width as int, idx, None),
                height: (g.height + 1) as usize,
                ..g
            };
            &&& super::spec_grid_shape_ok(g2.cells.len() as int, g2.width as int, g2.height as int)
            &&& spec_cells_from(g, g2)
        }),
{
    let w = g.width as int;
    let cells2 = super::spec_insert_row_cells(g.cells, w, idx, None);
    assert(idx * w <= g.cells.len()) by (nonlinear_arith)
        requires
            idx <= g.height,
            g.cells.len() == w * g.height,
            w >= 1,
    ;
    assert(idx * w >= 0) by (nonlinear_arith)
        requires
            idx >= 0,
            w >= 1,
    ;
    assert(w * (g.height + 1) == w * g.height + w) by (nonlinear_arith);
    assert(cells2.len() == g.cells.len() + w);
    assert forall|k: int| 0 <= k < cells2.len() implies (#[trigger] cells2[k] is None || exists|j: int|
        0 <= j < g.cells.len() && g.cells[j] == cells2[k]) by {
        if k < idx * w {
            assert(cells2[k] == g.cells[k]);
        } else if k >= idx * w + w {
            assert(cells2[k] == g.cells[k - w]);
        }
    }
}

/// Removing a row keeps a grid of two rows or more well-shaped and made of
/// its own cells.
proof fn lemma_delete_row_from(g: GridM, t: int)
    requires
        super::spec_grid_shape_ok(g.cells.len() as int, g.width as int, g.height as int),
        0 <= t < g.height,
        g.height >= 2,
    ensures
        ({
            let g2 = GridM {
                cells: super::spec_delete_row_cells(g.cells, g.width as int, t),
                height: (g.height - 1) as usize,
                ..g
            };
            &&& super::spec_grid_shape_ok(g2.cells.len() as int, g2.width as int, g2.height as int)
            &&& spec_cells_from(g, g2)
        }),
{
    let w = g.width as int;
    let cells2 = super::spec_delete_row_cells(g.cells, w, t);
    assert(t * w + w <= g.cells.len()) by (nonlinear_arith)
        requires
            t < g.height,
            g.cells.len() == w * g.height,
            w >= 1,
    ;
    assert(t * w >= 0) by (nonlinear_arith)
        requires
            t >= 0,
            w >= 1,
    ;
    assert(w * (g.height - 1) == w * g.height - w) by (nonlinear_arith);
    assert(cells2.len() == g.cells.len() - w);
    assert forall|k: int| 0 <= k < cells2.len() implies (#[trigger] cells2[k] is None || exists|j: int|
        0 <= j < g.cells.len() && g.cells[j] == cells2[k]) by {
        if k < t * w {
            assert(cells2[k] == g.cells[k]);
        } else {
            assert(cells2[k] == g.cells[k + w]);
        }
    }
}

/// Inserting a column of empty cells keeps a grid well-shaped and made of
/// its own cells.
proof fn lemma_insert_col_from(g: GridM, idx: int)
    requires
        super::spec_grid_shape_ok(g.cells.len() as int, g.width as int, g.height as int),
        0 <= idx <= g.width,
        g.width < usize::MAX,
    ensures
        ({
            let g2 = GridM {
                cells: super::spec_insert_col_cells(
                    g.cells,
                    g.width as int,
                    idx,
                    g.height as nat,
                    None,
                ),
                width: (g.width + 1) as usize,
                ..g
            };
            &&& super::spec_grid_shape_ok(g2.cells.len() as int, g2.width as int, g2.height as int)
            &&& spec_cells_from(g, g2)
        }),
{
    let w = g.width as int;
    let h = g.height as nat;
    let cells2 = super::spec_insert_col_cells(g.cells, w, idx, h, None);
    super::grid::lemma_insert_col_len(g.cells, w, idx, h, None);
    assert forall|k: int| 0 <= k < cells2.len() implies (#[trigger] cells2[k] is None || exists|j: int|
        0 <= j < g.cells.len() && g.cells[j] == cells2[k]) by {
        super::grid::lemma_insert_col_from(g.cells, w, idx, h, None, k);
    }
}

/// Removing a column keeps a grid of two columns or more well-shaped and
/// made of its own cells.
proof fn lemma_delete_col_from(g: GridM, t: int)
    requires
        super::spec_grid_shape_ok(g.cells.len() as int, g.width as int, g.height as int),
        0 <= t < g.width,
        g.width >= 2,
    ensures
        ({
            let g2 = GridM {
                cells: super::spec_delete_col_cells(g.cells, g.width as int, t, g.height as nat),
                width: (g.width - 1) as usize,
                ..g
            };
            &&& super::spec_grid_shape_ok(g2.cells.len() as int, g2.width as int, g2.height as int)
            &&& spec_cells_from(g, g2)
        }),
{
    let w = g.width as int;
    let h = g.height as nat;
    let cells2 = super::spec_delete_col_cells(g.cells, w, t, h);
    super::grid::lemma_delete_col_len(g.cells, w, t, h);
    assert forall|k: int| 0 <= k < cells2.len() implies (#[trigger] cells2[k] is None || exists|j: int|
        0 <= j < g.cells.len() && g.cells[j] == cells2[k]) by {
        super::grid::lemma_delete_col_from(g.cells, w, t, h, k);
    }
}

/// A breadth operation that rebuilds the grid enclosing `at` from its own
/// cells, keeping it well-shaped, keeps the document's integrity; only the
/// region of `at` changes.
proof fn lemma_finish_ok(d: DocumentM, at: LocationM, g2: GridM)
    requires
        spec_integrity(d),
        spec_enclosing(d, at) is Some,
        super::spec_grid_shape_ok(g2.cells.len() as int, g2.width as int, g2.height as int),
        spec_cells_from((spec_enclosing(d, at)->Some_0).0, g2),
    ensures
        spec_integrity(spec_finish(d, at, g2).0),
        at.region != Region::Rom ==> spec_finish(d, at, g2).0.rom == d.rom,
{
    let parent = spec_parent(at);
    lemma_location_typed(d, parent);
    let g = (spec_enclosing(d, at)->Some_0).0;
    lemma_cells_from_ok(d.schema, spec_governance(d, parent), g, g2);
    lemma_write_ok(d, parent, Some(ContentM::Tree(g2)));
}

/// Every field default is well-formed and conforms to its field, once the
/// schema is well-formed and the field's element type resolves.
proof fn lemma_default_ok(schema: Seq<StructDefM>, fd: FieldDefM)
    requires
        spec_schema_ok(schema),
        spec_type_ok(fd.elem, schema),
    ensures
        spec_verified(spec_default_content(fd), schema),
        spec_conforms(spec_default_content(fd), fd),
{
    if !fd.is_tree {
        if let super::TypeRef::Struct(id) = fd.elem {
            assert(schema[id as int].variants.len() > 0);
        }
    }
}

/// Replacing the content at `at` by a well-formed content that fits the
/// cell's governance keeps the document's integrity.
proof fn lemma_replace_ok(d: DocumentM, at: LocationM, c: ContentM)
    requires
        spec_integrity(d),
        spec_location_ok(d, at),
        spec_verified(c, d.schema),
        spec_compat(c, spec_governance(d, at)),
    ensures
        spec_integrity(spec_replace_marked(d, at, c)),
        at.region != Region::Rom ==> spec_replace_marked(d, at, c).rom == d.rom,
{
    lemma_write_ok(d, at, Some(c));
}

/// Selecting a variant keeps the document's integrity.
proof fn lemma_select_variant_ok(d: DocumentM, at: LocationM, variant: usize)
    requires
        spec_integrity(d),
        spec_location_ok(d, at),
    ensures
        spec_integrity(spec_select_variant(d, at, variant).0),
        at.region != Region::Rom ==> spec_select_variant(d, at, variant).0.rom == d.rom,
{
    lemma_location_typed(d, at);
    if let Some(ContentM::Value(LeafM::Struct(si))) = spec_content_at(d, at) {
        if si.struct_id < d.schema.len() && variant < d.schema[si.struct_id as int].variants.len() {
            let vd = d.schema[si.struct_id as int].variants[variant as int];
            let fields = spec_fields_default(vd.fields);
            let si2 = StructM { struct_id: si.struct_id, variant, fields };
            assert forall|i: int| 0 <= i < fields.len() implies spec_conforms(
                #[trigger] fields[i],
                d.schema[si2.struct_id as int].variants[si2.variant as int].fields[i],
            ) && spec_verified(fields[i], d.schema) by {
                assert(vd.fields[i] == d.schema[si.struct_id as int].variants[variant as int].fields[i]);
                lemma_default_ok(d.schema, vd.fields[i]);
            }
            let c = ContentM::Value(LeafM::Struct(si2));
            assert(spec_verified(c, d.schema));
            lemma_replace_ok(d, at, c);
        }
    }
}

/// Editing a symbol keeps the document's integrity.
proof fn lemma_edit_symbol_ok(d: DocumentM, at: LocationM, text: Seq<char>)
    requires
        spec_integrity(d),
        spec_location_ok(d, at),
    ensures
        spec_integrity(spec_edit_symbol(d, at, text).0),
        at.region != Region::Rom ==> spec_edit_symbol(d, at, text).0.rom == d.rom,
{
    lemma_location_typed(d, at);
    if let Some(ContentM::Value(LeafM::Symbol(_))) = spec_content_at(d, at) {
        lemma_replace_ok(d, at, ContentM::Value(LeafM::Symbol(text)));
    }
}

/// A copy keeps the document's integrity when no destination strictly
/// contains a later one.
proof fn lemma_copy_ok(d: DocumentM, source: LocationM)
    requires
        spec_integrity(d),
        spec_copy_ok(d, source),
        spec_dests_independent(d, spec_copy_dests(d.selection)),
    ensures
        spec_integrity(spec_copy(d, source).0),
        (forall|i: int|
            0 <= i < spec_copy_dests(d.selection).len() ==> (#[trigger] spec_copy_dests(
                d.selection,
            )[i]).region != Region::Rom) ==> spec_copy(d, source).0.rom == d.rom,
{
    let dests = spec_copy_dests(d.selection);
    let p = spec_content_at(d, source);
    lemma_location_typed(d, source);
    if dests.len() > 0 && spec_all_validate(d, dests, p) {
        lemma_write_all_ok(d, dests, p);
    }
}

/// A grid about to grow by a row or a column has room for one more in its
/// dimensions, and a cell that deletes the row above or the column to its
/// left lies inside its grid.
pub open spec fn spec_room(d: DocumentM, op: OperationM) -> bool {
    match op {
        OperationM::AddRow { at, .. } => match spec_enclosing(d, at) {
            Some((g, _, _)) => g.height < usize::MAX,
            None => true,
        },
        OperationM::AddColumn { at, .. } => match spec_enclosing(d, at) {
            Some((g, _, _)) => g.width < usize::MAX,
            None => true,
        },
        OperationM::DeleteRow { at, side: VSide::Above } => match spec_enclosing(d, at) {
            Some((g, row, _)) => row < g.height,
            None => true,
        },
        OperationM::DeleteColumn { at, side: HSide::Left } => match spec_enclosing(d, at) {
            Some((g, _, col)) => col < g.width,
            None => true,
        },
        _ => true,
    }
}

/// Every operation takes a document with integrity to a document with
/// integrity: the schema stays well-formed, every struct, variant and field
/// stays resolvable, every grid stays rectangular and non-empty, and every
/// field and the Rim root keep content of their declared type. A copy must
/// not write into a cell that an earlier destination contains.
pub proof fn lemma_apply_keeps_integrity(d: DocumentM, op: OperationM)
    requires
        spec_integrity(d),
        spec_apply_ok(d, op),
        spec_room(d, op),
        op is Copy ==> spec_dests_independent(d, spec_copy_dests(d.selection)),
    ensures
        spec_integrity(spec_apply(d, op).0),
{
    if spec_mutation_target(op) != Some(Region::Rom) {
        match op {
            OperationM::Copy { source } => lemma_copy_ok(d, source),
            OperationM::AddRow { at, side } => {
                if let Some((g, row, col)) = spec_enclosing(d, at) {
                    let idx = match side {
                        VSide::Above => row as int,
                        VSide::Below => row + 1,
                    };
                    lemma_insert_row_from(g, idx);
                    lemma_finish_ok(
                        d,
                        at,
                        GridM {
                            cells: super::spec_insert_row_cells(g.cells, g.width as int, idx, None),
                            height: (g.height + 1) as usize,
                            ..g
                        },
                    );
                }
            },
            OperationM::AddColumn { at, side } => {
                if let Some((g, row, col)) = spec_enclosing(d, at) {
                    let idx = match side {
                        HSide::Left => col as int,
                        HSide::Right => col + 1,
                    };
                    lemma_insert_col_from(g, idx);
                    lemma_finish_ok(
                        d,
                        at,
                        GridM {
                            cells: super::spec_insert_col_cells(
                                g.cells,
                                g.width as int,
                                idx,
                                g.height as nat,
                                None,
                            ),
                            width: (g.width + 1) as usize,
                            ..g
                        },
                    );
                }
            },
            OperationM::DeleteRow { at, side } => {
                if let Some((g, row, col)) = spec_enclosing(d, at) {
                    let target: Option<int> = match side {
                        VSide::Above => if row > 0 {
                            Some(row - 1)
                        } else {
                            None
                        },
                        VSide::Below => if row + 1 < g.height {
                            Some(row + 1)
                        } else {
                            None
                        },
                    };
                    if let Some(t) = target {
                        lemma_delete_row_from(g, t);
                        lemma_finish_ok(
                            d,
                            at,
                            GridM {
                                cells: super::spec_delete_row_cells(g.cells, g.width as int, t),
                                height: (g.height - 1) as usize,
                                ..g
                            },
                        );
                    }
                }
            },
            OperationM::DeleteColumn { at, side } => {
                if let Some((g, row, col)) = spec_enclosing(d, at) {
                    let target: Option<int> = match side {
                        HSide::Left => if col > 0 {
                            Some(col - 1)
                        } else {
                            None
                        },
                        HSide::Right => if col + 1 < g.width {
                            Some(col + 1)
                        } else {
                            None
                        },
                    };
                    if let Some(t) = target {
                        lemma_delete_col_from(g, t);
                        lemma_finish_ok(
                            d,
                            at,
                            GridM {
                                cells: super::spec_delete_col_cells(
                                    g.cells,
                                    g.width as int,
                                    t,
                                    g.height as nat,
                                ),
                                width: (g.width - 1) as usize,
                                ..g
                            },
                        );
                    }
                }
            },
            OperationM::SelectVariant { at, variant } => lemma_select_variant_ok(d, at, variant),
            OperationM::EditSymbol { at, text } => lemma_edit_symbol_ok(d, at, text),
        }
    }
}

// ===========================================================================
// Rom and the selection
// ===========================================================================

/// The selection's highlights sit in their own regions: the Rom highlight
/// in Rom, the Rim highlight in Rim, and every Ram highlight in Ram.
pub open spec fn spec_selection_ok(s: SelectionM) -> bool {
    &&& s.rom.region == Region::Rom
    &&& s.rim.region == Region::Rim
    &&& forall|i: int| 0 <= i < s.ram.len() ==> (#[trigger] s.ram[i]).region == Region::Ram
}

/// Writes to locations outside Rom leave Rom as it was.
proof fn lemma_write_all_rom(d: DocumentM, locs: Seq<LocationM>, p: Option<ContentM>)
    requires
        spec_write_all(d, locs, p) is Some,
        forall|i: int| 0 <= i < locs.len() ==> (#[trigger] locs[i]).region != Region::Rom,
    ensures
        (spec_write_all(d, locs, p)->Some_0).rom == d.rom,
        (spec_write_all(d, locs, p)->Some_0).selection == d.selection,
    decreases locs.len(),
{
    if locs.len() > 0 {
        let init = locs.drop_last();
        assert forall|i: int| 0 <= i < init.len() implies (#[trigger] init[i]).region != Region::Rom by {
            assert(init[i] == locs[i]);
        }
        lemma_write_all_rom(d, init, p);
        assert(locs.last().region != Region::Rom);
    }
}

/// Rom is constant: no operation changes it, as long as the selection's
/// highlights sit in their own regions (so that Rom is never the
/// destination of a copy).
pub proof fn lemma_apply_keeps_rom(d: DocumentM, op: OperationM)
    requires
        spec_apply_ok(d, op),
        spec_selection_ok(d.selection),
    ensures
        spec_apply(d, op).0.rom == d.rom,
{
    if let OperationM::Copy { source } = op {
        let dests = spec_copy_dests(d.selection);
        let p = spec_content_at(d, source);
        if dests.len() > 0 && spec_all_validate(d, dests, p) {
            assert forall|i: int| 0 <= i < dests.len() implies (#[trigger] dests[i]).region
                != Region::Rom by {
                if d.selection.superhighlighted.region == Region::Rim {
                    assert(dests[i] == d.selection.rim);
                }
            }
            lemma_write_all_rom(d, dests, p);
        }
    }
}

/// Every location in `ram` sits in Ram.
pub open spec fn spec_all_in_ram(ram: Seq<LocationM>) -> bool {
    forall|i: int| 0 <= i < ram.len() ==> (#[trigger] ram[i]).region == Region::Ram
}

proof fn lemma_toggle_in_ram(ram: Seq<LocationM>, loc: LocationM)
    requires
        spec_all_in_ram(ram),
        loc.region == Region::Ram,
    ensures
        spec_all_in_ram(super::spec_toggle(ram, loc)),
{
    let t = super::spec_toggle(ram, loc);
    if exists|i: int| 0 <= i < ram.len() && ram[i] == loc {
        let k = choose|i: int| 0 <= i < ram.len() && ram[i] == loc;
        lemma_first_match(ram, loc, k);
        let i = choose|i: int|
            0 <= i < ram.len() && ram[i] == loc && forall|j: int| 0 <= j < i ==> ram[j] != loc;
        assert(t == ram.remove(i));
        lemma_remove_in_ram(ram, i);
    } else {
        assert(t == ram.push(loc));
        assert forall|k: int| 0 <= k < t.len() implies (#[trigger] t[k]).region == Region::Ram by {
            if k < ram.len() {
                assert(t[k] == ram[k]);
            }
        }
    }
}

/// A location that occurs in a list has a first occurrence.
proof fn lemma_first_match(ram: Seq<LocationM>, loc: LocationM, k: int)
    requires
        0 <= k < ram.len(),
        ram[k] == loc,
    ensures
        exists|i: int|
            0 <= i < ram.len() && ram[i] == loc && forall|j: int| 0 <= j < i ==> ram[j] != loc,
    decreases k,
{
    if exists|j: int| 0 <= j < k && ram[j] == loc {
        let j = choose|j: int| 0 <= j < k && ram[j] == loc;
        lemma_first_match(ram, loc, j);
    } else {
        assert(forall|j: int| 0 <= j < k ==> ram[j] != loc);
    }
}

proof fn lemma_remove_in_ram(ram: Seq<LocationM>, i: int)
    requires
        spec_all_in_ram(ram),
        0 <= i < ram.len(),
    ensures
        spec_all_in_ram(ram.remove(i)),
{
    let t = ram.remove(i);
    assert forall|k: int| 0 <= k < t.len() implies (#[trigger] t[k]).region == Region::Ram by {
        if k < i {
            assert(t[k] == ram[k]);
        } else {
            assert(t[k] == ram[k + 1]);
        }
    }
}

/// A selection click keeps every highlight in its own region, and makes the
/// clicked cell the one superhighlighted cell.
pub proof fn lemma_select_keeps_selection_ok(s: SelectionM, loc: LocationM)
    requires
        spec_selection_ok(s),
    ensures
        spec_selection_ok(super::spec_select(s, loc)),
        super::spec_select(s, loc).superhighlighted == loc,
        super::spec_select(s, loc).red.len() == 0,
{
    if loc.region == Region::Ram {
        assert(spec_all_in_ram(s.ram));
        lemma_toggle_in_ram(s.ram, loc);
    }
}

/// Every operation keeps every highlight in its own region.
pub proof fn lemma_apply_keeps_selection_ok(d: DocumentM, op: OperationM)
    requires
        spec_apply_ok(d, op),
        spec_selection_ok(d.selection),
    ensures
        spec_selection_ok(spec_apply(d, op).0.selection),
{
    if let OperationM::Copy { source } = op {
        let dests = spec_copy_dests(d.selection);
        let p = spec_content_at(d, source);
        if dests.len() > 0 && spec_all_validate(d, dests, p) {
            assert forall|i: int| 0 <= i < dests.len() implies (#[trigger] dests[i]).region
                != Region::Rom by {
                if d.selection.superhighlighted.region == Region::Rim {
                    assert(dests[i] == d.selection.rim);
                }
            }
            lemma_write_all_rom(d, dests, p);
        }
    }
}

/// A new document starts with its highlights in their own regions.
pub proof fn lemma_start_selection_ok()
    ensures
        spec_selection_ok(super::spec_start_selection()),
{
}

// ===========================================================================
// Outcomes, new documents, snapshots
// ===========================================================================

/// A no-op leaves the document as it was; a rejected operation changes
/// only the red highlights (the destinations it refused) and the dirty
/// marks, never the content.
pub proof fn lemma_outcomes(d: DocumentM, op: OperationM)
    ensures
        spec_apply(d, op).1 == Outcome::NoOp ==> spec_apply(d, op).0 == d,
        spec_apply(d, op).1 == Outcome::Rejected ==> {
            let r = spec_apply(d, op).0;
            &&& op is Copy
            &&& r == (DocumentM {
                selection: SelectionM { red: spec_copy_dests(d.selection), ..d.selection },
                dirty: super::spec_all_regions(),
                ..d
            })
        },
{
}

/// After an applied copy into Ram, no Ram cell is highlighted any more.
pub proof fn lemma_copy_into_ram_clears_highlights(d: DocumentM, source: LocationM)
    requires
        spec_copy(d, source).1 == Outcome::Applied,
        d.selection.superhighlighted.region == Region::Ram,
    ensures
        spec_copy(d, source).0.selection.ram.len() == 0,
        spec_copy(d, source).0.selection.red.len() == 0,
{
}

/// The Rom palette of a well-formed schema is well-formed.
proof fn lemma_build_rom_ok(schema: Seq<StructDefM>)
    requires
        spec_schema_ok(schema),
        schema.len() + 2 <= usize::MAX,
    ensures
        spec_verified(super::spec_build_rom(schema), schema),
{
    let rom = super::spec_build_rom(schema);
    let g = rom->Tree_0;
    let n = schema.len();
    assert(g.height == n + 2);
    assert(g.cells.len() == n + 2);
    assert(g.width == 1);
    assert(1 * g.height == g.height);
    assert(g.cells.len() == g.width * g.height);
    assert forall|i: int| 0 <= i < g.cells.len() implies match #[trigger] g.cells[i] {
        None => true,
        Some(inner) => spec_verified(inner, schema),
    } by {
        if i < n {
            assert(schema[i].variants.len() > 0);
        }
    }
}

/// A new document over a well-formed schema, whose root field's element
/// type resolves, has integrity.
pub proof fn lemma_new_document_ok(schema: Seq<StructDefM>, rim_root_field: FieldDefM)
    requires
        spec_schema_ok(schema),
        spec_type_ok(rim_root_field.elem, schema),
        schema.len() + 2 <= usize::MAX,
    ensures
        spec_integrity(
            DocumentM {
                schema,
                rim_root_field,
                rom: super::spec_build_rom(schema),
                ram: super::spec_default_tree(),
                rim: spec_default_content(rim_root_field),
                selection: super::spec_start_selection(),
                dirty: super::spec_all_regions(),
            },
        ),
{
    lemma_build_rom_ok(schema);
    lemma_default_ok(schema, rim_root_field);
}

/// Restoring a snapshot gives back the document it was taken from, every
/// region marked dirty, as long as Rom is the palette of the schema (which
/// every operation keeps).
pub proof fn lemma_snapshot_round_trip(d: DocumentM)
    requires
        d.rom == super::spec_build_rom(d.schema),
    ensures
        super::spec_from_snapshot(super::spec_snapshot(d)) == (DocumentM {
            dirty: super::spec_all_regions(),
            ..d
        }),
{
}


// ===========================================================================
// Variant selection
// ===========================================================================

/// Writing the same value twice at a resolving path is writing it once.
proof fn lemma_put_put(c: ContentM, p: Seq<PathStep>, v: Option<ContentM>)
    requires
        spec_resolve(SlotM::Field(c), p) is Some,
    ensures
        spec_put(spec_put(c, p, v), p, v) == spec_put(c, p, v),
    decreases p.len(),
{
    if p.len() > 0 {
        let rest = p.drop_first();
        match p[0] {
            PathStep::Field { index } => {
                let si = c->Value_0->Struct_0;
                let x = spec_put(si.fields[index as int], rest, v);
                lemma_put_put(si.fields[index as int], rest, v);
                let f1 = si.fields.update(index as int, x);
                assert(f1.update(index as int, spec_put(f1[index as int], rest, v)) =~= f1);
            },
            PathStep::Grid { row, col } => {
                let g = c->Tree_0;
                let k = row * g.width + col;
                if rest.len() == 0 {
                    let c1 = g.cells.update(k, v);
                    assert(c1.update(k, v) =~= c1);
                } else {
                    assert(spec_step(c, p[0]) == Some(SlotM::Grid(g.cells[k])));
                    assert(spec_resolve(SlotM::Grid(g.cells[k]), rest) is Some);
                    let inner = g.cells[k]->Some_0;
                    assert(SlotM::Grid(g.cells[k]).content() == Some(inner));
                    assert(SlotM::Field(inner).content() == Some(inner));
                    assert(spec_resolve(SlotM::Field(inner), rest) == spec_resolve(SlotM::Grid(g.cells[k]), rest));
                    lemma_put_put(inner, rest, v);
                    let x = spec_put(inner, rest, v);
                    let c1 = g.cells.update(k, Some(x));
                    assert(c1.update(k, Some(spec_put(c1[k]->Some_0, rest, v))) =~= c1);
                }
            },
        }
    }
}

/// Selecting a variant is idempotent: a second identical selection at a
/// resolving location leaves the document as the first one left it, with
/// the same outcome.
pub proof fn lemma_select_variant_idempotent(d: DocumentM, at: LocationM, variant: usize)
    requires
        spec_location_ok(d, at),
    ensures
        ({
            let first = spec_select_variant(d, at, variant);
            spec_select_variant(first.0, at, variant) == first
        }),
{
    let first = spec_select_variant(d, at, variant);
    if first.1 == Outcome::Applied {
        let si = spec_content_at(d, at)->Some_0->Value_0->Struct_0;
        let vd = d.schema[si.struct_id as int].variants[variant as int];
        let c = ContentM::Value(
            LeafM::Struct(StructM { struct_id: si.struct_id, variant, fields: spec_fields_default(vd.fields) }),
        );
        let root = spec_region_root(d, at.region);
        lemma_put_read(root, at.path, Some(c), at.path);
        lemma_put_put(root, at.path, Some(c));
        let d1 = first.0;
        assert(spec_region_root(d1, at.region) == spec_put(root, at.path, Some(c)));
        assert(spec_content_at(d1, at) == Some(c));
        assert(d1.schema == d.schema);
        assert(spec_select_variant(d1, at, variant).0 =~~= d1);
    }
}


/// Selecting a variant of the struct at `at`: when `at` holds a struct and
/// the variant exists, the outcome is applied, the region is marked, and
/// `at` then holds a struct of the same type at that variant whose fields
/// hold, in order, the defaults of the variant's fields. Otherwise nothing
/// changes.
pub proof fn lemma_select_variant_sets(d: DocumentM, at: LocationM, variant: usize)
    requires
        spec_location_ok(d, at),
    ensures
        ({
            let (d2, o) = spec_select_variant(d, at, variant);
            if spec_content_at(d, at) matches Some(ContentM::Value(LeafM::Struct(si))) && si.struct_id
                < d.schema.len() && variant < d.schema[si.struct_id as int].variants.len() {
                let si = spec_content_at(d, at)->Some_0->Value_0->Struct_0;
                let fields = d.schema[si.struct_id as int].variants[variant as int].fields;
                &&& o == Outcome::Applied
                &&& d2.dirty == d.dirty.marked(at.region)
                &&& d2.schema == d.schema
                &&& spec_content_at(d2, at) matches Some(ContentM::Value(LeafM::Struct(s2))) && {
                    &&& s2.struct_id == si.struct_id
                    &&& s2.variant == variant
                    &&& s2.fields.len() == fields.len()
                    &&& forall|i: int|
                        0 <= i < fields.len() ==> #[trigger] s2.fields[i] == spec_default_content(fields[i])
                }
            } else {
                (d2, o) == (d, Outcome::NoOp)
            }
        }),
{
    let (d2, o) = spec_select_variant(d, at, variant);
    if o == Outcome::Applied {
        let si = spec_content_at(d, at)->Some_0->Value_0->Struct_0;
        let vd = d.schema[si.struct_id as int].variants[variant as int];
        let c = ContentM::Value(
            LeafM::Struct(StructM { struct_id: si.struct_id, variant, fields: spec_fields_default(vd.fields) }),
        );
        lemma_put_read(spec_region_root(d, at.region), at.path, Some(c), at.path);
    }
}

/// Editing the symbol at `at`: when `at` holds a symbol, the outcome is
/// applied, the region is marked, and `at` then holds a symbol with the
/// new text. Otherwise nothing changes.
pub proof fn lemma_edit_symbol_sets(d: DocumentM, at: LocationM, text: Seq<char>)
    requires
        spec_location_ok(d, at),
    ensures
        ({
            let (d2, o) = spec_edit_symbol(d, at, text);
            if spec_content_at(d, at) matches Some(ContentM::Value(LeafM::Symbol(_))) {
                &&& o == Outcome::Applied
                &&& d2.dirty == d.dirty.marked(at.region)
                &&& spec_content_at(d2, at) == Some(ContentM::Value(LeafM::Symbol(text)))
            } else {
                (d2, o) == (d, Outcome::NoOp)
            }
        }),
{
    if spec_content_at(d, at) matches Some(ContentM::Value(LeafM::Symbol(_))) {
        lemma_put_read(
            spec_region_root(d, at.region),
            at.path,
            Some(ContentM::Value(LeafM::Symbol(text))),
            at.path,
        );
    }
}

/// A copy with nowhere to go does nothing. Otherwise it is applied exactly
/// when the source's content is accepted by the governance of every
/// destination; when it is not, only the destinations are marked red (and
/// every region redrawn).
pub proof fn lemma_copy_outcome(d: DocumentM, source: LocationM)
    ensures
        spec_copy_dests(d.selection).len() == 0 ==> spec_copy(d, source) == (d, Outcome::NoOp),
        spec_copy_dests(d.selection).len() > 0 ==> (spec_copy(d, source).1 == Outcome::Applied <==> forall|
            i: int,
        |
            0 <= i < spec_copy_dests(d.selection).len() ==> spec_validates(
                spec_content_at(d, source),
                spec_governance(d, #[trigger] spec_copy_dests(d.selection)[i]),
            )),
        spec_copy_dests(d.selection).len() > 0 && spec_copy(d, source).1 != Outcome::Applied ==> {
            &&& spec_copy(d, source).1 == Outcome::Rejected
            &&& spec_copy(d, source).0 == (DocumentM {
                selection: SelectionM { red: spec_copy_dests(d.selection), ..d.selection },
                dirty: super::spec_all_regions(),
                ..d
            })
        },
{
}

// ===========================================================================
// Integrity from resolving locations
// ===========================================================================

/// The cell at `at` lies inside its grid: where `at` ends in a grid step
/// into a tree, the step names one of the tree's rows and columns.
pub open spec fn spec_inside_grid(d: DocumentM, at: LocationM) -> bool {
    match spec_enclosing(d, at) {
        Some((g, row, col)) => row < g.height && col < g.width,
        None => true,
    }
}

/// The cell an operation other than a copy acts on.
pub open spec fn spec_op_location(op: OperationM) -> LocationM {
    match op {
        OperationM::Copy { source } => source,
        OperationM::AddRow { at, .. } => at,
        OperationM::AddColumn { at, .. } => at,
        OperationM::DeleteRow { at, .. } => at,
        OperationM::DeleteColumn { at, .. } => at,
        OperationM::SelectVariant { at, .. } => at,
        OperationM::EditSymbol { at, .. } => at,
    }
}

/// Every operation keeps the integrity of a document with integrity when
/// the cell it acts on resolves and lies inside its grid, and, for a copy,
/// when the copy can be carried out and no destination strictly contains
/// another; a grid that grows must stay countable.
pub proof fn lemma_apply_keeps_integrity_at_resolving_cells(d: DocumentM, op: OperationM)
    requires
        spec_integrity(d),
        spec_room(d, op),
        op is Copy ==> spec_copy_ok(d, op->source) && spec_dests_independent(
            d,
            spec_copy_dests(d.selection),
        ),
        !(op is Copy) ==> spec_location_ok(d, spec_op_location(op)) && spec_inside_grid(
            d,
            spec_op_location(op),
        ),
    ensures
        spec_integrity(spec_apply(d, op).0),
{
    if !(op is Copy) {
        let at = spec_op_location(op);
        if at.path.len() > 0 && at.path.last() is Grid {
            super::ops::lemma_resolve_prefix(
                SlotM::Field(spec_region_root(d, at.region)),
                at.path,
                at.path.len() - 1,
            );
            let par = spec_parent(at);
            assert(par.path =~= at.path.take(at.path.len() - 1));
            assert(spec_location_ok(d, par));
            lemma_location_typed(d, par);
        }
        match spec_enclosing(d, at) {
            Some((g, row, col)) => {
                assert(super::spec_grid_shape_ok(g.cells.len() as int, g.width as int, g.height as int));
            },
            None => {},
        }
        assert(spec_apply_ok(d, op));
    }
    lemma_apply_keeps_integrity(d, op);
}


// ===========================================================================
// Selection clicks
// ===========================================================================

/// What a selection click does. The clicked cell becomes the
/// superhighlight and red is cleared. A Rom or Rim click makes the cell
/// that region's pick and clears Ram's highlights, leaving the other pick
/// alone. A Ram click leaves both picks alone and toggles the cell in
/// Ram's highlights: appended when absent; when present (and the
/// highlights hold no cell twice) removed, every other cell keeping its
/// highlight.
pub proof fn lemma_select_effect(s: SelectionM, loc: LocationM)
    ensures
        super::spec_select(s, loc).superhighlighted == loc,
        super::spec_select(s, loc).red.len() == 0,
        loc.region != Region::Ram ==> super::spec_select(s, loc).ram.len() == 0,
        loc.region == Region::Rom ==> super::spec_select(s, loc).rom == loc
            && super::spec_select(s, loc).rim == s.rim,
        loc.region == Region::Rim ==> super::spec_select(s, loc).rim == loc
            && super::spec_select(s, loc).rom == s.rom,
        loc.region == Region::Ram ==> super::spec_select(s, loc).rom == s.rom
            && super::spec_select(s, loc).rim == s.rim,
        loc.region == Region::Ram && !s.ram.contains(loc) ==> super::spec_select(s, loc).ram
            == s.ram.push(loc),
        loc.region == Region::Ram && s.ram.no_duplicates() ==> {
            let r = super::spec_select(s, loc).ram;
            &&& r.no_duplicates()
            &&& (r.contains(loc) <==> !s.ram.contains(loc))
            &&& forall|x: LocationM| x != loc ==> (r.contains(x) <==> s.ram.contains(x))
        },
{
    if loc.region == Region::Ram && s.ram.contains(loc) {
        let i0 = choose|i: int| 0 <= i < s.ram.len() && s.ram[i] == loc;
        assert(exists|i: int| 0 <= i < s.ram.len() && s.ram[i] == loc);
        if s.ram.no_duplicates() {
            assert(forall|j: int| 0 <= j < i0 ==> s.ram[j] != loc);
            let i = choose|i: int|
                0 <= i < s.ram.len() && s.ram[i] == loc && forall|j: int| 0 <= j < i ==> s.ram[j] != loc;
            assert(i == i0);
            let r = s.ram.remove(i);
            assert(super::spec_select(s, loc).ram == r);
            assert forall|a: int, b: int| 0 <= a < b < r.len() implies r[a] != r[b] by {
                let a2 = if a < i { a } else { a + 1 };
                let b2 = if b < i { b } else { b + 1 };
                assert(r[a] == s.ram[a2]);
                assert(r[b] == s.ram[b2]);
            }
            assert(!r.contains(loc)) by {
                if r.contains(loc) {
                    let k = choose|k: int| 0 <= k < r.len() && r[k] == loc;
                    let k2 = if k < i { k } else { k + 1 };
                    assert(s.ram[k2] == loc);
                }
            }
            assert forall|x: LocationM| x != loc implies (r.contains(x) <==> s.ram.contains(x)) by {
                if r.contains(x) {
                    let k = choose|k: int| 0 <= k < r.len() && r[k] == x;
                    let k2 = if k < i { k } else { k + 1 };
                    assert(s.ram[k2] == x);
                }
                if s.ram.contains(x) {
                    let k = choose|k: int| 0 <= k < s.ram.len() && s.ram[k] == x;
                    assert(k != i);
                    let k2 = if k < i { k } else { k - 1 };
                    assert(r[k2] == x);
                }
            }
        }
    }
    if loc.region == Region::Ram && !s.ram.contains(loc) {
        let r = s.ram.push(loc);
        assert(!(exists|i: int| 0 <= i < s.ram.len() && s.ram[i] == loc));
        assert(r[s.ram.len() as int] == loc);
        if s.ram.no_duplicates() {
            assert forall|a: int, b: int| 0 <= a < b < r.len() implies r[a] != r[b] by {
                if b == s.ram.len() {
                    assert(s.ram.contains(r[a]));
                }
            }
            assert forall|x: LocationM| x != loc implies (r.contains(x) <==> s.ram.contains(x)) by {
                if r.contains(x) {
                    let k = choose|k: int| 0 <= k < r.len() && r[k] == x;
                    assert(k < s.ram.len());
                    assert(s.ram[k] == x);
                }
                if s.ram.contains(x) {
                    let k = choose|k: int| 0 <= k < s.ram.len() && s.ram[k] == x;
                    assert(r[k] == x);
                }
            }
        }
    }
}

// ===========================================================================
// Copying an empty cell
// ===========================================================================

/// A path that resolves and ends in a grid step leads to a cell whose
/// governance is never that of a field.
proof fn lemma_grid_cell_not_field(schema: Seq<StructDefM>, gov: GovM, slot: SlotM, p: Seq<PathStep>)
    requires
        p.len() > 0,
        p.last() is Grid,
        spec_resolve(slot, p) is Some,
    ensures
        !(spec_gov_walk(schema, gov, slot, p) is Field),
    decreases p.len(),
{
    let c = slot.content()->Some_0;
    let next = spec_step(c, p[0])->Some_0;
    let g2 = spec_gov_step(schema, gov, c, p[0]);
    if p.len() == 1 {
        assert(p[0] is Grid);
        assert(p.drop_first().len() == 0);
        assert(spec_gov_walk(schema, gov, slot, p) == g2);
    } else {
        assert(p.drop_first().last() == p.last());
        lemma_grid_cell_not_field(schema, g2, next, p.drop_first());
    }
}

/// An empty cell copied onto grid cells is accepted: every grid cell, of
/// a typed tree or not, may be empty. When no destination contains another
/// and the copy can be carried out, each destination is emptied. Copied
/// onto the Rim root, which is a field, an empty cell is refused.
pub proof fn lemma_copy_of_empty_cell(d: DocumentM, source: LocationM)
    requires
        spec_content_at(d, source) is None,
        spec_copy_dests(d.selection).len() > 0,
    ensures
        (forall|i: int|
            0 <= i < spec_copy_dests(d.selection).len() ==> {
                let l = #[trigger] spec_copy_dests(d.selection)[i];
                &&& spec_location_ok(d, l)
                &&& l.path.len() > 0
                &&& l.path.last() is Grid
            }) ==> spec_copy(d, source).1 == Outcome::Applied,
        (forall|i: int|
            0 <= i < spec_copy_dests(d.selection).len() ==> {
                let l = #[trigger] spec_copy_dests(d.selection)[i];
                &&& spec_location_ok(d, l)
                &&& l.path.len() > 0
                &&& l.path.last() is Grid
            }) && spec_copy_ok(d, source) && (forall|i: int, j: int|
            0 <= i < spec_copy_dests(d.selection).len() && 0 <= j < spec_copy_dests(d.selection).len()
                ==> !spec_contains(
                d,
                #[trigger] spec_copy_dests(d.selection)[i],
                #[trigger] spec_copy_dests(d.selection)[j],
            )) ==> forall|i: int|
            0 <= i < spec_copy_dests(d.selection).len() ==> spec_content_at(
                spec_copy(d, source).0,
                #[trigger] spec_copy_dests(d.selection)[i],
            ) is None,
        (exists|i: int|
            0 <= i < spec_copy_dests(d.selection).len() && #[trigger] spec_copy_dests(d.selection)[i]
                == super::LocationM { region: Region::Rim, path: Seq::empty() }) ==> spec_copy(d, source).1
            == Outcome::Rejected,
{
    let dests = spec_copy_dests(d.selection);
    if forall|i: int|
        0 <= i < dests.len() ==> {
            let l = #[trigger] dests[i];
            &&& spec_location_ok(d, l)
            &&& l.path.len() > 0
            &&& l.path.last() is Grid
        } {
        assert forall|i: int| 0 <= i < dests.len() implies spec_validates(
            None,
            spec_governance(d, #[trigger] dests[i]),
        ) by {
            let l = dests[i];
            lemma_grid_cell_not_field(
                d.schema,
                spec_gov_root(d, l.region),
                SlotM::Field(spec_region_root(d, l.region)),
                l.path,
            );
        }
        assert(spec_all_validate(d, dests, None));
    }
    if exists|i: int|
        0 <= i < dests.len() && #[trigger] dests[i] == (super::LocationM { region: Region::Rim, path: Seq::empty() }) {
        let i = choose|i: int|
            0 <= i < dests.len() && #[trigger] dests[i] == (super::LocationM { region: Region::Rim, path: Seq::empty() });
        assert(spec_governance(d, dests[i]) == GovM::Field(d.rim_root_field));
        assert(!spec_validates(None, spec_governance(d, dests[i])));
        assert(!spec_all_validate(d, dests, None));
    }
    if spec_copy_ok(d, source) && spec_copy(d, source).1 == Outcome::Applied && (forall|i: int, j: int|
        0 <= i < dests.len() && 0 <= j < dests.len() ==> !spec_contains(d, #[trigger] dests[i], #[trigger] dests[j])) {
        lemma_copy_delivers(d, source);
    }
}


// ===========================================================================
// Where the breadth operations put each cell
// ===========================================================================

/// Cell `(row, col)` of row-major grid cells `width` wide.
pub open spec fn spec_cell_rc(cells: Seq<Option<ContentM>>, width: int, row: int, col: int) -> Option<ContentM> {
    cells[width * row + col]
}

/// Replacing the grid around `at` makes the new grid the one around it,
/// with `at` naming the same row and column.
proof fn lemma_enclosing_after(d: DocumentM, at: LocationM, g2: GridM)
    requires
        super::spec_enclosing_ok(d, at),
        spec_enclosing(d, at) is Some,
    ensures
        spec_enclosing(spec_finish(d, at, g2).0, at) == Some(
            (g2, (spec_enclosing(d, at)->Some_0).1, (spec_enclosing(d, at)->Some_0).2),
        ),
{
    let par = spec_parent(at);
    let root = spec_region_root(d, at.region);
    lemma_put_read(root, par.path, Some(ContentM::Tree(g2)), par.path);
}

/// Adding a row next to the cell at `at` in a well-shaped grid, above its
/// row or below it: the grid grows by one row; the rows before the new row
/// are the old rows, the new row is empty, and the rows after it are the
/// old rows moved down by one. The outcome is applied and marks the
/// region; only that grid changes. Where `at` is not in a grid, nothing
/// changes.
pub proof fn lemma_add_row_places(d: DocumentM, at: LocationM, side: VSide)
    requires
        spec_add_row_ok(d, at, side),
        spec_enclosing(d, at) matches Some((g, row, col)) ==> g.height < usize::MAX,
    ensures
        spec_enclosing(d, at) is None ==> spec_add_row(d, at, side) == (d, Outcome::NoOp),
        spec_enclosing(d, at) matches Some((g, row, col)) ==> {
            let idx = row + match side {
                VSide::Above => 0int,
                VSide::Below => 1int,
            };
            let w = g.width as int;
            let (d2, o) = spec_add_row(d, at, side);
            &&& o == Outcome::Applied
            &&& spec_enclosing(d2, at) matches Some((g2, r2, c2)) && {
                &&& r2 == row && c2 == col
                &&& d2 == (DocumentM { dirty: d.dirty.marked(at.region), ..spec_with_grid(d, at, g2) })
                &&& g2.width == g.width && g2.height == g.height + 1
                &&& g2.cells.len() == g2.width * g2.height
                &&& forall|r: int, c: int|
                    0 <= r < g2.height && 0 <= c < w ==> #[trigger] spec_cell_rc(g2.cells, w, r, c) == if r
                        < idx {
                        spec_cell_rc(g.cells, w, r, c)
                    } else if r == idx {
                        None
                    } else {
                        spec_cell_rc(g.cells, w, r - 1, c)
                    }
            }
        },
{
    if let Some((g, row, col)) = spec_enclosing(d, at) {
        let idx = row + match side {
            VSide::Above => 0int,
            VSide::Below => 1int,
        };
        let w = g.width as int;
        let h = g.height as int;
        let g2 = GridM { cells: spec_insert_row_cells(g.cells, w, idx, None), height: (g.height + 1) as usize, ..g };
        lemma_enclosing_after(d, at, g2);
        assert(idx * w <= g.cells.len()) by (nonlinear_arith)
            requires
                0 <= idx <= h,
                g.cells.len() == w * h,
                w >= 0,
        ;
        assert(w * (h + 1) == w * h + w) by (nonlinear_arith);
        assert forall|r: int, c: int| 0 <= r < g2.height && 0 <= c < w implies #[trigger] spec_cell_rc(
            g2.cells,
            w,
            r,
            c,
        ) == if r < idx {
            spec_cell_rc(g.cells, w, r, c)
        } else if r == idx {
            None
        } else {
            spec_cell_rc(g.cells, w, r - 1, c)
        } by {
            assert(w * r + c < w * (h + 1)) by (nonlinear_arith)
                requires
                    0 <= r < h + 1,
                    0 <= c < w,
            ;
            lemma_insert_row_index(g.cells, w, idx, None, r, c);
        }
    }
}

/// Adding a column next to the cell at `at` in a well-shaped grid, left of
/// its column or right of it: the grid grows by one column; in every row
/// the columns before the new one are the old columns, the new column is
/// empty, and the columns after it are the old columns moved right by one.
/// The outcome is applied and marks the region; only that grid changes.
/// Where `at` is not in a grid, nothing changes.
pub proof fn lemma_add_column_places(d: DocumentM, at: LocationM, side: HSide)
    requires
        spec_add_column_ok(d, at, side),
        spec_enclosing(d, at) matches Some((g, row, col)) ==> g.width < usize::MAX,
    ensures
        spec_enclosing(d, at) is None ==> spec_add_column(d, at, side) == (d, Outcome::NoOp),
        spec_enclosing(d, at) matches Some((g, row, col)) ==> {
            let idx = col + match side {
                HSide::Left => 0int,
                HSide::Right => 1int,
            };
            let w = g.width as int;
            let (d2, o) = spec_add_column(d, at, side);
            &&& o == Outcome::Applied
            &&& spec_enclosing(d2, at) matches Some((g2, r2, c2)) && {
                &&& r2 == row && c2 == col
                &&& d2 == (DocumentM { dirty: d.dirty.marked(at.region), ..spec_with_grid(d, at, g2) })
                &&& g2.width == g.width + 1 && g2.height == g.height
                &&& g2.cells.len() == g2.width * g2.height
                &&& forall|r: int, c: int|
                    0 <= r < g2.height && 0 <= c <= w ==> #[trigger] spec_cell_rc(g2.cells, w + 1, r, c)
                        == if c < idx {
                        spec_cell_rc(g.cells, w, r, c)
                    } else if c == idx {
                        None
                    } else {
                        spec_cell_rc(g.cells, w, r, c - 1)
                    }
            }
        },
{
    if let Some((g, row, col)) = spec_enclosing(d, at) {
        let idx = col + match side {
            HSide::Left => 0int,
            HSide::Right => 1int,
        };
        let w = g.width as int;
        let h = g.height as nat;
        let g2 = GridM {
            cells: spec_insert_col_cells(g.cells, w, idx, h, None),
            width: (g.width + 1) as usize,
            ..g
        };
        lemma_enclosing_after(d, at, g2);
        lemma_insert_col_len(g.cells, w, idx, h, None);
        assert forall|r: int, c: int| 0 <= r < g2.height && 0 <= c <= w implies #[trigger] spec_cell_rc(
            g2.cells,
            w + 1,
            r,
            c,
        ) == if c < idx {
            spec_cell_rc(g.cells, w, r, c)
        } else if c == idx {
            None
        } else {
            spec_cell_rc(g.cells, w, r, c - 1)
        } by {
            if c < idx {
                lemma_insert_col_index(g.cells, w, idx, h, None, c, r);
            } else if c == idx {
                lemma_insert_col_fill(g.cells, w, idx, h, None, r);
            } else {
                lemma_insert_col_index(g.cells, w, idx, h, None, c - 1, r);
            }
        }
    }
}

/// Deleting the row above or below the cell at `at` in a well-shaped grid:
/// where there is no such row (the top row, the bottom row, or a row
/// outside the grid), or `at` is not in a grid, nothing changes. Otherwise
/// the grid loses that row, the rows before it are kept and the rows after
/// it move up by one; the outcome is applied and marks the region, and only
/// that grid changes.
pub proof fn lemma_delete_row_places(d: DocumentM, at: LocationM, side: VSide)
    requires
        spec_delete_row_ok(d, at, side),
    ensures
        spec_enclosing(d, at) is None ==> spec_delete_row(d, at, side) == (d, Outcome::NoOp),
        spec_enclosing(d, at) matches Some((g, row, col)) ==> {
            let gone = match side {
                VSide::Above => row - 1,
                VSide::Below => row + 1,
            };
            let w = g.width as int;
            let (d2, o) = spec_delete_row(d, at, side);
            &&& !(0 <= gone < g.height) ==> (d2, o) == (d, Outcome::NoOp)
            &&& 0 <= gone < g.height ==> {
                &&& o == Outcome::Applied
                &&& spec_enclosing(d2, at) matches Some((g2, r2, c2)) && {
                    &&& r2 == row && c2 == col
                    &&& d2 == (DocumentM { dirty: d.dirty.marked(at.region), ..spec_with_grid(d, at, g2) })
                    &&& g2.width == g.width && g2.height == g.height - 1
                    &&& g2.cells.len() == g2.width * g2.height
                    &&& forall|r: int, c: int|
                        0 <= r < g2.height && 0 <= c < w ==> #[trigger] spec_cell_rc(g2.cells, w, r, c)
                            == if r < gone {
                            spec_cell_rc(g.cells, w, r, c)
                        } else {
                            spec_cell_rc(g.cells, w, r + 1, c)
                        }
                }
            }
        },
{
    if let Some((g, row, col)) = spec_enclosing(d, at) {
        let gone = match side {
            VSide::Above => row - 1,
            VSide::Below => row + 1,
        };
        let w = g.width as int;
        let h = g.height as int;
        if 0 <= gone < h {
            let g2 = GridM { cells: spec_delete_row_cells(g.cells, w, gone), height: (g.height - 1) as usize, ..g };
            lemma_enclosing_after(d, at, g2);
            assert(gone * w + w <= g.cells.len()) by (nonlinear_arith)
                requires
                    0 <= gone < h,
                    g.cells.len() == w * h,
                    w >= 0,
            ;
            assert(w * (h - 1) == w * h - w) by (nonlinear_arith);
            assert forall|r: int, c: int| 0 <= r < g2.height && 0 <= c < w implies #[trigger] spec_cell_rc(
                g2.cells,
                w,
                r,
                c,
            ) == if r < gone {
                spec_cell_rc(g.cells, w, r, c)
            } else {
                spec_cell_rc(g.cells, w, r + 1, c)
            } by {
                assert(w * r + c < w * (h - 1)) by (nonlinear_arith)
                    requires
                        0 <= r < h - 1,
                        0 <= c < w,
                ;
                lemma_delete_row_index(g.cells, w, gone, r, c);
            }
        }
    }
}

/// Deleting the column left or right of the cell at `at` in a well-shaped
/// grid: where there is no such column, or `at` is not in a grid, nothing
/// changes. Otherwise the grid loses that column, in every row the columns
/// before it are kept and the columns after it move left by one; the
/// outcome is applied and marks the region, and only that grid changes.
pub proof fn lemma_delete_column_places(d: DocumentM, at: LocationM, side: HSide)
    requires
        spec_delete_column_ok(d, at, side),
    ensures
        spec_enclosing(d, at) is None ==> spec_delete_column(d, at, side) == (d, Outcome::NoOp),
        spec_enclosing(d, at) matches Some((g, row, col)) ==> {
            let gone = match side {
                HSide::Left => col - 1,
                HSide::Right => col + 1,
            };
            let w = g.width as int;
            let (d2, o) = spec_delete_column(d, at, side);
            &&& !(0 <= gone < g.width) ==> (d2, o) == (d, Outcome::NoOp)
            &&& 0 <= gone < g.width ==> {
                &&& o == Outcome::Applied
                &&& spec_enclosing(d2, at) matches Some((g2, r2, c2)) && {
                    &&& r2 == row && c2 == col
                    &&& d2 == (DocumentM { dirty: d.dirty.marked(at.region), ..spec_with_grid(d, at, g2) })
                    &&& g2.width == g.width - 1 && g2.height == g.height
                    &&& g2.cells.len() == g2.width * g2.height
                    &&& forall|r: int, c: int|
                        0 <= r < g2.height && 0 <= c < w - 1 ==> #[trigger] spec_cell_rc(g2.cells, w - 1, r, c)
                            == if c < gone {
                            spec_cell_rc(g.cells, w, r, c)
                        } else {
                            spec_cell_rc(g.cells, w, r, c + 1)
                        }
                }
            }
        },
{
    if let Some((g, row, col)) = spec_enclosing(d, at) {
        let gone = match side {
            HSide::Left => col - 1,
            HSide::Right => col + 1,
        };
        let w = g.width as int;
        let h = g.height as nat;
        if 0 <= gone < w {
            let g2 = GridM {
                cells: spec_delete_col_cells(g.cells, w, gone, h),
                width: (g.width - 1) as usize,
                ..g
            };
            lemma_enclosing_after(d, at, g2);
            lemma_delete_col_len(g.cells, w, gone, h);
            assert forall|r: int, c: int| 0 <= r < g2.height && 0 <= c < w - 1 implies #[trigger] spec_cell_rc(
                g2.cells,
                w - 1,
                r,
                c,
            ) == if c < gone {
                spec_cell_rc(g.cells, w, r, c)
            } else {
                spec_cell_rc(g.cells, w, r, c + 1)
            } by {
                if c < gone {
                    lemma_delete_col_index(g.cells, w, gone, h, c, r);
                } else {
                    lemma_delete_col_index(g.cells, w, gone, h, c + 1, r);
                }
            }
        }
    }
}


/// The palette of a new document is one column: row `i` holds an instance
/// of struct `i` at variant 0, for every struct in schema order, then an
/// empty symbol, then the default tree.
pub proof fn lemma_rom_palette(schema: Seq<StructDefM>)
    requires
        schema.len() + 2 <= usize::MAX,
    ensures
        ({
            let g = super::spec_build_rom(schema)->Tree_0;
            let n = schema.len() as int;
            &&& super::spec_build_rom(schema) is Tree
            &&& g.width == 1 && g.height == n + 2 && g.cells.len() == n + 2
            &&& forall|i: int|
                0 <= i < n ==> #[trigger] g.cells[i] == Some(
                    ContentM::Value(LeafM::Struct(StructM { struct_id: i as usize, variant: 0, fields: Seq::empty() })),
                )
            &&& g.cells[n] == Some(ContentM::Value(LeafM::Symbol(Seq::empty())))
            &&& g.cells[n + 1] == Some(super::spec_default_tree())
        }),
{
}


// ===========================================================================
// Governance, step by step
// ===========================================================================

proof fn lemma_gov_walk_push(schema: Seq<StructDefM>, gov: GovM, slot: SlotM, p: Seq<PathStep>, s: PathStep)
    requires
        spec_resolve(slot, p.push(s)) is Some,
    ensures
        spec_resolve(slot, p) is Some,
        (spec_resolve(slot, p)->Some_0).content() is Some,
        spec_gov_walk(schema, gov, slot, p.push(s)) == spec_gov_step(
            schema,
            spec_gov_walk(schema, gov, slot, p),
            (spec_resolve(slot, p)->Some_0).content()->Some_0,
            s,
        ),
    decreases p.len(),
{
    let q = p.push(s);
    let c = slot.content()->Some_0;
    if p.len() == 0 {
        assert(q.drop_first() =~= Seq::<PathStep>::empty());
        assert(q[0] == s);
        let next = spec_step(c, s)->Some_0;
        let g2 = spec_gov_step(schema, gov, c, s);
        assert(spec_gov_walk(schema, g2, next, q.drop_first()) == g2);
        assert(spec_gov_walk(schema, gov, slot, p) == gov);
    } else {
        assert(q[0] == p[0]);
        assert(q.drop_first() =~= p.drop_first().push(s));
        let next = spec_step(c, p[0])->Some_0;
        lemma_gov_walk_push(schema, spec_gov_step(schema, gov, c, p[0]), next, p.drop_first(), s);
    }
}

/// What governs a cell, step by step: the Rim root is governed by the root
/// field, the Ram and Rom roots by nothing; a struct's field by that
/// field's definition in the struct's variant; a grid cell by the element
/// type of a tree field, the same element type inside a governed grid, and
/// by nothing inside an ungoverned grid.
pub proof fn lemma_governance_steps(d: DocumentM, loc: LocationM, s: PathStep)
    requires
        spec_location_ok(d, LocationM { region: loc.region, path: loc.path.push(s) }),
    ensures
        spec_governance(d, LocationM { region: Region::Rim, path: Seq::empty() }) == GovM::Field(
            d.rim_root_field,
        ),
        spec_governance(d, LocationM { region: Region::Ram, path: Seq::empty() }) == GovM::Ungoverned,
        spec_governance(d, LocationM { region: Region::Rom, path: Seq::empty() }) == GovM::Ungoverned,
        spec_location_ok(d, loc),
        ({
            let child = LocationM { region: loc.region, path: loc.path.push(s) };
            match s {
                PathStep::Field { index } => {
                    let si = spec_content_at(d, loc)->Some_0->Value_0->Struct_0;
                    spec_governance(d, child) == GovM::Field(
                        d.schema[si.struct_id as int].variants[si.variant as int].fields[index as int],
                    )
                },
                PathStep::Grid { .. } => spec_governance(d, child) == match spec_governance(d, loc) {
                    GovM::Field(fd) => GovM::GovernedGridCell(fd.elem),
                    GovM::GovernedGridCell(e) => GovM::GovernedGridCell(e),
                    GovM::Ungoverned => GovM::Ungoverned,
                },
            }
        }),
{
    let root = SlotM::Field(spec_region_root(d, loc.region));
    lemma_gov_walk_push(d.schema, spec_gov_root(d, loc.region), root, loc.path, s);
    let c = (spec_resolve(root, loc.path)->Some_0).content()->Some_0;
    assert(spec_content_at(d, loc) == Some(c));
    assert(spec_step(c, s) is Some) by {
        lemma_resolve_step(root, loc.path, s);
    }
}

proof fn lemma_resolve_step(slot: SlotM, p: Seq<PathStep>, s: PathStep)
    requires
        spec_resolve(slot, p.push(s)) is Some,
    ensures
        spec_resolve(slot, p) is Some,
        (spec_resolve(slot, p)->Some_0).content() is Some,
        spec_step((spec_resolve(slot, p)->Some_0).content()->Some_0, s) is Some,
    decreases p.len(),
{
    let q = p.push(s);
    let c = slot.content()->Some_0;
    if p.len() == 0 {
        assert(q[0] == s);
    } else {
        assert(q[0] == p[0]);
        assert(q.drop_first() =~= p.drop_first().push(s));
        lemma_resolve_step(spec_step(c, p[0])->Some_0, p.drop_first(), s);
    }
}


// ===========================================================================
// What `apply` does with each operation
// ===========================================================================

/// `apply` refuses, as a no-op, every operation other than a copy whose
/// cell lies in Rom; otherwise it carries out the operation named: a copy
/// from its source, a row or column added or deleted on the side named,
/// the variant selected, or the symbol edited.
pub proof fn lemma_apply_does(d: DocumentM, op: OperationM)
    ensures
        match op {
            OperationM::Copy { source } => spec_apply(d, op) == spec_copy(d, source),
            OperationM::AddRow { at, side } => spec_apply(d, op) == if at.region == Region::Rom {
                (d, Outcome::NoOp)
            } else {
                spec_add_row(d, at, side)
            },
            OperationM::AddColumn { at, side } => spec_apply(d, op) == if at.region == Region::Rom {
                (d, Outcome::NoOp)
            } else {
                spec_add_column(d, at, side)
            },
            OperationM::DeleteRow { at, side } => spec_apply(d, op) == if at.region == Region::Rom {
                (d, Outcome::NoOp)
            } else {
                spec_delete_row(d, at, side)
            },
            OperationM::DeleteColumn { at, side } => spec_apply(d, op) == if at.region == Region::Rom {
                (d, Outcome::NoOp)
            } else {
                spec_delete_column(d, at, side)
            },
            OperationM::SelectVariant { at, variant } => spec_apply(d, op) == if at.region == Region::Rom {
                (d, Outcome::NoOp)
            } else {
                spec_select_variant(d, at, variant)
            },
            OperationM::EditSymbol { at, text } => spec_apply(d, op) == if at.region == Region::Rom {
                (d, Outcome::NoOp)
            } else {
                spec_edit_symbol(d, at, text)
            },
        },
{
}


/// What integrity promises of every cell a location reaches: a grid is
/// rectangular and non-empty; a struct names a struct and variant of the
/// schema and carries one field per field of that variant, each conforming
/// to its definition; and the Rim root conforms to the root field.
pub proof fn lemma_integrity_cells(d: DocumentM, loc: LocationM)
    requires
        spec_integrity(d),
        spec_location_ok(d, loc),
    ensures
        spec_conforms(d.rim, d.rim_root_field),
        spec_content_at(d, loc) matches Some(ContentM::Tree(g)) ==> g.width >= 1 && g.height >= 1
            && g.cells.len() == g.width * g.height,
        spec_content_at(d, loc) matches Some(ContentM::Value(LeafM::Struct(si))) ==> {
            &&& si.struct_id < d.schema.len()
            &&& si.variant < d.schema[si.struct_id as int].variants.len()
            &&& si.fields.len() == d.schema[si.struct_id as int].variants[si.variant as int].fields.len()
            &&& forall|i: int|
                0 <= i < si.fields.len() ==> spec_conforms(
                    #[trigger] si.fields[i],
                    d.schema[si.struct_id as int].variants[si.variant as int].fields[i],
                )
        },
{
    lemma_location_typed(d, loc);
}

} // verus!
