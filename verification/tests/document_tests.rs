use rudra::document::{
    apply, check_integrity, content_eq, flatten, CellContent, CellLocation, Document, FieldDef,
    Governance, Grid, HSide, History, LeafValue, Operation, Outcome, PathStep, Region,
    RegionMask, Schema, StructDef, TypeRef, VSide, VariantDef,
};

// struct 0 "Point": variant 0 "" (empty), variant 1 "xy" {x: Symbol, y: Symbol}
// struct 1 "List":  variant 0 "" (empty), variant 1 "items" {items: Tree<Symbol>}
fn sample_schema() -> Schema {
    let sym = |name: &str| FieldDef { name: name.into(), elem: TypeRef::Symbol, is_tree: false };
    Schema {
        structs: vec![
            StructDef {
                name: "Point".into(),
                variants: vec![
                    VariantDef { name: String::new(), fields: vec![] },
                    VariantDef {
                        name: "xy".into(),
                        fields: vec![sym("x"), sym("y")],
                    },
                ],
            },
            StructDef {
                name: "List".into(),
                variants: vec![
                    VariantDef { name: String::new(), fields: vec![] },
                    VariantDef {
                        name: "items".into(),
                        fields: vec![FieldDef {
                            name: "items".into(),
                            elem: TypeRef::Symbol,
                            is_tree: true,
                        }],
                    },
                ],
            },
        ],
    }
}

// a Rim whose root field is a single Point
fn point_doc() -> Document {
    Document::new(
        sample_schema(),
        FieldDef { name: "root".into(), elem: TypeRef::Struct(0), is_tree: false },
    )
}

// a Rim whose root field is a Tree<Symbol>
fn tree_doc() -> Document {
    Document::new(
        sample_schema(),
        FieldDef { name: "root".into(), elem: TypeRef::Symbol, is_tree: true },
    )
}

fn sym(s: &str) -> CellContent {
    CellContent::Value(LeafValue::Symbol(s.into()))
}

#[test]
fn new_document_passes_integrity() {
    assert_eq!(check_integrity(&point_doc()), Ok(()));
    assert_eq!(check_integrity(&tree_doc()), Ok(()));
}

#[test]
fn new_document_has_the_starting_selection() {
    // design §6.4: Rom root highlighted+super, Rim root highlighted, Ram empty.
    let d = point_doc();
    assert_eq!(d.selection.rom, CellLocation::root(Region::Rom));
    assert_eq!(d.selection.rim, CellLocation::root(Region::Rim));
    assert!(d.selection.ram.is_empty());
    assert_eq!(d.selection.superhighlighted, CellLocation::root(Region::Rom));
}

#[test]
fn rom_holds_the_palette() {
    let d = point_doc();
    // 2 structs + 1 symbol + 1 default tree == 4 cells.
    if let CellContent::Tree(g) = &d.rom {
        assert_eq!(g.cells().len(), 4);
        assert_eq!((g.width(), g.height()), (1, 4));
    } else {
        panic!("Rom root is not a tree");
    }
}

#[test]
fn flatten_walks_the_grid_axis_only() {
    // a 1x3 tree: ["a", empty, "b"]  -> flattens to [a, b]
    let g = Grid::new(vec![Some(sym("a")), None, Some(sym("b"))], 3, 1);
    let tree = CellContent::Tree(g);
    let mut out = Vec::new();
    flatten(&tree, &mut out);
    assert_eq!(out.len(), 2);
}

#[test]
fn semantic_equality_ignores_layout() {
    // a bare value and a 1x1 tree holding it are semantically equal...
    let bare = sym("hi");
    let wrapped = CellContent::Tree(Grid::single(Some(sym("hi"))));
    assert!(content_eq(&bare, &wrapped));
    // ...but structurally (the derived PartialEq) distinct.
    assert_ne!(bare, wrapped);
}

#[test]
fn governance_of_roots() {
    let d = point_doc();
    // Rim root is governed by the root field.
    assert!(matches!(
        d.governance(&CellLocation::root(Region::Rim)),
        Governance::Field(_)
    ));
    // Ram and Rom roots are ungoverned trees.
    assert_eq!(d.governance(&CellLocation::root(Region::Ram)), Governance::Ungoverned);
    assert_eq!(d.governance(&CellLocation::root(Region::Rom)), Governance::Ungoverned);
}

#[test]
fn copy_into_ungoverned_ram_cell_always_succeeds() {
    let mut d = tree_doc();
    // select the Ram root cell as the (single) destination
    d.select(CellLocation::root(Region::Ram));
    // source: the Rom symbol cell (index 2 of Rom's column: structs 0,1 then symbol)
    let src = CellLocation { region: Region::Rom, path: vec![PathStep::Grid { row: 2, col: 0 }] };
    assert_eq!(apply(&mut d, Operation::Copy { source: src }), Outcome::Applied);
    // Ram root is now a Symbol (a tree was overwritten by a value — fine, ungoverned).
    assert!(matches!(d.ram, CellContent::Value(LeafValue::Symbol(_))));
}

#[test]
fn copy_type_match_into_rim_field_succeeds() {
    // Rim is a Point; give variant 1 so it has two Symbol fields.
    let mut d = point_doc();
    assert_eq!(
        apply(&mut d, Operation::SelectVariant { at: CellLocation::root(Region::Rim), variant: 1 }),
        Outcome::Applied
    );
    // destination: field 0 (x) of the Rim Point
    let dest = CellLocation { region: Region::Rim, path: vec![PathStep::Field { index: 0 }] };
    d.select(dest.clone());
    // source: Rom's symbol cell
    let src = CellLocation { region: Region::Rom, path: vec![PathStep::Grid { row: 2, col: 0 }] };
    assert_eq!(apply(&mut d, Operation::Copy { source: src }), Outcome::Applied);
    assert_eq!(check_integrity(&d), Ok(()));
}

#[test]
fn copy_type_mismatch_into_rim_field_is_rejected_and_reds() {
    let mut d = point_doc();
    apply(&mut d, Operation::SelectVariant { at: CellLocation::root(Region::Rim), variant: 1 });
    let dest = CellLocation { region: Region::Rim, path: vec![PathStep::Field { index: 0 }] };
    d.select(dest.clone());
    // source: Rom's default tree (index 3) — a tree, into a non-tree Symbol field
    let src = CellLocation { region: Region::Rom, path: vec![PathStep::Grid { row: 3, col: 0 }] };
    assert_eq!(apply(&mut d, Operation::Copy { source: src }), Outcome::Rejected);
    assert_eq!(d.selection.red, vec![dest]);
    // the document content is unchanged: still passes integrity
    assert_eq!(check_integrity(&d), Ok(()));
}

#[test]
fn copy_empty_into_a_field_is_rejected() {
    let mut d = point_doc();
    apply(&mut d, Operation::SelectVariant { at: CellLocation::root(Region::Rim), variant: 1 });
    let dest = CellLocation { region: Region::Rim, path: vec![PathStep::Field { index: 0 }] };
    d.select(dest);
    // source: the empty cell inside Rom's default tree (Rom cell 3 -> its cell (0,0))
    let src = CellLocation {
        region: Region::Rom,
        path: vec![PathStep::Grid { row: 3, col: 0 }, PathStep::Grid { row: 0, col: 0 }],
    };
    assert_eq!(apply(&mut d, Operation::Copy { source: src }), Outcome::Rejected);
}

#[test]
fn copy_into_a_governed_tree_grid_cell_accepts_a_value() {
    // Rim is a Tree<Symbol>; copy a Symbol into the root grid's only cell.
    let mut d = tree_doc();
    let dest = CellLocation { region: Region::Rim, path: vec![PathStep::Grid { row: 0, col: 0 }] };
    d.select(dest);
    let src = CellLocation { region: Region::Rom, path: vec![PathStep::Grid { row: 2, col: 0 }] };
    assert_eq!(apply(&mut d, Operation::Copy { source: src }), Outcome::Applied);
    assert_eq!(check_integrity(&d), Ok(()));
}

#[test]
fn add_and_delete_rows_keep_the_grid_rectangular() {
    let mut d = tree_doc(); // Rim root is a 1x1 Tree<Symbol>
    let cell = CellLocation { region: Region::Rim, path: vec![PathStep::Grid { row: 0, col: 0 }] };
    assert_eq!(apply(&mut d, Operation::AddRow { at: cell.clone(), side: VSide::Below }), Outcome::Applied);
    assert_eq!(apply(&mut d, Operation::AddColumn { at: cell.clone(), side: HSide::Right }), Outcome::Applied);
    if let CellContent::Tree(g) = &d.rim {
        assert_eq!((g.width(), g.height()), (2, 2));
        assert_eq!(g.cells().len(), 4);
    } else {
        panic!();
    }
    assert_eq!(check_integrity(&d), Ok(()));
}

#[test]
fn a_cell_cannot_delete_its_own_row() {
    // a 1x1 tree: there is no neighbouring row, so delete is a NoOp.
    let mut d = tree_doc();
    let cell = CellLocation { region: Region::Rim, path: vec![PathStep::Grid { row: 0, col: 0 }] };
    assert_eq!(apply(&mut d, Operation::DeleteRow { at: cell.clone(), side: VSide::Above }), Outcome::NoOp);
    assert_eq!(apply(&mut d, Operation::DeleteRow { at: cell, side: VSide::Below }), Outcome::NoOp);
}

#[test]
fn delete_row_removes_the_neighbour() {
    let mut d = tree_doc();
    let cell = CellLocation { region: Region::Rim, path: vec![PathStep::Grid { row: 0, col: 0 }] };
    apply(&mut d, Operation::AddRow { at: cell.clone(), side: VSide::Below }); // now 1x2
    assert_eq!(apply(&mut d, Operation::DeleteRow { at: cell, side: VSide::Below }), Outcome::Applied);
    if let CellContent::Tree(g) = &d.rim {
        assert_eq!(g.height(), 1);
    } else {
        panic!();
    }
}

#[test]
fn select_variant_rebuilds_the_field_list() {
    let mut d = point_doc();
    let root = CellLocation::root(Region::Rim);
    // variant 0 -> no fields
    if let CellContent::Value(LeafValue::Struct(si)) = &d.rim {
        assert_eq!(si.variant, 0);
        assert!(si.fields.is_empty());
    }
    apply(&mut d, Operation::SelectVariant { at: root, variant: 1 });
    if let CellContent::Value(LeafValue::Struct(si)) = &d.rim {
        assert_eq!(si.variant, 1);
        assert_eq!(si.fields.len(), 2); // x, y
    } else {
        panic!();
    }
}

#[test]
fn edit_symbol_changes_the_string() {
    let mut d = tree_doc();
    let cell = CellLocation { region: Region::Rim, path: vec![PathStep::Grid { row: 0, col: 0 }] };
    // first put a symbol there
    let src = CellLocation { region: Region::Rom, path: vec![PathStep::Grid { row: 2, col: 0 }] };
    d.select(cell.clone());
    apply(&mut d, Operation::Copy { source: src });
    // now edit it
    assert_eq!(
        apply(&mut d, Operation::EditSymbol { at: cell.clone(), text: "hello".into() }),
        Outcome::Applied
    );
    match d.resolve(&cell).content() {
        Some(CellContent::Value(LeafValue::Symbol(s))) => assert_eq!(s, "hello"),
        _ => panic!(),
    }
}

#[test]
fn selection_rom_pick_clears_ram_highlights() {
    let mut d = tree_doc();
    // highlight two Ram cells
    d.select(CellLocation::root(Region::Ram));
    // (Ram root is 1x1; toggle the same cell on then a Rim pick)
    assert_eq!(d.selection.ram.len(), 1);
    d.select(CellLocation::root(Region::Rim)); // a non-Ram pick
    assert!(d.selection.ram.is_empty(), "a Rom/Rim pick clears Ram highlights");
}

#[test]
fn selection_ram_toggle() {
    let mut d = tree_doc();
    // give Ram a second cell, so two distinct cells can be selected
    let a = CellLocation { region: Region::Ram, path: vec![PathStep::Grid { row: 0, col: 0 }] };
    apply(&mut d, Operation::AddRow { at: a.clone(), side: VSide::Below });
    let b = CellLocation { region: Region::Ram, path: vec![PathStep::Grid { row: 1, col: 0 }] };

    d.select(a.clone()); // toggle A on
    d.select(b.clone()); // toggle B on
    assert_eq!(d.selection.ram, vec![a.clone(), b.clone()]);
    assert_eq!(d.selection.superhighlighted, b);

    d.select(a.clone()); // toggle A off
    assert_eq!(d.selection.ram, vec![b.clone()]); // A is no longer highlighted
    // a Ram click — even a toggle-off — moves the superhighlight to that
    // cell; A is now superhighlighted but not highlighted (design §6.2)
    assert_eq!(d.selection.superhighlighted, a);
}

#[test]
fn rom_is_read_only() {
    let mut d = point_doc();
    let rom_cell = CellLocation { region: Region::Rom, path: vec![PathStep::Grid { row: 0, col: 0 }] };
    assert_eq!(
        apply(&mut d, Operation::SelectVariant { at: rom_cell.clone(), variant: 1 }),
        Outcome::NoOp
    );
    assert_eq!(
        apply(&mut d, Operation::EditSymbol { at: rom_cell, text: "x".into() }),
        Outcome::NoOp
    );
}

#[test]
fn integrity_catches_a_bad_variant_index() {
    let mut d = point_doc();
    if let CellContent::Value(LeafValue::Struct(si)) = &mut d.rim {
        si.variant = 99; // out of range
    }
    assert!(check_integrity(&d).is_err());
}

#[test]
fn integrity_catches_a_non_rectangular_grid() {
    let mut d = tree_doc();
    // hand-build a broken grid: claims 2x2 but has 3 cells
    d.rim = CellContent::Tree(Grid {
        cells: vec![None, None, None],
        width: 2,
        height: 2,
    });
    assert!(check_integrity(&d).is_err());
}

#[test]
fn integrity_catches_a_field_arity_mismatch() {
    let mut d = point_doc();
    if let CellContent::Value(LeafValue::Struct(si)) = &mut d.rim {
        si.variant = 1; // variant 1 declares 2 fields
        si.fields = vec![]; // but carries 0
    }
    assert!(check_integrity(&d).is_err());
}

#[test]
fn snapshot_round_trip() {
    let mut d = point_doc();
    apply(&mut d, Operation::SelectVariant { at: CellLocation::root(Region::Rim), variant: 1 });
    let snap = d.snapshot();
    let restored = Document::from_snapshot(snap);
    assert_eq!(check_integrity(&restored), Ok(()));
    assert_eq!(restored.rim, d.rim);
    assert_eq!(restored.dirty, RegionMask::all());
}

#[test]
fn undo_redo() {
    let mut d = tree_doc();
    let mut hist = History::default();
    let cell = CellLocation { region: Region::Rim, path: vec![PathStep::Grid { row: 0, col: 0 }] };

    hist.record(&d);
    apply(&mut d, Operation::AddRow { at: cell, side: VSide::Below });
    if let CellContent::Tree(g) = &d.rim {
        assert_eq!(g.height(), 2);
    }

    d = hist.undo(&d).expect("can undo");
    if let CellContent::Tree(g) = &d.rim {
        assert_eq!(g.height(), 1, "undo restored the 1x1 grid");
    }

    d = hist.redo(&d).expect("can redo");
    if let CellContent::Tree(g) = &d.rim {
        assert_eq!(g.height(), 2, "redo re-applied the row");
    }
}

#[test]
fn delete_below_an_out_of_range_row_is_a_no_op() {
    let mut d = tree_doc();
    let before = d.clone();
    let cell = CellLocation { region: Region::Rim, path: vec![PathStep::Grid { row: 5, col: 0 }] };
    assert_eq!(apply(&mut d, Operation::DeleteRow { at: cell, side: VSide::Below }), Outcome::NoOp);
    assert_eq!(format!("{:?}", d), format!("{:?}", before));
}

#[test]
fn row_operations_ignore_the_column_and_column_operations_the_row() {
    let mut d = tree_doc(); // Rim root is a 1x1 Tree<Symbol>
    let far_col = CellLocation { region: Region::Rim, path: vec![PathStep::Grid { row: 0, col: 9 }] };
    assert_eq!(apply(&mut d, Operation::AddRow { at: far_col, side: VSide::Below }), Outcome::Applied);
    let far_row = CellLocation { region: Region::Rim, path: vec![PathStep::Grid { row: 9, col: 0 }] };
    assert_eq!(apply(&mut d, Operation::AddColumn { at: far_row, side: HSide::Right }), Outcome::Applied);
    if let CellContent::Tree(g) = &d.rim {
        assert_eq!((g.width(), g.height()), (2, 2));
        assert_eq!(g.cells().len(), 4);
    } else {
        panic!();
    }
    assert_eq!(check_integrity(&d), Ok(()));
}

#[test]
fn selecting_the_same_variant_twice_changes_nothing_more() {
    let mut d = point_doc();
    let at = CellLocation::root(Region::Rim);
    assert_eq!(apply(&mut d, Operation::SelectVariant { at: at.clone(), variant: 1 }), Outcome::Applied);
    let once = format!("{:?}", d);
    assert_eq!(apply(&mut d, Operation::SelectVariant { at: at.clone(), variant: 1 }), Outcome::Applied);
    assert_eq!(format!("{:?}", d), once);
    // an out-of-range variant is a no-op both times
    assert_eq!(apply(&mut d, Operation::SelectVariant { at: at.clone(), variant: 7 }), Outcome::NoOp);
    assert_eq!(apply(&mut d, Operation::SelectVariant { at, variant: 7 }), Outcome::NoOp);
    assert_eq!(format!("{:?}", d), once);
}

#[test]
fn semantic_equality_is_transitive_across_layouts() {
    let a = sym("q");
    let b = CellContent::Tree(Grid::single(Some(sym("q"))));
    let c = CellContent::Tree(Grid::single(Some(CellContent::Tree(Grid::single(Some(sym("q")))))));
    assert!(content_eq(&a, &b));
    assert!(content_eq(&b, &c));
    assert!(content_eq(&a, &c));
    assert!(content_eq(&c, &a));
    // and a different value is equal to none of them
    let other = CellContent::Tree(Grid::single(Some(sym("r"))));
    assert!(!content_eq(&a, &other));
    assert!(!content_eq(&c, &other));
}
