use rudra::custom::sample_types;
use rudra::document::{
    apply, check_integrity, value_eq, CellContent, CellLocation, Document, FieldDef, History,
    IntegrityError, LeafValue, Operation, Outcome, PathStep, Region, RegionMask, Schema,
    StructDef, StructInstance, TypeRef, VSide, VariantDef,
};

fn schema() -> Schema {
    Schema {
        structs: vec![StructDef {
            name: "Point".into(),
            variants: vec![
                VariantDef { name: String::new(), fields: vec![] },
                VariantDef {
                    name: "xy".into(),
                    fields: vec![
                        FieldDef { name: "x".into(), elem: TypeRef::Symbol, is_tree: false },
                        FieldDef { name: "y".into(), elem: TypeRef::Symbol, is_tree: false },
                    ],
                },
            ],
        }],
    }
}

fn tree_doc() -> Document {
    Document::new(schema(), FieldDef { name: "root".into(), elem: TypeRef::Symbol, is_tree: true })
}

fn cell(region: Region, row: usize, col: usize) -> CellLocation {
    CellLocation { region, path: vec![PathStep::Grid { row, col }] }
}

#[test]
fn rom_never_changes() {
    let mut d = tree_doc();
    let rom = d.rom.clone();
    let rom_cell = cell(Region::Rom, 0, 0);
    assert_eq!(apply(&mut d, Operation::AddRow { at: rom_cell.clone(), side: VSide::Below }), Outcome::NoOp);
    assert_eq!(apply(&mut d, Operation::EditSymbol { at: cell(Region::Rom, 1, 0), text: "x".into() }), Outcome::NoOp);
    // a superhighlighted Rom cell is no copy destination
    d.select(rom_cell.clone());
    assert_eq!(apply(&mut d, Operation::Copy { source: cell(Region::Rom, 1, 0) }), Outcome::NoOp);
    d.select(cell(Region::Ram, 0, 0));
    assert_eq!(apply(&mut d, Operation::Copy { source: cell(Region::Rom, 1, 0) }), Outcome::Applied);
    assert_eq!(d.rom, rom);
}

#[test]
fn a_rejected_copy_changes_no_content() {
    let mut d = Document::new(schema(), FieldDef { name: "root".into(), elem: TypeRef::Struct(0), is_tree: false });
    apply(&mut d, Operation::SelectVariant { at: CellLocation::root(Region::Rim), variant: 1 });
    let dest = CellLocation { region: Region::Rim, path: vec![PathStep::Field { index: 1 }] };
    d.select(dest.clone());
    let (rom, ram, rim) = (d.rom.clone(), d.ram.clone(), d.rim.clone());
    // the Rom default tree is no symbol
    assert_eq!(apply(&mut d, Operation::Copy { source: cell(Region::Rom, 2, 0) }), Outcome::Rejected);
    assert_eq!((d.rom.clone(), d.ram.clone(), d.rim.clone()), (rom, ram, rim));
    assert_eq!(d.selection.red, vec![dest]);
    assert_eq!(d.dirty, RegionMask::all());
}

#[test]
fn an_applied_copy_into_ram_clears_the_ram_highlights() {
    let mut d = tree_doc();
    let a = cell(Region::Ram, 0, 0);
    apply(&mut d, Operation::AddRow { at: a.clone(), side: VSide::Below });
    d.select(a.clone());
    d.select(cell(Region::Ram, 1, 0));
    assert_eq!(d.selection.ram.len(), 2);
    assert_eq!(apply(&mut d, Operation::Copy { source: cell(Region::Rom, 1, 0) }), Outcome::Applied);
    assert!(d.selection.ram.is_empty());
    assert!(d.selection.red.is_empty());
    assert_eq!(check_integrity(&d), Ok(()));
}

#[test]
fn record_then_undo_restores_and_record_clears_redo() {
    let mut d = tree_doc();
    let mut h = History::default();
    assert!(!h.can_undo() && !h.can_redo());
    let at = cell(Region::Rim, 0, 0);
    h.record(&d);
    apply(&mut d, Operation::AddRow { at: at.clone(), side: VSide::Below });
    assert!(h.can_undo());
    let after = d.rim.clone();
    d = h.undo(&d).expect("one step recorded");
    let fresh = tree_doc();
    assert_eq!(d.rim, fresh.rim);
    assert_eq!(d.ram, fresh.ram);
    assert_eq!(d.rom, fresh.rom);
    assert_eq!(d.selection, fresh.selection);
    assert_eq!(d.dirty, RegionMask::all());
    assert!(h.can_redo() && !h.can_undo());
    d = h.redo(&d).expect("one step undone");
    assert_eq!(d.rim, after);
    h.record(&d);
    assert!(!h.can_redo());
    assert!(h.undo(&d).is_some());
    assert!(h.undo(&d).is_some());
    assert!(h.undo(&d).is_none());
}

#[test]
fn value_equality_compares_struct_fields_semantically() {
    let a = LeafValue::Struct(StructInstance {
        struct_id: 0,
        variant: 1,
        fields: vec![
            CellContent::Value(LeafValue::Symbol("p".into())),
            CellContent::Value(LeafValue::Symbol("q".into())),
        ],
    });
    let b = LeafValue::Struct(StructInstance {
        struct_id: 0,
        variant: 1,
        fields: vec![
            CellContent::Tree(rudra::document::Grid::single(Some(CellContent::Value(LeafValue::Symbol("p".into()))))),
            CellContent::Value(LeafValue::Symbol("q".into())),
        ],
    });
    assert!(value_eq(&a, &b));
    assert!(!value_eq(&a, &LeafValue::Symbol("p".into())));
}

#[test]
fn integrity_messages() {
    let mut d = tree_doc();
    d.schema.structs[0].variants[0].fields.push(FieldDef { name: "z".into(), elem: TypeRef::Symbol, is_tree: false });
    assert_eq!(
        check_integrity(&d),
        Err(IntegrityError("struct 0 ('Point'): variant 0 is not the empty variant".into()))
    );
    let mut d = tree_doc();
    d.schema.structs[0].variants[1].fields[0].elem = TypeRef::Struct(5);
    assert_eq!(check_integrity(&d), Err(IntegrityError("struct id 5 is out of range".into())));
    let mut d = tree_doc();
    d.schema.structs.push(StructDef { name: "Empty".into(), variants: vec![] });
    assert_eq!(check_integrity(&d), Err(IntegrityError("struct 1 ('Empty') has no variants".into())));
    let mut d = tree_doc();
    d.rim = CellContent::Value(LeafValue::Symbol("x".into()));
    assert_eq!(
        check_integrity(&d),
        Err(IntegrityError("the Rim root does not conform to the root field".into()))
    );
    let mut d = tree_doc();
    d.ram = CellContent::Value(LeafValue::Struct(StructInstance { struct_id: 0, variant: 1, fields: vec![] }));
    assert_eq!(
        check_integrity(&d),
        Err(IntegrityError("struct 0 variant 1: has 0 field cells, expected 2".into()))
    );
    let mut d = tree_doc();
    d.ram = CellContent::Value(LeafValue::Struct(StructInstance { struct_id: 0, variant: 4, fields: vec![] }));
    assert_eq!(check_integrity(&d), Err(IntegrityError("variant 4 is out of range for struct 0".into())));
    let mut d = tree_doc();
    d.ram = CellContent::Value(LeafValue::Struct(StructInstance {
        struct_id: 0,
        variant: 1,
        fields: vec![
            CellContent::Tree(rudra::document::Grid::single(None)),
            CellContent::Value(LeafValue::Symbol("y".into())),
        ],
    }));
    assert_eq!(
        check_integrity(&d),
        Err(IntegrityError("field 'x' of struct 0 does not conform to its declared type".into()))
    );
    let mut d = tree_doc();
    d.ram = CellContent::Tree(rudra::document::Grid { cells: vec![], width: 0, height: 1 });
    assert_eq!(check_integrity(&d), Err(IntegrityError("a grid is empty".into())));
    let mut d = tree_doc();
    d.ram = CellContent::Tree(rudra::document::Grid { cells: vec![None], width: 2, height: 1 });
    assert_eq!(
        check_integrity(&d),
        Err(IntegrityError("a grid is not rectangular: 1 cells, expected 2x1".into()))
    );
}

#[test]
fn sample_schema_shape() {
    let t = sample_types();
    assert_eq!(t.types.len(), 5);
    assert_eq!(t.types[0].name, "statement");
    assert_eq!(t.types[2].variants.len(), 3);
    assert!(t.rim.is_tree);
}

#[test]
fn numbers_in_messages_are_decimal() {
    assert_eq!(rudra::document::decimal(0), "0");
    assert_eq!(rudra::document::decimal(7), "7");
    assert_eq!(rudra::document::decimal(10), "10");
    assert_eq!(rudra::document::decimal(305), "305");
    assert_eq!(rudra::document::decimal(usize::MAX), usize::MAX.to_string());
}

#[test]
fn the_first_failing_check_is_reported() {
    // Rom is checked before Ram, and Ram before Rim
    let mut d = tree_doc();
    d.ram = CellContent::Tree(rudra::document::Grid { cells: vec![], width: 0, height: 1 });
    d.rim = CellContent::Value(LeafValue::Symbol("x".into()));
    assert_eq!(check_integrity(&d), Err(IntegrityError("a grid is empty".into())));
    // the schema is checked before any region
    d.schema.structs[0].variants[1].fields[1].elem = TypeRef::Struct(12);
    assert_eq!(check_integrity(&d), Err(IntegrityError("struct id 12 is out of range".into())));
}

#[test]
fn an_applied_copy_fills_every_destination() {
    let mut d = tree_doc();
    let a = cell(Region::Ram, 0, 0);
    apply(&mut d, Operation::AddRow { at: a.clone(), side: VSide::Below });
    let b = cell(Region::Ram, 1, 0);
    d.select(a.clone());
    d.select(b.clone());
    let source = cell(Region::Rom, 1, 0);
    let before = d.resolve(&source).content().cloned();
    assert_eq!(apply(&mut d, Operation::Copy { source }), Outcome::Applied);
    assert_eq!(d.resolve(&a).content().cloned(), before);
    assert_eq!(d.resolve(&b).content().cloned(), before);
    assert!(before.is_some());
}
