use rudra::document2::{
    Cell, CellLocation, CellValue, Document, FieldDef, PathStep, Region, StructDef, StructVal,
    StructVariant, Tree, Types,
};

fn schema() -> Types {
    let sym = |name: &str| FieldDef { name: name.into(), value: CellValue::Symbol, is_tree: false };
    Types(vec![
        StructDef {
            name: "Point".into(),
            variants: vec![
                StructVariant { name: String::new(), fields: vec![] },
                StructVariant { name: "xy".into(), fields: vec![sym("x"), sym("y")] },
            ],
        },
        StructDef {
            name: "Box".into(),
            variants: vec![StructVariant {
                name: "of".into(),
                fields: vec![FieldDef { name: "inner".into(), value: CellValue::Struct(0), is_tree: false }],
            }],
        },
    ])
}

fn new_doc() -> Document {
    let types = schema();
    Document::new(
        &types.0,
        FieldDef { name: "root".into(), value: CellValue::Symbol, is_tree: true },
    )
}

fn at(region: Region, steps: Vec<PathStep>) -> CellLocation {
    CellLocation { region, path: steps }
}

#[test]
fn new_document_holds_the_palette() {
    let d = new_doc();
    let rom = d.rom.tree();
    assert_eq!((rom.width, rom.height, rom.contents.len()), (1, 4, 4));
    assert_eq!(rom.contents[1], Cell::Struct(StructVal { id: 1, variant: 0, fields: vec![] }));
    assert_eq!(rom.contents[2], Cell::Symbol(String::new()));
    assert_eq!(rom.contents[3], Cell::Tree(Tree { contents: vec![Cell::Empty], width: 1, height: 1 }));
    assert_eq!(d.rim, Cell::Tree(Tree { contents: vec![Cell::Empty], width: 1, height: 1 }));
}

#[test]
fn defaults_of_values_and_fields() {
    assert_eq!(CellValue::Symbol.default(), Cell::Symbol(String::new()));
    assert_eq!(CellValue::Struct(3).default(), Cell::Struct(StructVal { id: 3, variant: 0, fields: vec![] }));
    let f = FieldDef { name: "f".into(), value: CellValue::Struct(0), is_tree: false };
    assert_eq!(f.default(), CellValue::Struct(0).default());
    let d = Document::new(&schema().0, f);
    assert_eq!(d.rim, Cell::Struct(StructVal { id: 0, variant: 0, fields: vec![] }));
}

#[test]
fn copy_then_edit_a_symbol() {
    let mut d = new_doc();
    let cell = at(Region::Ram, vec![PathStep::Tree(0, 0)]);
    d.copy(&cell, &at(Region::Rom, vec![PathStep::Tree(0, 2)]));
    d.edit_symbol(&cell, "hi");
    assert_eq!(*d.resolve(&cell), Cell::Symbol("hi".into()));
    assert_eq!(d.root(Region::Rom).tree().contents[2], Cell::Symbol(String::new()));
    let rom0 = d.rom.index(&PathStep::Tree(0, 0));
    assert_eq!(*rom0.struct_val(), StructVal { id: 0, variant: 0, fields: vec![] });
}

#[test]
fn edit_variant_fills_the_fields_with_defaults() {
    let types = schema();
    let mut d = new_doc();
    let cell = at(Region::Rim, vec![PathStep::Tree(0, 0)]);
    d.copy(&cell, &at(Region::Rom, vec![PathStep::Tree(0, 0)]));
    d.edit_variant(&cell, 1, &types);
    assert_eq!(
        *d.resolve(&cell),
        Cell::Struct(StructVal {
            id: 0,
            variant: 1,
            fields: vec![Cell::Symbol(String::new()), Cell::Symbol(String::new())],
        })
    );
    let x = at(Region::Rim, vec![PathStep::Tree(0, 0), PathStep::Struct(1)]);
    d.edit_symbol(&x, "7");
    assert_eq!(*d.resolve(&x), Cell::Symbol("7".into()));
}

#[test]
fn rows_and_columns() {
    let mut d = new_doc();
    let cell = at(Region::Rim, vec![PathStep::Tree(0, 0)]);
    d.add_row_below(&cell);
    d.add_column_right(&cell);
    d.add_row_above(&cell);
    d.add_column_left(&cell);
    let t = d.rim.tree();
    assert_eq!((t.width, t.height, t.contents.len()), (3, 3, 9));
    d.delete_row_below(&cell);
    d.delete_column_right(&cell);
    let t = d.rim.tree();
    assert_eq!((t.width, t.height, t.contents.len()), (2, 2, 4));
    // nothing above or to the left of the top-left cell
    d.delete_row_above(&cell);
    d.delete_column_left(&cell);
    let t = d.rim.tree();
    assert_eq!((t.width, t.height), (2, 2));
    let corner = at(Region::Rim, vec![PathStep::Tree(1, 1)]);
    d.delete_row_above(&corner);
    d.delete_column_left(&corner);
    let t = d.rim.tree();
    assert_eq!((t.width, t.height, t.contents.len()), (1, 1, 1));
}

#[test]
fn copy_into_a_struct_field() {
    let mut d = new_doc();
    let cell = at(Region::Ram, vec![PathStep::Tree(0, 0)]);
    d.copy(&cell, &at(Region::Rom, vec![PathStep::Tree(0, 0)]));
    d.edit_variant(&cell, 1, &schema());
    d.copy(
        &at(Region::Ram, vec![PathStep::Tree(0, 0), PathStep::Struct(0)]),
        &at(Region::Rom, vec![PathStep::Tree(0, 3)]),
    );
    let c = d.resolve(&cell).struct_val();
    assert_eq!(c.fields[0], Cell::Tree(Tree { contents: vec![Cell::Empty], width: 1, height: 1 }));
    assert_eq!(c.fields[1], Cell::Symbol(String::new()));
}

fn all_rectangular(c: &Cell) -> bool {
    match c {
        Cell::Tree(t) => t.contents.len() == t.width * t.height && t.contents.iter().all(all_rectangular),
        Cell::Struct(sv) => sv.fields.iter().all(all_rectangular),
        _ => true,
    }
}

#[test]
fn grids_stay_rectangular() {
    let types = schema();
    let mut d = new_doc();
    let cell = at(Region::Ram, vec![PathStep::Tree(0, 0)]);
    // a tree inside a Ram cell, then grow and shrink both levels
    d.copy(&cell, &at(Region::Rom, vec![PathStep::Tree(0, 3)]));
    let inner = at(Region::Ram, vec![PathStep::Tree(0, 0), PathStep::Tree(0, 0)]);
    d.add_row_below(&cell);
    d.add_column_right(&inner);
    d.add_row_above(&inner);
    d.add_column_left(&cell);
    for r in [&d.rim, &d.ram, &d.rom] {
        assert!(all_rectangular(r));
    }
    d.delete_row_below(&inner);
    d.delete_column_right(&inner);
    d.delete_row_above(&cell);
    d.delete_column_left(&cell);
    d.edit_variant(&at(Region::Rom, vec![PathStep::Tree(0, 0)]), 1, &types);
    for r in [&d.rim, &d.ram, &d.rom] {
        assert!(all_rectangular(r));
    }
}
