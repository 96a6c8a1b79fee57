use rudra::custom::sample_types;
use rudra::document3::{
    new_ok, StructDef, VariantDef, is_valid, Cell, CellPath, CellValue, Document, FieldDef, FieldVal, PathStep, Region,
    StructVal, Tree, Types,
};

fn path(region: Region, steps: Vec<PathStep>) -> CellPath {
    CellPath { region, path: steps }
}

fn rom_cell(x: usize, y: usize) -> CellPath {
    path(Region::Rom, vec![PathStep::Tree(x, y)])
}

fn tree_dims(c: &Cell) -> (usize, usize, usize) {
    match c {
        Cell::Tree(t) => (t.width, t.height, t.contents.len()),
        _ => panic!("not a tree"),
    }
}

#[test]
fn new_sample_document_is_valid() {
    let types = sample_types();
    let d = Document::new(&types);
    assert!(is_valid(&d, &types));
    // Rim is a tree of statements: the default tree.
    assert_eq!(d.rim, Tree::any_default());
    assert_eq!(d.ram, Tree::any_default());
    // The palette: three columns (the widest struct), 5 structs + 2 rows.
    assert_eq!(tree_dims(&d.rom), (3, 7, 21));
}

#[test]
fn palette_rows_hold_each_variant_default() {
    let types = sample_types();
    let d = Document::new(&types);
    // statement, variant 1: print_statement with one value field
    assert_eq!(*d.index(&rom_cell(1, 0)), types.default_struct_variant(0, 1));
    // var has a single variant: the rest of its row is empty
    assert!(d.index(&rom_cell(1, 1)).is_empty());
    assert!(d.index(&rom_cell(2, 1)).is_empty());
    // the default tree and an empty symbol, alone in their rows
    assert_eq!(*d.index(&rom_cell(0, 5)), Tree::any_default());
    assert!(d.index(&rom_cell(1, 5)).is_empty());
    assert_eq!(*d.index(&rom_cell(0, 6)), Cell::symbol());
    assert!(d.index(&rom_cell(2, 6)).is_empty());
}

#[test]
fn default_struct_builds_tagged_field_cells() {
    let types = sample_types();
    // statement variant 0: set_statement { var: var, value: value }
    match types.default_struct(0) {
        Cell::Struct(sv) => {
            assert_eq!((sv.struct_id, sv.variant_id), (0, 0));
            let grid = sv.grid.expect("a variant with fields has a grid");
            match *grid {
                Cell::Tree(t) => {
                    assert_eq!((t.width, t.height), (1, 2));
                    match &t.contents[1] {
                        Cell::Field(fv) => {
                            assert_eq!((fv.struct_id, fv.variant_id, fv.field_id), (0, 0, 1));
                            // value's variant 0 is a number: one symbol field
                            assert_eq!(*fv.value, types.default_struct(2));
                        }
                        _ => panic!("expected a field cell"),
                    }
                }
                _ => panic!("a struct grid is a tree"),
            }
        }
        _ => panic!("expected a struct"),
    }
    assert_eq!(CellValue::Symbol.default(&types), Cell::Symbol(String::new()));
    let tree_field = FieldDef { name: "t".into(), value: CellValue::Symbol, is_tree: true };
    assert_eq!(tree_field.default(&types), Tree::any_default());
}

#[test]
fn copy_a_statement_into_the_rim_tree() {
    let types = sample_types();
    let mut d = Document::new(&types);
    let dest = path(Region::Rim, vec![PathStep::Tree(0, 0)]);
    assert_eq!(d.copy(&dest, &rom_cell(0, 0), &types), Ok(()));
    assert_eq!(*d.index(&dest), types.default_struct(0));
    assert!(is_valid(&d, &types));
}

#[test]
fn copy_of_a_wrong_type_is_refused_and_changes_nothing() {
    let types = sample_types();
    let mut d = Document::new(&types);
    let before = d.clone();
    let dest = path(Region::Rim, vec![PathStep::Tree(0, 0)]);
    // a symbol is not a statement
    assert_eq!(d.copy(&dest, &rom_cell(0, 6), &types), Err(dest.clone()));
    assert_eq!(d, before);
}

#[test]
fn copy_into_rom_is_refused() {
    let types = sample_types();
    let mut d = Document::new(&types);
    let before = d.clone();
    let dest = rom_cell(0, 6);
    assert_eq!(d.copy(&dest, &rom_cell(0, 5), &types), Err(dest.clone()));
    assert_eq!(d, before);
}

#[test]
fn move_leaves_an_empty_cell_behind() {
    let types = sample_types();
    let mut d = Document::new(&types);
    let rim_cell = path(Region::Rim, vec![PathStep::Tree(0, 0)]);
    let ram_cell = path(Region::Ram, vec![PathStep::Tree(0, 0)]);
    d.copy(&rim_cell, &rom_cell(1, 0), &types).unwrap();
    assert_eq!(d.mova(&rim_cell, &ram_cell, &types), Ok(()));
    assert!(d.index(&rim_cell).is_empty());
    assert_eq!(*d.index(&ram_cell), types.default_struct_variant(0, 1));
    assert!(is_valid(&d, &types));
}

#[test]
fn move_from_rom_or_from_a_non_tree_cell_is_refused() {
    let types = sample_types();
    let mut d = Document::new(&types);
    let ram_cell = path(Region::Ram, vec![PathStep::Tree(0, 0)]);
    let src = rom_cell(0, 6);
    assert_eq!(d.mova(&src, &ram_cell, &types), Err(src.clone()));
    let root = path(Region::Ram, vec![]);
    assert_eq!(d.mova(&root, &ram_cell, &types), Err(root.clone()));
    let rim_root = path(Region::Rim, vec![]);
    assert_eq!(d.mova(&ram_cell, &rim_root, &types), Err(rim_root.clone()));
}

#[test]
fn move_that_breaks_typing_is_refused() {
    let types = sample_types();
    let mut d = Document::new(&types);
    let ram_cell = path(Region::Ram, vec![PathStep::Tree(0, 0)]);
    let rim_cell = path(Region::Rim, vec![PathStep::Tree(0, 0)]);
    d.copy(&ram_cell, &rom_cell(0, 6), &types).unwrap();
    let before = d.clone();
    // a symbol cannot go into the Rim's tree of statements
    assert_eq!(d.mova(&ram_cell, &rim_cell, &types), Err(rim_cell.clone()));
    assert_eq!(d, before);
}

#[test]
fn rows_and_columns_around_a_cell() {
    let types = sample_types();
    let mut d = Document::new(&types);
    let cell = path(Region::Ram, vec![PathStep::Tree(0, 0)]);
    d.add_row_below(&cell);
    d.add_column_right(&cell);
    assert_eq!(tree_dims(&d.ram), (2, 2, 4));
    d.add_row_above(&cell);
    d.add_column_left(&cell);
    assert_eq!(tree_dims(&d.ram), (3, 3, 9));
    d.delete_row_below(&cell);
    d.delete_column_right(&cell);
    assert_eq!(tree_dims(&d.ram), (2, 2, 4));
    // the top-left cell has nothing above it or to its left
    d.delete_row_above(&cell);
    d.delete_column_left(&cell);
    assert_eq!(tree_dims(&d.ram), (2, 2, 4));
    assert!(is_valid(&d, &types));
}

#[test]
fn a_struct_grid_keeps_its_field_cells() {
    let types = sample_types();
    let mut d = Document::new(&types);
    let rim_cell = path(Region::Rim, vec![PathStep::Tree(0, 0)]);
    d.copy(&rim_cell, &rom_cell(0, 0), &types).unwrap();
    // the `var` field cell of the set_statement, in its one-column grid
    let field_cell = path(Region::Rim, vec![PathStep::Tree(0, 0), PathStep::IntoStruct, PathStep::Tree(0, 0)]);
    let grid_path = path(Region::Rim, vec![PathStep::Tree(0, 0), PathStep::IntoStruct]);
    d.delete_row_below(&field_cell);
    assert_eq!(tree_dims(d.index(&grid_path)), (1, 2, 2));
    // an empty row can go again
    d.add_row_below(&field_cell);
    assert_eq!(tree_dims(d.index(&grid_path)), (1, 3, 3));
    assert!(is_valid(&d, &types));
    d.delete_row_below(&field_cell);
    assert_eq!(tree_dims(d.index(&grid_path)), (1, 2, 2));
    assert!(is_valid(&d, &types));
    d.add_column_right(&field_cell);
    assert_eq!(tree_dims(d.index(&grid_path)), (2, 2, 4));
    d.delete_column_left(&path(Region::Rim, vec![PathStep::Tree(0, 0), PathStep::IntoStruct, PathStep::Tree(1, 0)]));
    assert_eq!(tree_dims(d.index(&grid_path)), (2, 2, 4));
}

#[test]
fn edit_a_symbol_and_a_variant() {
    let types = sample_types();
    let mut d = Document::new(&types);
    let ram_cell = path(Region::Ram, vec![PathStep::Tree(0, 0)]);
    d.copy(&ram_cell, &rom_cell(0, 6), &types).unwrap();
    d.edit_symbol(&ram_cell, "42");
    assert_eq!(*d.index(&ram_cell), Cell::Symbol("42".to_string()));
    let rim_cell = path(Region::Rim, vec![PathStep::Tree(0, 0)]);
    d.copy(&rim_cell, &rom_cell(0, 0), &types).unwrap();
    d.edit_variant(&rim_cell, 1, &types);
    assert_eq!(*d.index(&rim_cell), types.default_struct_variant(0, 1));
    assert!(is_valid(&d, &types));
}

#[test]
fn validity_catches_a_loose_field_cell_and_a_bad_shape() {
    let types = sample_types();
    let mut d = Document::new(&types);
    let loose = Cell::Field(FieldVal { struct_id: 0, variant_id: 0, field_id: 0, value: Box::new(Cell::symbol()) });
    d.ram = Cell::Tree(Tree { contents: vec![loose], width: 1, height: 1 });
    assert!(!is_valid(&d, &types));
    d.ram = Cell::Tree(Tree { contents: vec![Cell::Empty, Cell::Empty], width: 1, height: 1 });
    assert!(!is_valid(&d, &types));
    d.ram = Tree::any_default();
    assert!(is_valid(&d, &types));
    // a struct grid missing one of its fields
    let broken = Cell::Struct(StructVal {
        struct_id: 3,
        variant_id: 0,
        grid: Some(Box::new(Cell::Tree(Tree {
            contents: vec![Cell::Field(FieldVal {
                struct_id: 3,
                variant_id: 0,
                field_id: 0,
                value: Box::new(types.default_struct(2)),
            })],
            width: 1,
            height: 1,
        }))),
    });
    d.ram = Cell::Tree(Tree { contents: vec![broken], width: 1, height: 1 });
    assert!(!is_valid(&d, &types));
}

#[test]
fn indexing_by_steps() {
    let types = sample_types();
    let d = Document::new(&types);
    let t = match &d.rom {
        Cell::Tree(t) => t,
        _ => panic!(),
    };
    assert_eq!(*t.index((0, 6)), Cell::symbol());
    assert_eq!(*d.rom.index(&PathStep::Tree(0, 5)), Tree::any_default());
    assert_eq!(*d.region(Region::Ram), Tree::any_default());
    let _unused: Types = types.clone();
}

#[test]
fn every_unchecked_edit_keeps_the_document_valid_and_rom_unchanged() {
    let types = sample_types();
    let mut d = Document::new(&types);
    let rom = d.rom.clone();
    let rim_cell = path(Region::Rim, vec![PathStep::Tree(0, 0)]);
    d.copy(&rim_cell, &rom_cell(0, 0), &types).unwrap();
    // inside the set_statement: the value field holds a number struct
    let value_field = path(
        Region::Rim,
        vec![PathStep::Tree(0, 0), PathStep::IntoStruct, PathStep::Tree(0, 1)],
    );
    let number = path(
        Region::Rim,
        vec![PathStep::Tree(0, 0), PathStep::IntoStruct, PathStep::Tree(0, 1), PathStep::IntoField],
    );
    let digits = path(
        Region::Rim,
        vec![
            PathStep::Tree(0, 0),
            PathStep::IntoStruct,
            PathStep::Tree(0, 1),
            PathStep::IntoField,
            PathStep::IntoStruct,
            PathStep::Tree(0, 0),
            PathStep::IntoField,
        ],
    );
    assert!(is_valid(&d, &types));
    d.edit_symbol(&digits, "7");
    assert!(is_valid(&d, &types));
    d.edit_variant(&number, 2, &types);
    assert!(is_valid(&d, &types));
    d.edit_variant(&number, 1, &types);
    assert!(is_valid(&d, &types));
    d.add_row_above(&value_field);
    assert!(is_valid(&d, &types));
    d.add_column_left(&value_field);
    assert!(is_valid(&d, &types));
    d.delete_row_above(&value_field);
    d.delete_column_left(&value_field);
    d.delete_column_right(&value_field);
    d.delete_row_below(&value_field);
    assert!(is_valid(&d, &types));
    d.add_row_below(&rim_cell);
    d.add_column_right(&rim_cell);
    d.delete_column_right(&rim_cell);
    assert!(is_valid(&d, &types));
    assert_eq!(d.rom, rom);
}

#[test]
fn which_types_a_new_document_can_be_built_over() {
    let types = sample_types();
    assert!(new_ok(&types));
    // a struct without variants has no default: fine while no field needs one
    let mut no_variants = types.clone();
    no_variants.types.push(StructDef { name: "none".into(), variants: vec![] });
    assert!(new_ok(&no_variants));
    no_variants.types[3].variants[0].fields[0].value = CellValue::Struct(5);
    assert!(!new_ok(&no_variants));
    // a struct whose variant 0 holds itself has no finite default
    let mut nested = types.clone();
    nested.types[3].variants[0].fields[0].value = CellValue::Struct(3);
    assert!(!new_ok(&nested));
    // ...unless the field is a tree
    nested.types[3].variants[0].fields[0].is_tree = true;
    nested.types[3].variants[0].fields[1].is_tree = true;
    assert!(new_ok(&nested));
}

fn one_symbol_struct(rim: FieldDef) -> Types {
    Types {
        types: vec![StructDef {
            name: "S".into(),
            variants: vec![VariantDef {
                name: "v".into(),
                fields: vec![FieldDef { name: "x".into(), value: CellValue::Symbol, is_tree: false }],
            }],
        }],
        rim,
    }
}

#[test]
fn move_from_a_field_cell_blames_the_source() {
    let types = one_symbol_struct(FieldDef { name: "r".into(), value: CellValue::Struct(0), is_tree: false });
    let mut d = Document::new(&types);
    let src = path(Region::Rim, vec![PathStep::IntoStruct, PathStep::Tree(0, 0)]);
    let dest = path(Region::Ram, vec![PathStep::Tree(0, 0)]);
    assert!(matches!(d.index(&src), Cell::Field(_)));
    let before = d.clone();
    assert_eq!(d.mova(&src, &dest, &types), Err(src.clone()));
    assert_eq!(d, before);
}

#[test]
fn trees_nest_freely_inside_a_tree_field() {
    let types = one_symbol_struct(FieldDef { name: "f".into(), value: CellValue::Symbol, is_tree: true });
    let mut d = Document::new(&types);
    let leaf = Cell::Tree(Tree { contents: vec![Cell::Symbol("a".into())], width: 1, height: 1 });
    d.rim = Cell::Tree(Tree { contents: vec![leaf.clone()], width: 1, height: 1 });
    assert!(is_valid(&d, &types));
    // deeper, with an empty cell in between
    d.rim = Cell::Tree(Tree {
        contents: vec![Cell::Empty, Cell::Tree(Tree { contents: vec![leaf, Cell::Empty], width: 2, height: 1 })],
        width: 1,
        height: 2,
    });
    assert!(is_valid(&d, &types));
    // a value of the wrong kind deep inside is still caught
    let bad = Cell::Tree(Tree { contents: vec![Cell::Field(FieldVal {
        struct_id: 0, variant_id: 0, field_id: 0, value: Box::new(Cell::Symbol("b".into())),
    })], width: 1, height: 1 });
    d.rim = Cell::Tree(Tree { contents: vec![bad], width: 1, height: 1 });
    assert!(!is_valid(&d, &types));
    // so is a badly shaped nested tree
    d.rim = Cell::Tree(Tree {
        contents: vec![Cell::Tree(Tree { contents: vec![], width: 1, height: 1 })],
        width: 1,
        height: 1,
    });
    assert!(!is_valid(&d, &types));
}

#[test]
fn every_variant_default_of_an_acyclic_schema_is_valid() {
    let types = sample_types();
    let mut d = Document::new(&types);
    for sid in 0..types.types.len() {
        for vid in 0..types.types[sid].variants.len() {
            let c = types.default_struct_variant(sid, vid);
            match &c {
                Cell::Struct(sv) => assert_eq!((sv.struct_id, sv.variant_id), (sid, vid)),
                _ => panic!("a default of a struct variant is a struct"),
            }
            d.ram = Cell::Tree(Tree { contents: vec![c], width: 1, height: 1 });
            assert!(is_valid(&d, &types));
        }
    }
}
