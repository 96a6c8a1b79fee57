use rudra::custom::{sample_printing, sample_printing_builder, sample_types};
use rudra::document3::{Cell, CellPath, Document, FieldVal, PathStep, Region, StructVal, Tree};
use rudra::serialization::{build, printable};

#[test]
fn build_lays_out_the_strings_and_offsets() {
    let p = sample_printing();
    assert_eq!(p.root, "\n");
    let expected: Vec<&str> = vec![
        "", " = ", "", "print ", "", "", "", ".", "", "", "(", ")", "{ ", ", ", " }", "", ": ", "", ".", "",
    ];
    assert_eq!(p.data, expected.iter().map(|s| s.to_string()).collect::<Vec<_>>());
    assert_eq!(p.variant_offset, vec![0, 3, 5, 8, 10, 12, 15, 18]);
    assert_eq!(p.variant_data_offset, vec![0, 2, 3, 6, 7]);
}

fn number(text: &str) -> Cell {
    // value, variant 0 (number): one symbol field
    Cell::Struct(StructVal {
        struct_id: 2,
        variant_id: 0,
        grid: Some(Box::new(Cell::Tree(Tree {
            contents: vec![Cell::Field(FieldVal {
                struct_id: 2,
                variant_id: 0,
                field_id: 0,
                value: Box::new(Cell::Symbol(text.to_string())),
            })],
            width: 1,
            height: 1,
        }))),
    })
}

fn print_statement(value: Cell) -> Cell {
    Cell::Struct(StructVal {
        struct_id: 0,
        variant_id: 1,
        grid: Some(Box::new(Cell::Tree(Tree {
            contents: vec![Cell::Field(FieldVal { struct_id: 0, variant_id: 1, field_id: 0, value: Box::new(value) })],
            width: 1,
            height: 1,
        }))),
    })
}

#[test]
fn print_statements_separated_by_the_root_separator() {
    let types = sample_types();
    let mut d = Document::new(&types);
    d.rim = Cell::Tree(Tree {
        contents: vec![print_statement(number("42")), Cell::Empty, print_statement(number("7"))],
        width: 1,
        height: 3,
    });
    let p = sample_printing();
    assert!(printable(&p, &d.rim));
    let mut out = String::new();
    d.write_txt(&mut out, &p);
    assert_eq!(out, "print 42\nprint 7");
}

#[test]
fn fields_print_in_field_order_whatever_their_place() {
    let p = sample_printing();
    // a set_statement whose `value` field cell comes before its `var` cell
    let var = Cell::Struct(StructVal {
        struct_id: 1,
        variant_id: 0,
        grid: Some(Box::new(Cell::Tree(Tree {
            contents: vec![Cell::Field(FieldVal {
                struct_id: 1,
                variant_id: 0,
                field_id: 0,
                value: Box::new(Cell::Tree(Tree {
                    contents: vec![number("a"), number("b")],
                    width: 2,
                    height: 1,
                })),
            })],
            width: 1,
            height: 1,
        }))),
    });
    let set = StructVal {
        struct_id: 0,
        variant_id: 0,
        grid: Some(Box::new(Cell::Tree(Tree {
            contents: vec![
                Cell::Field(FieldVal { struct_id: 0, variant_id: 0, field_id: 1, value: Box::new(number("1")) }),
                Cell::Empty,
                Cell::Field(FieldVal { struct_id: 0, variant_id: 0, field_id: 0, value: Box::new(var) }),
            ],
            width: 1,
            height: 3,
        }))),
    };
    let mut out = String::new();
    set.write_txt(&mut out, &p);
    // var: elements "a", "b" separated by "" then "."; " = " then value
    assert_eq!(out, "ab. = 1");
}

#[test]
fn a_loose_field_or_a_missing_variant_cannot_be_printed() {
    let p = sample_printing();
    let loose = Cell::Tree(Tree {
        contents: vec![Cell::Field(FieldVal { struct_id: 0, variant_id: 0, field_id: 0, value: Box::new(Cell::symbol()) })],
        width: 1,
        height: 1,
    });
    assert!(!printable(&p, &loose));
    let unknown = Cell::Struct(StructVal { struct_id: 9, variant_id: 0, grid: None });
    assert!(!printable(&p, &unknown));
    assert!(!printable(&p, &Cell::Empty));
    assert!(printable(&p, &Cell::Symbol("x".into())));
}

#[test]
fn symbols_and_nested_trees() {
    let p = sample_printing();
    let nested = Cell::Tree(Tree {
        contents: vec![
            Cell::Symbol("a".into()),
            Cell::Tree(Tree { contents: vec![Cell::Symbol("b".into()), Cell::Symbol("c".into())], width: 2, height: 1 }),
        ],
        width: 2,
        height: 1,
    });
    let mut out = String::new();
    let mut print_sep = false;
    nested.write_txt(&mut out, &p, "|", &mut print_sep);
    assert_eq!(out, "a|b|c");
    assert!(print_sep);
    let _ = CellPath { region: Region::Rim, path: vec![PathStep::Tree(0, 0)] };
}

#[test]
fn empty_cells_print_nothing() {
    let p = sample_printing();
    let sparse = Tree {
        contents: vec![Cell::Empty, number("1"), Cell::Empty, Cell::Empty, number("2"), Cell::Empty],
        width: 3,
        height: 2,
    };
    let dense = Tree { contents: vec![number("1"), number("2")], width: 2, height: 1 };
    let (mut a, mut b) = (String::new(), String::new());
    let (mut sa, mut sb) = (false, false);
    sparse.write_txt(&mut a, &p, ";", &mut sa);
    dense.write_txt(&mut b, &p, ";", &mut sb);
    assert_eq!(a, "1;2");
    assert_eq!((a, sa), (b, sb));
}

#[test]
fn nested_tree_values_are_joined_by_the_separator_alone() {
    let p = sample_printing();
    let s = |x: &str| Cell::Symbol(x.into());
    let c = Cell::Tree(Tree {
        contents: vec![s("a"), Cell::Tree(Tree { contents: vec![s("b"), s("c")], width: 2, height: 1 })],
        width: 2,
        height: 1,
    });
    let mut w = String::new();
    let mut ps = false;
    c.write_txt(&mut w, &p, ", ", &mut ps);
    assert_eq!(w, "a, b, c");
    assert!(ps);
    // a nested tree first, then a value
    let d = Cell::Tree(Tree {
        contents: vec![Cell::Tree(Tree { contents: vec![Cell::Empty, s("x")], width: 1, height: 2 }), s("y")],
        width: 2,
        height: 1,
    });
    let mut w = String::new();
    let mut ps = false;
    d.write_txt(&mut w, &p, ", ", &mut ps);
    assert_eq!(w, "x, y");
    // a tree of empty cells adds nothing and leaves the flag alone
    let e = Cell::Tree(Tree { contents: vec![Cell::Empty], width: 1, height: 1 });
    let mut w = String::from("z");
    let mut ps = true;
    e.write_txt(&mut w, &p, ", ", &mut ps);
    assert_eq!((w.as_str(), ps), ("z", true));
}

#[test]
fn sample_printing_is_built_from_its_builder() {
    let a = sample_printing();
    let b = build(sample_printing_builder());
    assert_eq!(a.root, b.root);
    assert_eq!(a.data, b.data);
    assert_eq!(a.variant_offset, b.variant_offset);
    assert_eq!(a.variant_data_offset, b.variant_data_offset);
    assert_eq!(a.data.len(), 20);
}
