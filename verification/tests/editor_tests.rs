use rudra::custom::sample_types;
use rudra::document3::{Cell, CellPath, Document, FieldVal, PathStep, Region, StructVal, Tree};
use rudra::editor::{
    child, children, execute, highlight, is_grid_cell, label, region_name, same_path, status_text,
    struct_header, toolbar, type_keys, writable, Action, Command, Highlight, Key, Mode, Ui,
};

fn path(region: Region, steps: Vec<PathStep>) -> CellPath {
    CellPath { region, path: steps }
}

#[test]
fn writable_excludes_only_rom() {
    assert!(writable(&path(Region::Rim, vec![])));
    assert!(writable(&path(Region::Ram, vec![PathStep::Tree(0, 0)])));
    assert!(!writable(&path(Region::Rom, vec![PathStep::Tree(0, 0)])));
}

#[test]
fn grid_cell_needs_a_trailing_tree_step() {
    assert!(!is_grid_cell(&path(Region::Rim, vec![])));
    assert!(is_grid_cell(&path(Region::Rim, vec![PathStep::Tree(1, 2)])));
    assert!(!is_grid_cell(&path(
        Region::Rim,
        vec![PathStep::Tree(0, 0), PathStep::IntoStruct]
    )));
    assert!(is_grid_cell(&path(
        Region::Rim,
        vec![PathStep::Tree(0, 0), PathStep::IntoStruct, PathStep::Tree(0, 1)]
    )));
}

#[test]
fn child_appends_a_step() {
    let p = path(Region::Ram, vec![PathStep::Tree(0, 0)]);
    let c = child(&p, PathStep::IntoStruct);
    assert_eq!(c, path(Region::Ram, vec![PathStep::Tree(0, 0), PathStep::IntoStruct]));
    assert_eq!(p.path.len(), 1);
}

#[test]
fn region_titles_and_status_line() {
    assert_eq!(region_name(Region::Rom), "Rom - palette (read-only)");
    assert_eq!(region_name(Region::Ram), "Ram - scratch");
    assert_eq!(region_name(Region::Rim), "Rim - canvas");
    let mut ui = Ui::default();
    assert!(status_text(&ui).starts_with("Click a cell to select it."));
    ui.mode = Mode::AwaitingCopySource { dest: path(Region::Rim, vec![]) };
    assert_eq!(
        status_text(&ui),
        "Copy: now click the SOURCE cell to copy it into the highlighted destination."
    );
}

#[test]
fn struct_header_names_struct_and_variant() {
    let types = sample_types();
    let sv = StructVal { struct_id: 0, variant_id: 1, grid: None };
    assert_eq!(struct_header(&sv, &types), "statement [print_statement]");
    let mut unnamed = types.clone();
    unnamed.types[3].variants[0].name = String::new();
    let pair = StructVal { struct_id: 3, variant_id: 0, grid: None };
    assert_eq!(struct_header(&pair, &unnamed), "pair [-]");
}

#[test]
fn click_in_normal_mode_moves_focus() {
    let mut ui = Ui::default();
    let p = path(Region::Rim, vec![PathStep::Tree(0, 0)]);
    assert_eq!(ui.cell_click(p.clone()), None);
    assert_eq!(ui, Ui { focused: Some(p), mode: Mode::Normal });
}

#[test]
fn copy_gesture_names_destination_then_source() {
    let types = sample_types();
    let doc = Document::new(&types);
    let dest = path(Region::Rim, vec![PathStep::Tree(0, 0)]);
    let src = path(Region::Rom, vec![PathStep::Tree(1, 0)]);
    let mut ui = Ui::default();
    ui.cell_click(dest.clone());
    assert_eq!(ui.button_click(Action::Copy, &doc, &types), (None, true));
    assert_eq!(ui.mode, Mode::AwaitingCopySource { dest: dest.clone() });
    let cmd = ui.cell_click(src.clone());
    assert_eq!(cmd, Some(Command::Copy { dest, src: src.clone() }));
    assert_eq!(ui, Ui { focused: Some(src), mode: Mode::Normal });
}

#[test]
fn copy_into_rom_is_dropped() {
    let types = sample_types();
    let doc = Document::new(&types);
    let dest = path(Region::Rom, vec![PathStep::Tree(0, 0)]);
    let src = path(Region::Rim, vec![PathStep::Tree(0, 0)]);
    let mut ui = Ui::default();
    ui.cell_click(dest);
    ui.button_click(Action::Copy, &doc, &types);
    assert_eq!(ui.cell_click(src.clone()), None);
    assert_eq!(ui, Ui { focused: Some(src), mode: Mode::Normal });
}

#[test]
fn buttons_without_focus_do_nothing() {
    let types = sample_types();
    let doc = Document::new(&types);
    let mut ui = Ui::default();
    for a in [Action::Copy, Action::AddRowAbove, Action::NextVariant] {
        assert_eq!(ui.button_click(a, &doc, &types), (None, false));
        assert_eq!(ui, Ui::default());
    }
}

#[test]
fn breadth_button_needs_writable_grid_cell_and_keeps_focus() {
    let types = sample_types();
    let doc = Document::new(&types);
    let mut ui = Ui::default();
    // Rom is read-only
    ui.cell_click(path(Region::Rom, vec![PathStep::Tree(0, 0)]));
    assert_eq!(ui.button_click(Action::AddRowBelow, &doc, &types), (None, false));
    assert!(ui.focused.is_some());
    // the root of a region is not inside a grid
    ui.cell_click(path(Region::Rim, vec![]));
    assert_eq!(ui.button_click(Action::DeleteColLeft, &doc, &types), (None, false));
    // a grid cell of Rim
    let at = path(Region::Rim, vec![PathStep::Tree(0, 0)]);
    ui.cell_click(at.clone());
    assert_eq!(
        ui.button_click(Action::AddColRight, &doc, &types),
        (Some(Command::Breadth { action: Action::AddColRight, at: at.clone() }), true)
    );
    // a column added to the right leaves the focused cell where it is
    assert_eq!(ui.focused, Some(at));
}

#[test]
fn next_variant_cycles_on_a_writable_struct() {
    let types = sample_types();
    let mut doc = Document::new(&types);
    // put a statement (variant 1 of 2) into Rim and select it
    let at = path(Region::Rim, vec![PathStep::Tree(0, 0)]);
    doc.copy(&at, &path(Region::Rom, vec![PathStep::Tree(1, 0)]), &types).unwrap();
    let mut ui = Ui::default();
    ui.cell_click(at.clone());
    assert_eq!(
        ui.button_click(Action::NextVariant, &doc, &types),
        (Some(Command::EditVariant { at: at.clone(), variant: 0 }), true)
    );
    assert_eq!(ui.focused, Some(at));
    // the same struct in Rom is not edited
    ui.cell_click(path(Region::Rom, vec![PathStep::Tree(1, 0)]));
    assert_eq!(ui.button_click(Action::NextVariant, &doc, &types), (None, false));
    // an empty cell has no variant
    ui.cell_click(path(Region::Ram, vec![PathStep::Tree(0, 0)]));
    assert_eq!(ui.button_click(Action::NextVariant, &doc, &types), (None, false));
}

#[test]
fn typing_edits_text() {
    let mut text = String::from("ab");
    let keys = vec![
        Key::Character("c".to_string()),
        Key::Space,
        Key::Other,
        Key::Backspace,
        Key::Backspace,
        Key::Character("xy".to_string()),
    ];
    assert!(type_keys(&mut text, &keys));
    assert_eq!(text, "abxy");
}

#[test]
fn typing_only_other_keys_changes_nothing() {
    let mut text = String::from("q");
    assert!(!type_keys(&mut text, &[Key::Other, Key::Other]));
    assert_eq!(text, "q");
    let mut empty = String::new();
    assert!(type_keys(&mut empty, &[Key::Backspace]));
    assert_eq!(empty, "");
}

#[test]
fn same_path_compares_region_and_steps() {
    let a = path(Region::Rim, vec![PathStep::Tree(0, 1)]);
    assert!(same_path(&a, &a.clone()));
    assert!(!same_path(&a, &path(Region::Ram, vec![PathStep::Tree(0, 1)])));
    assert!(!same_path(&a, &path(Region::Rim, vec![PathStep::Tree(1, 0)])));
    assert!(!same_path(&a, &path(Region::Rim, vec![])));
}

#[test]
fn highlight_prefers_copy_destination_over_focus() {
    let a = path(Region::Rim, vec![PathStep::Tree(0, 0)]);
    let b = path(Region::Ram, vec![PathStep::Tree(0, 0)]);
    let mut ui = Ui::default();
    assert_eq!(highlight(&ui, &a), Highlight::Plain);
    ui.focused = Some(a.clone());
    assert_eq!(highlight(&ui, &a), Highlight::Focused);
    assert_eq!(highlight(&ui, &b), Highlight::Plain);
    ui.mode = Mode::AwaitingCopySource { dest: a.clone() };
    assert_eq!(highlight(&ui, &a), Highlight::CopyDestination);
}

#[test]
fn labels_by_cell_kind() {
    let types = sample_types();
    assert_eq!(label(&Cell::Symbol(String::new()), &types), Some("EMPTY".to_string()));
    assert_eq!(label(&Cell::Symbol("x1".to_string()), &types), Some("x1".to_string()));
    assert_eq!(label(&Cell::Empty, &types), None);
    assert_eq!(label(&Tree::any_default(), &types), None);
    let sv = StructVal { struct_id: 2, variant_id: 2, grid: None };
    assert_eq!(label(&Cell::Struct(sv), &types), Some("value [list]".to_string()));
    let fv = FieldVal { struct_id: 0, variant_id: 0, field_id: 1, value: Box::new(Cell::Empty) };
    assert_eq!(
        label(&Cell::Field(fv), &types),
        Some("statement::set_statement::value".to_string())
    );
}

#[test]
fn children_of_a_tree_are_row_major() {
    let loc = path(Region::Ram, vec![]);
    let t = Cell::Tree(Tree { contents: (0..6).map(|_| Cell::Empty).collect(), width: 3, height: 2 });
    let kids = children(&t, &loc);
    let steps: Vec<PathStep> = kids.iter().map(|p| p.path[0]).collect();
    assert_eq!(
        steps,
        vec![
            PathStep::Tree(0, 0),
            PathStep::Tree(1, 0),
            PathStep::Tree(2, 0),
            PathStep::Tree(0, 1),
            PathStep::Tree(1, 1),
            PathStep::Tree(2, 1),
        ]
    );
    assert!(kids.iter().all(|p| p.region == Region::Ram && p.path.len() == 1));
}

#[test]
fn children_of_structs_fields_and_leaves() {
    let loc = path(Region::Rim, vec![PathStep::Tree(0, 0)]);
    let with_grid = StructVal { struct_id: 0, variant_id: 0, grid: Some(Box::new(Tree::any_default())) };
    assert_eq!(children(&Cell::Struct(with_grid), &loc), vec![child(&loc, PathStep::IntoStruct)]);
    let fieldless = StructVal { struct_id: 0, variant_id: 0, grid: None };
    assert!(children(&Cell::Struct(fieldless), &loc).is_empty());
    let fv = FieldVal { struct_id: 0, variant_id: 0, field_id: 0, value: Box::new(Cell::Empty) };
    assert_eq!(children(&Cell::Field(fv), &loc), vec![child(&loc, PathStep::IntoField)]);
    assert!(children(&Cell::Empty, &loc).is_empty());
    assert!(children(&Cell::Symbol("a".into()), &loc).is_empty());
}

#[test]
fn toolbar_lists_every_action_once() {
    let bar = toolbar();
    assert_eq!(bar.len(), 10);
    assert_eq!(bar[0], ("Copy", Action::Copy));
    assert_eq!(bar[9], ("Variant +", Action::NextVariant));
    for (i, (_, a)) in bar.iter().enumerate() {
        assert!(bar.iter().skip(i + 1).all(|(_, b)| b != a));
    }
}

#[test]
fn typing_edits_a_focused_symbol_outside_rom() {
    let types = sample_types();
    let mut doc = Document::new(&types);
    let ram = path(Region::Ram, vec![PathStep::Tree(0, 0)]);
    let rom_symbol = path(Region::Rom, vec![PathStep::Tree(0, 6)]);
    doc.copy(&ram, &rom_symbol, &types).unwrap();
    let keys = vec![Key::Character("4".to_string()), Key::Character("2".to_string())];
    let mut ui = Ui::default();
    // no focus
    assert_eq!(ui.typing(&doc, &keys), None);
    ui.cell_click(ram.clone());
    assert_eq!(
        ui.typing(&doc, &keys),
        Some(Command::EditSymbol { at: ram.clone(), text: "42".to_string() })
    );
    // keys that edit nothing
    assert_eq!(ui.typing(&doc, &[Key::Other]), None);
    // the palette is read-only
    ui.cell_click(rom_symbol);
    assert_eq!(ui.typing(&doc, &keys), None);
    // a struct is not typed into
    let rim = path(Region::Rim, vec![PathStep::Tree(0, 0)]);
    doc.copy(&rim, &path(Region::Rom, vec![PathStep::Tree(0, 0)]), &types).unwrap();
    ui.cell_click(rim);
    assert_eq!(ui.typing(&doc, &keys), None);
}

#[test]
fn focus_follows_the_cell_through_breadth_actions() {
    let types = sample_types();
    let mut doc = Document::new(&types);
    let at = path(Region::Ram, vec![PathStep::Tree(0, 0)]);
    let rom_symbol = path(Region::Rom, vec![PathStep::Tree(0, 6)]);
    doc.copy(&at, &rom_symbol, &types).unwrap();
    let focused_cell = doc.index(&at).clone();
    let mut ui = Ui::default();
    ui.cell_click(at.clone());
    let steps = [
        (Action::AddRowAbove, (0, 1)),
        (Action::AddColLeft, (1, 1)),
        (Action::AddRowBelow, (1, 1)),
        (Action::AddColRight, (1, 1)),
        (Action::DeleteRowAbove, (1, 0)),
        (Action::DeleteColLeft, (0, 0)),
        (Action::DeleteRowAbove, (0, 0)),
        (Action::DeleteColLeft, (0, 0)),
    ];
    for (action, (x, y)) in steps {
        let here = ui.focused.clone().unwrap();
        let (cmd, rebuild) = ui.button_click(action, &doc, &types);
        assert!(rebuild);
        assert_eq!(cmd, Some(Command::Breadth { action, at: here }));
        assert_eq!(execute(&mut doc, &cmd.unwrap(), &types), Ok(()));
        let now = ui.focused.clone().unwrap();
        assert_eq!(now, path(Region::Ram, vec![PathStep::Tree(x, y)]));
        // exactly one cell stays focused, and it is the same cell
        assert_eq!(*doc.index(&now), focused_cell);
    }
}

#[test]
fn execute_carries_out_each_command() {
    let types = sample_types();
    let mut doc = Document::new(&types);
    let ram = path(Region::Ram, vec![PathStep::Tree(0, 0)]);
    let rim = path(Region::Rim, vec![PathStep::Tree(0, 0)]);
    // copy
    let copy = Command::Copy { dest: ram.clone(), src: path(Region::Rom, vec![PathStep::Tree(0, 6)]) };
    assert_eq!(execute(&mut doc, &copy, &types), Ok(()));
    assert_eq!(*doc.index(&ram), Cell::Symbol(String::new()));
    // a refused copy names its destination and changes nothing
    let before = doc.clone();
    let bad = Command::Copy { dest: rim.clone(), src: ram.clone() };
    assert_eq!(execute(&mut doc, &bad, &types), Err(rim.clone()));
    assert_eq!(doc, before);
    // symbol text
    let edit = Command::EditSymbol { at: ram.clone(), text: "42".to_string() };
    assert_eq!(execute(&mut doc, &edit, &types), Ok(()));
    assert_eq!(*doc.index(&ram), Cell::Symbol("42".to_string()));
    // variant
    let stmt = Command::Copy { dest: rim.clone(), src: path(Region::Rom, vec![PathStep::Tree(1, 0)]) };
    assert_eq!(execute(&mut doc, &stmt, &types), Ok(()));
    let variant = Command::EditVariant { at: rim.clone(), variant: 0 };
    assert_eq!(execute(&mut doc, &variant, &types), Ok(()));
    assert_eq!(*doc.index(&rim), types.default_struct_variant(0, 0));
    // breadth
    let grow = Command::Breadth { action: Action::AddRowBelow, at: ram.clone() };
    assert_eq!(execute(&mut doc, &grow, &types), Ok(()));
    match &doc.ram {
        Cell::Tree(t) => assert_eq!((t.width, t.height, t.contents.len()), (1, 2, 2)),
        _ => panic!("Ram is a tree"),
    }
    let shrink = Command::Breadth { action: Action::DeleteRowBelow, at: ram.clone() };
    assert_eq!(execute(&mut doc, &shrink, &types), Ok(()));
    match &doc.ram {
        Cell::Tree(t) => assert_eq!((t.width, t.height, t.contents.len()), (1, 1, 1)),
        _ => panic!("Ram is a tree"),
    }
}
