//! A sample schema (a small language of statements, variables and values)
//! and the builders it is written with.
//!
//! File: tree<statement>
//! 0: statement: set: var, value | print: value
//! 1: var: tree<value>
//! 2: value: number (symbol) | inline-var | tree<pair>
//! 3: pair: value, value
//! 4: helper: '.' value

use vstd::prelude::*;

use crate::document3::{
    CellValue, FieldDef, FieldDefM, StructDef, StructDefM, Types, TypesM, VariantDef, VariantDefM,
    spec_depth, spec_fields_finite, spec_finite, spec_max_variants, spec_new_ok, spec_rom_width,
};
use crate::serialization::{
    Printing, PrintingBuilder, PrintingM, build, spec_build_structs, spec_piece_view,
    spec_struct_view,
};

verus! {

fn struct_one(name: &str, variant: VariantDef) -> (r: StructDef)
    ensures
        r@ == (StructDefM { name: name@, variants: seq![variant@] }),
{
    let r = StructDef { name: name.to_string(), variants: vec![variant] };
    assert(r@.variants =~= seq![variant@]);
    r
}

fn struct_two(name: &str, variant_one: VariantDef, variant_two: VariantDef) -> (r: StructDef)
    ensures
        r@ == (StructDefM { name: name@, variants: seq![variant_one@, variant_two@] }),
{
    let r = StructDef { name: name.to_string(), variants: vec![variant_one, variant_two] };
    assert(r@.variants =~= seq![variant_one@, variant_two@]);
    r
}

fn struct_three(name: &str, variant_one: VariantDef, variant_two: VariantDef, variant_three: VariantDef) -> (r: StructDef)
    ensures
        r@ == (StructDefM {
            name: name@,
            variants: seq![variant_one@, variant_two@, variant_three@],
        }),
{
    let r = StructDef {
        name: name.to_string(),
        variants: vec![variant_one, variant_two, variant_three],
    };
    assert(r@.variants =~= seq![variant_one@, variant_two@, variant_three@]);
    r
}

fn struct_many(name: &str, variants: Vec<VariantDef>) -> (r: StructDef)
    ensures
        r@ == (StructDefM { name: name@, variants: variants@.map_values(|v: VariantDef| v@) }),
{
    StructDef { name: name.to_string(), variants }
}

fn variant_zero(name: &str) -> (r: VariantDef)
    ensures
        r@ == (VariantDefM { name: name@, fields: Seq::empty() }),
{
    let r = VariantDef { name: name.to_string(), fields: Vec::new() };
    assert(r@.fields =~= Seq::<FieldDefM>::empty());
    r
}

fn variant_one(name: &str, field: FieldDef) -> (r: VariantDef)
    ensures
        r@ == (VariantDefM { name: name@, fields: seq![field@] }),
{
    let r = VariantDef { name: name.to_string(), fields: vec![field] };
    assert(r@.fields =~= seq![field@]);
    r
}

fn variant_two(name: &str, field_one: FieldDef, field_two: FieldDef) -> (r: VariantDef)
    ensures
        r@ == (VariantDefM { name: name@, fields: seq![field_one@, field_two@] }),
{
    let r = VariantDef { name: name.to_string(), fields: vec![field_one, field_two] };
    assert(r@.fields =~= seq![field_one@, field_two@]);
    r
}

fn variant_three(name: &str, field_one: FieldDef, field_two: FieldDef, field_three: FieldDef) -> (r: VariantDef)
    ensures
        r@ == (VariantDefM { name: name@, fields: seq![field_one@, field_two@, field_three@] }),
{
    let r = VariantDef { name: name.to_string(), fields: vec![field_one, field_two, field_three] };
    assert(r@.fields =~= seq![field_one@, field_two@, field_three@]);
    r
}

fn variant_many(name: &str, fields: Vec<FieldDef>) -> (r: VariantDef)
    ensures
        r@ == (VariantDefM { name: name@, fields: fields@.map_values(|f: FieldDef| f@) }),
{
    VariantDef { name: name.to_string(), fields }
}

fn field_struct(name: &str, struct_id: usize) -> (r: FieldDef)
    ensures
        r@ == (FieldDefM { name: name@, value: CellValue::Struct(struct_id), is_tree: false }),
{
    FieldDef { name: name.to_string(), value: CellValue::Struct(struct_id), is_tree: false }
}

fn field_structs(name: &str, struct_id: usize) -> (r: FieldDef)
    ensures
        r@ == (FieldDefM { name: name@, value: CellValue::Struct(struct_id), is_tree: true }),
{
    FieldDef { name: name.to_string(), value: CellValue::Struct(struct_id), is_tree: true }
}

fn field_symbols(name: &str) -> (r: FieldDef)
    ensures
        r@ == (FieldDefM { name: name@, value: CellValue::Symbol, is_tree: true }),
{
    FieldDef { name: name.to_string(), value: CellValue::Symbol, is_tree: true }
}

fn field_symbol(name: &str) -> (r: FieldDef)
    ensures
        r@ == (FieldDefM { name: name@, value: CellValue::Symbol, is_tree: false }),
{
    FieldDef { name: name.to_string(), value: CellValue::Symbol, is_tree: false }
}

fn variant_single_struct(name: &str, field_name: &str, struct_id: usize) -> (r: VariantDef)
    ensures
        r@ == (VariantDefM {
            name: name@,
            fields: seq![FieldDefM { name: field_name@, value: CellValue::Struct(struct_id), is_tree: false }],
        }),
{
    variant_one(name, field_struct(field_name, struct_id))
}

fn variant_single_symbol(name: &str, field_name: &str) -> (r: VariantDef)
    ensures
        r@ == (VariantDefM {
            name: name@,
            fields: seq![FieldDefM { name: field_name@, value: CellValue::Symbol, is_tree: false }],
        }),
{
    variant_one(name, field_symbol(field_name))
}

fn struct_wrapper(name: &str, variant_name: &str, field_name: &str, struct_id: usize) -> (r: StructDef)
    ensures
        r@ == (StructDefM {
            name: name@,
            variants: seq![
                VariantDefM {
                    name: variant_name@,
                    fields: seq![FieldDefM { name: field_name@, value: CellValue::Struct(struct_id), is_tree: false }],
                },
            ],
        }),
{
    struct_one(name, variant_single_struct(variant_name, field_name, struct_id))
}

pub open spec fn spec_variant(name: &str, fields: Seq<FieldDefM>) -> VariantDefM {
    VariantDefM { name: name@, fields }
}

pub open spec fn spec_field(name: &str, value: CellValue, is_tree: bool) -> FieldDefM {
    FieldDefM { name: name@, value, is_tree }
}

/// The sample schema, names and all.
pub open spec fn spec_sample_types() -> TypesM {
    TypesM {
        types: seq![
            StructDefM {
                name: "statement"@,
                variants: seq![
                    spec_variant(
                        "set_statement",
                        seq![
                            spec_field("var", CellValue::Struct(1), false),
                            spec_field("value", CellValue::Struct(2), false),
                        ],
                    ),
                    spec_variant(
                        "print_statement",
                        seq![spec_field("value", CellValue::Struct(2), false)],
                    ),
                ],
            },
            StructDefM {
                name: "var"@,
                variants: seq![
                    spec_variant(
                        "tree<value>",
                        seq![spec_field("('.' value)* '.'", CellValue::Struct(4), true)],
                    ),
                ],
            },
            StructDefM {
                name: "value"@,
                variants: seq![
                    spec_variant("number", seq![spec_field("number", CellValue::Symbol, false)]),
                    spec_variant("inline_var", seq![spec_field("var", CellValue::Struct(1), false)]),
                    spec_variant("list", seq![spec_field("tree<pair>", CellValue::Struct(3), true)]),
                ],
            },
            StructDefM {
                name: "pair"@,
                variants: seq![
                    spec_variant(
                        "value ':' value",
                        seq![
                            spec_field("value", CellValue::Struct(2), false),
                            spec_field("value", CellValue::Struct(2), false),
                        ],
                    ),
                ],
            },
            StructDefM {
                name: "'.' value"@,
                variants: seq![
                    spec_variant("'.' value", seq![spec_field("'.' value", CellValue::Struct(2), false)]),
                ],
            },
        ],
        rim: spec_field("file", CellValue::Struct(0), true),
    }
}

/// The sample schema: statements, variables, values, pairs, and a helper,
/// with a Rim that is a tree of statements.
pub fn sample_types() -> (r: Types)
    ensures
        r@ == spec_sample_types(),
{
    let types = vec![
        struct_two(
            "statement",
            variant_two("set_statement", field_struct("var", 1), field_struct("value", 2)),
            variant_single_struct("print_statement", "value", 2),
        ),
        struct_one("var", variant_one("tree<value>", field_structs("('.' value)* '.'", 4))),
        struct_three(
            "value",
            variant_single_symbol("number", "number"),
            variant_single_struct("inline_var", "var", 1),
            variant_one("list", field_structs("tree<pair>", 3)),
        ),
        struct_one("pair", variant_two("value ':' value", field_struct("value", 2), field_struct("value", 2))),
        struct_wrapper("'.' value", "'.' value", "'.' value", 2),
    ];
    let r = Types { types, rim: field_structs("file", 0) };
    proof {
        assert(r@.types =~~= spec_sample_types().types);
    }
    r
}

/// A new document can be built over the sample schema: its defaults nest
/// finitely and its palette is three columns wide.
pub proof fn lemma_sample_types_new_ok()
    ensures
        spec_new_ok(spec_sample_types()),
        spec_rom_width(spec_sample_types()) == 3,
{
    let t = spec_sample_types();
    reveal_with_fuel(spec_max_variants, 6);
    assert(spec_max_variants(t.types) == 3) by {
        assert(t.types.drop_last().drop_last().drop_last().drop_last().drop_last().len() == 0);
    }
    assert(spec_finite(t, 1, 5)) by {
        assert(t.types[1].variants[0].fields[0].is_tree);
    }
    assert(spec_finite(t, 2, 5)) by {
        assert(t.types[2].variants[0].fields[0].value == CellValue::Symbol);
    }
    assert forall|sid: int, vid: int|
        0 <= sid < t.types.len() && 0 <= vid < t.types[sid].variants.len() implies spec_fields_finite(
        t,
        #[trigger] t.types[sid].variants[vid].fields,
        (spec_depth(t) - 1) as nat,
    ) by {
        let fields = t.types[sid].variants[vid].fields;
        assert forall|fi: int| 0 <= fi < fields.len() implies match #[trigger] fields[fi] {
            FieldDefM { value: CellValue::Struct(n), is_tree: false, .. } => spec_finite(t, n as int, 5),
            _ => true,
        } by {
            if sid == 0 && vid == 0 {
            } else if sid == 0 {
            } else if sid == 1 {
            } else if sid == 2 && vid == 0 {
            } else if sid == 2 && vid == 1 {
            } else if sid == 2 {
            } else if sid == 3 {
            } else {
            }
        }
    }
}


// ===========================================================================
// Printing rules of the sample schema
// ===========================================================================

/// The printing rules of the sample schema, per struct and variant: the
/// string before each field (with the separator of a tree field), and the
/// string after the last field.
pub open spec fn spec_sample_rules() -> Seq<Seq<(Seq<(Seq<char>, Option<Seq<char>>)>, Seq<char>)>> {
    seq![
        seq![(seq![(""@, None), (" = "@, None)], ""@), (seq![("print "@, None)], ""@)],
        seq![(seq![(""@, Some(""@))], "."@)],
        seq![
            (seq![(""@, None)], ""@),
            (seq![("("@, None)], ")"@),
            (seq![("{ "@, Some(", "@))], " }"@),
        ],
        seq![(seq![(""@, None), (": "@, None)], ""@)],
        seq![(seq![("."@, None)], ""@)],
    ]
}

fn piece(before: &str) -> (r: (String, Option<String>))
    ensures
        spec_piece_view(r) == (before@, None::<Seq<char>>),
{
    (before.to_string(), None)
}

fn tree_piece(before: &str, sep: &str) -> (r: (String, Option<String>))
    ensures
        spec_piece_view(r) == (before@, Some(sep@)),
{
    (before.to_string(), Some(sep.to_string()))
}

/// The printing rules of the sample schema, with statements one per line.
pub fn sample_printing_builder() -> (r: PrintingBuilder)
    ensures
        r.root@ == "\n"@,
        r.data@.map_values(|s: Vec<(Vec<(String, Option<String>)>, String)>| spec_struct_view(s))
            == spec_sample_rules(),
{
    let statement = vec![
        (vec![piece(""), piece(" = ")], "".to_string()),
        (vec![piece("print ")], "".to_string()),
    ];
    let var = vec![(vec![tree_piece("", "")], ".".to_string())];
    let value = vec![
        (vec![piece("")], "".to_string()),
        (vec![piece("(")], ")".to_string()),
        (vec![tree_piece("{ ", ", ")], " }".to_string()),
    ];
    let pair = vec![(vec![piece(""), piece(": ")], "".to_string())];
    let helper = vec![(vec![piece(".")], "".to_string())];
    let r = PrintingBuilder { root: "\n".to_string(), data: vec![statement, var, value, pair, helper] };
    proof {
        let ss = r.data@.map_values(|s: Vec<(Vec<(String, Option<String>)>, String)>| spec_struct_view(s));
        let want = spec_sample_rules();
        assert forall|i: int| 0 <= i < 5 implies #[trigger] ss[i] =~~= want[i] by {
            let vs = ss[i];
            assert forall|j: int| 0 <= j < vs.len() implies #[trigger] vs[j] =~~= want[i][j] by {
                assert(vs[j].0 =~= want[i][j].0);
            }
        }
        assert(ss =~~= want);
    }
    r
}

/// The `Printing` of the sample schema's rules.
pub fn sample_printing() -> (r: Printing)
    ensures
        ({
            let b = spec_build_structs(spec_sample_rules());
            r@ == (PrintingM {
                root: "\n"@,
                data: b.0,
                variant_offset: b.1,
                variant_data_offset: b.2,
            })
        }),
{
    let pb = sample_printing_builder();
    proof {
        let rules = spec_sample_rules();
        reveal_with_fuel(spec_build_structs, 6);
        reveal_with_fuel(crate::serialization::spec_build_variants, 4);
        reveal_with_fuel(crate::serialization::spec_pieces, 3);
        assert(spec_build_structs(rules).0.len() == 20);
    }
    build(pb)
}

} // verus!
