//! Printing a document as text.
//!
//! Rules: struct and variant names are omitted; each struct variant prints
//! according to `Printing`; a symbol prints as its string; empty cells print
//! nothing; nothing else is added.
//!
//! Per struct variant, `Printing` holds its strings in order: a string, then
//! for each field (in field order) an optional separator (consumed by tree
//! fields, between their elements) and a string after the field. For
//! example `String, Field(sep), String, Field, String` takes 4 strings.

use vstd::prelude::*;
use vstd::string::StringExecFns;

use crate::document3::{Cell, CellM, Document, StructVal, StructValM, Tree, contents_view};

verus! {

pub struct Printing {
    /// The separator between the elements of the Rim, when it is a tree.
    pub root: String,
    pub data: Vec<String>,
    /// Per variant, counted across all structs: where its strings start in
    /// `data`.
    pub variant_offset: Vec<usize>,
    /// Per struct: where its variants start in `variant_offset`.
    pub variant_data_offset: Vec<usize>,
}

pub struct PrintingM {
    pub root: Seq<char>,
    pub data: Seq<Seq<char>>,
    pub variant_offset: Seq<usize>,
    pub variant_data_offset: Seq<usize>,
}

impl View for Printing {
    type V = PrintingM;

    open spec fn view(&self) -> PrintingM {
        PrintingM {
            root: self.root@,
            data: self.data@.map_values(|s: String| s@),
            variant_offset: self.variant_offset@,
            variant_data_offset: self.variant_data_offset@,
        }
    }
}

// ===========================================================================
// The order of a struct's fields
// ===========================================================================

/// The `Field` cells among `cs`, as (place, field id) pairs in place order.
pub open spec fn spec_field_pairs(cs: Seq<CellM>) -> Seq<(usize, usize)>
    decreases cs.len(),
{
    if cs.len() == 0 {
        Seq::empty()
    } else {
        let rest = spec_field_pairs(cs.drop_last());
        match cs.last() {
            CellM::Field(fv) => rest.push(((cs.len() - 1) as usize, fv.field_id)),
            _ => rest,
        }
    }
}

/// `x` inserted into `s` after the trailing pairs with a larger field id.
pub open spec fn spec_insert_by_id(s: Seq<(usize, usize)>, x: (usize, usize)) -> Seq<(usize, usize)>
    decreases s.len(),
{
    if s.len() == 0 || s.last().1 <= x.1 {
        s.push(x)
    } else {
        spec_insert_by_id(s.drop_last(), x).push(s.last())
    }
}

/// The pairs ordered by field id, pairs with equal ids in the order they
/// come in.
pub open spec fn spec_sort_by_id(s: Seq<(usize, usize)>) -> Seq<(usize, usize)>
    decreases s.len(),
{
    if s.len() == 0 {
        Seq::empty()
    } else {
        spec_insert_by_id(spec_sort_by_id(s.drop_last()), s.last())
    }
}

/// The places of the `Field` cells among `cs`, in field order.
pub open spec fn spec_field_order(cs: Seq<CellM>) -> Seq<usize> {
    spec_sort_by_id(spec_field_pairs(cs)).map_values(|p: (usize, usize)| p.0)
}

// ===========================================================================
// The text
// ===========================================================================

/// The text of a cell, and whether a later element needs a separator. A
/// value is written after the separator `sep` when `print_sep` is set; a
/// tree writes its values so, nested trees included, and adds nothing of
/// its own.
pub open spec fn spec_cell_txt(p: PrintingM, c: CellM, sep: Seq<char>, print_sep: bool) -> (Seq<char>, bool)
    decreases c, 0int,
{
    let pre = if print_sep {
        sep
    } else {
        Seq::empty()
    };
    match c {
        CellM::Symbol(s) => (pre + s, true),
        CellM::Struct(sv) => (pre + spec_struct_txt(p, sv), true),
        CellM::Tree(t) => spec_tree_txt(p, t.contents, sep, print_sep),
        _ => (Seq::empty(), print_sep),
    }
}

/// The text of the non-empty cells of a tree, separated by `sep`.
pub open spec fn spec_tree_txt(p: PrintingM, cells: Seq<CellM>, sep: Seq<char>, print_sep: bool) -> (Seq<char>, bool)
    decreases cells, 1int,
{
    if cells.len() == 0 {
        (Seq::empty(), print_sep)
    } else {
        let r = spec_tree_txt(p, cells.drop_last(), sep, print_sep);
        if cells.last() is Empty {
            r
        } else {
            let s = spec_cell_txt(p, cells.last(), sep, r.1);
            (r.0 + s.0, s.1)
        }
    }
}

/// Where the strings of a struct's variant start in `data`.
pub open spec fn spec_variant_start(p: PrintingM, sv: StructValM) -> int {
    p.variant_offset[p.variant_data_offset[sv.struct_id as int] + sv.variant_id] as int
}

/// The text of the fields at places `order` of a struct grid, with the
/// variant's strings read from `data` from place `i` on, and the place of
/// the next string.
pub open spec fn spec_fields_txt(p: PrintingM, cs: Seq<CellM>, order: Seq<usize>, i: int) -> (Seq<char>, int)
    decreases cs, order.len(),
{
    if order.len() == 0 {
        (Seq::empty(), i)
    } else {
        let r = spec_fields_txt(p, cs, order.drop_last(), i);
        let k = order.last() as int;
        if 0 <= k < cs.len() && cs[k] is Field {
            let v = *cs[k]->Field_0.value;
            let (sep, j) = if v is Tree {
                (p.data[r.1], r.1 + 1)
            } else {
                (Seq::empty(), r.1)
            };
            (r.0 + spec_cell_txt(p, v, sep, false).0 + p.data[j], j + 1)
        } else {
            r
        }
    }
}

/// The text of a struct: its variant's first string, then each field in
/// field order followed by its string.
pub open spec fn spec_struct_txt(p: PrintingM, sv: StructValM) -> Seq<char>
    decreases sv, 0int,
{
    let start = spec_variant_start(p, sv);
    let head = p.data[start];
    match sv.grid {
        None => head,
        Some(g) => match *g {
            CellM::Tree(t) => head + spec_fields_txt(p, t.contents, spec_field_order(t.contents), start + 1).0,
            _ => head,
        },
    }
}

/// A cell can be printed: no loose `Field` or empty cell where a value is
/// printed, every struct's variant has strings, and a struct's grid is a
/// tree.
pub open spec fn spec_printable(p: PrintingM, c: CellM) -> bool
    decreases c, 0int,
{
    match c {
        CellM::Symbol(_) => true,
        CellM::Struct(sv) => spec_struct_printable(p, sv),
        CellM::Tree(t) => forall|i: int|
            #![trigger t.contents[i]]
            0 <= i < t.contents.len() ==> t.contents[i] is Empty || spec_printable(p, t.contents[i]),
        _ => false,
    }
}

/// The fields at places `order` can be printed, reading strings from place
/// `i` on.
pub open spec fn spec_fields_printable(p: PrintingM, cs: Seq<CellM>, order: Seq<usize>, i: int) -> bool
    decreases cs, order.len(),
{
    if order.len() == 0 {
        true
    } else {
        let r = spec_fields_txt(p, cs, order.drop_last(), i);
        let k = order.last() as int;
        &&& spec_fields_printable(p, cs, order.drop_last(), i)
        &&& 0 <= k < cs.len()
        &&& cs[k] is Field
        &&& spec_printable(p, *cs[k]->Field_0.value)
        &&& (if *cs[k]->Field_0.value is Tree {
            r.1 + 1
        } else {
            r.1
        }) < p.data.len()
    }
}

pub open spec fn spec_struct_printable(p: PrintingM, sv: StructValM) -> bool
    decreases sv, 1int,
{
    &&& sv.struct_id < p.variant_data_offset.len()
    &&& p.variant_data_offset[sv.struct_id as int] + sv.variant_id < p.variant_offset.len()
    &&& 0 <= spec_variant_start(p, sv) < p.data.len()
    &&& match sv.grid {
        None => true,
        Some(g) => match *g {
            CellM::Tree(t) => spec_fields_printable(
                p,
                t.contents,
                spec_field_order(t.contents),
                spec_variant_start(p, sv) + 1,
            ),
            _ => false,
        },
    }
}

// ===========================================================================
// Printing
// ===========================================================================

/// Inserting `x` where the backward scan for its place stops.
proof fn lemma_insert_by_id(s: Seq<(usize, usize)>, x: (usize, usize), p: int)
    requires
        0 <= p <= s.len(),
        forall|j: int| p <= j < s.len() ==> (#[trigger] s[j]).1 > x.1,
        p == 0 || s[p - 1].1 <= x.1,
    ensures
        spec_insert_by_id(s, x) == s.insert(p, x),
    decreases s.len(),
{
    if s.len() == 0 || s.last().1 <= x.1 {
        if p < s.len() {
            assert(s[s.len() - 1].1 > x.1);
        }
        assert(s.push(x) =~= s.insert(p, x));
    } else {
        lemma_insert_by_id(s.drop_last(), x, p);
        assert(s.drop_last().insert(p, x).push(s.last()) =~= s.insert(p, x));
    }
}

fn insert_by_id(v: &mut Vec<(usize, usize)>, x: (usize, usize))
    ensures
        final(v)@ == spec_insert_by_id(old(v)@, x),
{
    let mut p = v.len();
    while p > 0 && v[p - 1].1 > x.1
        invariant
            p <= v@.len(),
            v@ == old(v)@,
            forall|j: int| p <= j < v@.len() ==> (#[trigger] v@[j]).1 > x.1,
        decreases p,
    {
        p = p - 1;
    }
    proof {
        lemma_insert_by_id(v@, x, p as int);
    }
    v.insert(p, x);
}

/// The places of the `Field` cells of `contents`, in field order (cells
/// with equal field ids in place order).
fn field_order(contents: &Vec<Cell>) -> (r: Vec<usize>)
    ensures
        r@ == spec_field_order(contents_view(contents@)),
{
    broadcast use crate::document3::group_cell_view;

    let ghost cs = contents_view(contents@);
    let mut sorted: Vec<(usize, usize)> = Vec::new();
    let mut i: usize = 0;
    while i < contents.len()
        invariant
            cs == contents_view(contents@),
            i <= cs.len(),
            sorted@ == spec_sort_by_id(spec_field_pairs(cs.take(i as int))),
        decreases cs.len() - i,
    {
        assert(cs.take(i + 1).drop_last() =~= cs.take(i as int));
        assert(cs[i as int] == contents@[i as int]@);
        match &contents[i] {
            Cell::Field(fv) => {
                insert_by_id(&mut sorted, (i, fv.field_id));
                proof {
                    let ps = spec_field_pairs(cs.take(i as int));
                    assert(spec_field_pairs(cs.take(i + 1)) == ps.push((i, fv.field_id)));
                    assert(ps.push((i, fv.field_id)).drop_last() =~= ps);
                }
            },
            _ => {},
        }
        i = i + 1;
    }
    assert(cs.take(cs.len() as int) =~= cs);
    let ghost srt = sorted@;
    let mut r: Vec<usize> = Vec::new();
    let mut k: usize = 0;
    while k < sorted.len()
        invariant
            srt == sorted@,
            k <= srt.len(),
            r@ == srt.take(k as int).map_values(|p: (usize, usize)| p.0),
        decreases srt.len() - k,
    {
        r.push(sorted[k].0);
        assert(srt.take(k + 1).map_values(|p: (usize, usize)| p.0) =~= srt.take(k as int).map_values(
            |p: (usize, usize)| p.0,
        ).push(srt[k as int].0));
        k = k + 1;
    }
    assert(srt.take(srt.len() as int) =~= srt);
    r
}

impl Document {
    /// Print the Rim, separating the elements of a Rim tree by the root
    /// separator.
    pub fn write_txt(&self, out: &mut String, printing: &Printing)
        requires
            spec_printable(printing@, self@.rim),
        ensures
            final(out)@ == old(out)@ + spec_cell_txt(printing@, self@.rim, printing@.root, false).0,
    {
        let mut print_sep = false;
        self.rim.write_txt(out, printing, printing.root.as_str(), &mut print_sep);
    }
}

impl Cell {
    /// Print this cell: a value after the separator if `print_sep` is set;
    /// a tree hands the separator on to its values and adds nothing.
    /// Afterwards `print_sep` tells whether a later element needs a
    /// separator.
    pub fn write_txt(&self, out: &mut String, printing: &Printing, sep: &str, print_sep: &mut bool)
        requires
            spec_printable(printing@, self@),
        ensures
            final(out)@ == old(out)@ + spec_cell_txt(printing@, self@, sep@, *old(print_sep)).0,
            *final(print_sep) == spec_cell_txt(printing@, self@, sep@, *old(print_sep)).1,
        decreases self, 0int,
    {
        broadcast use crate::document3::group_cell_view;

        match self {
            Cell::Symbol(s) => {
                if *print_sep {
                    out.append(sep);
                }
                *print_sep = true;
                out.append(s.as_str());
            },
            Cell::Struct(sv) => {
                if *print_sep {
                    out.append(sep);
                }
                *print_sep = true;
                sv.write_txt(out, printing);
            },
            Cell::Tree(tree) => {
                tree.write_txt(out, printing, sep, print_sep);
            },
            _ => vstd::pervasive::unreached(),
        }
    }
}

impl Tree {
    /// Print the non-empty cells of this tree, each after the separator
    /// when a value has been printed before it.
    pub fn write_txt(&self, out: &mut String, printing: &Printing, sep: &str, print_sep: &mut bool)
        requires
            forall|i: int|
                #![trigger self@.contents[i]]
                0 <= i < self@.contents.len() ==> self@.contents[i] is Empty || spec_printable(
                    printing@,
                    self@.contents[i],
                ),
        ensures
            final(out)@ == old(out)@ + spec_tree_txt(printing@, self@.contents, sep@, *old(print_sep)).0,
            *final(print_sep) == spec_tree_txt(printing@, self@.contents, sep@, *old(print_sep)).1,
        decreases self, 1int,
    {
        broadcast use crate::document3::group_cell_view;

        let ghost cs = self@.contents;
        let ghost out0 = out@;
        let ghost ps0 = *print_sep;
        let mut i: usize = 0;
        while i < self.contents.len()
            invariant
                cs == self@.contents,
                i <= cs.len(),
                forall|j: int|
                    #![trigger cs[j]]
                    0 <= j < cs.len() ==> cs[j] is Empty || spec_printable(printing@, cs[j]),
                out@ == out0 + spec_tree_txt(printing@, cs.take(i as int), sep@, ps0).0,
                *print_sep == spec_tree_txt(printing@, cs.take(i as int), sep@, ps0).1,
            decreases cs.len() - i,
        {
            proof {
                broadcast use vstd::std_specs::vec::axiom_vec_index_decreases;

                assert(decreases_to!(self => self.contents));
                assert(decreases_to!(self.contents => self.contents@[i as int]));
                assert(cs.take(i + 1).drop_last() =~= cs.take(i as int));
                assert(cs[i as int] == self.contents@[i as int]@);
            }
            let c = &self.contents[i];
            if !c.is_empty() {
                let ghost before = out@;
                c.write_txt(out, printing, sep, print_sep);
                proof {
                    assert(out@ =~= out0 + spec_tree_txt(printing@, cs.take(i + 1), sep@, ps0).0);
                }
            }
            i = i + 1;
        }
        proof {
            assert(cs.take(cs.len() as int) =~= cs);
        }
    }
}

impl StructVal {
    /// Print this struct: its variant's first string, then each field in
    /// field order, a tree field's elements separated by the next string,
    /// each field followed by the next string.
    pub fn write_txt(&self, out: &mut String, printing: &Printing)
        requires
            spec_struct_printable(printing@, self@),
        ensures
            final(out)@ == old(out)@ + spec_struct_txt(printing@, self@),
        decreases self, 2int,
    {
        broadcast use crate::document3::group_cell_view;

        let ghost pm = printing@;
        let _n = printing.variant_offset.len();
        let _d = printing.data.len();
        let variant_data_offset = printing.variant_data_offset[self.struct_id];
        let variant_offset = printing.variant_offset[variant_data_offset + self.variant_id];
        let mut i = variant_offset;
        assert(printing.data@[i as int]@ == pm.data[i as int]);
        out.append(printing.data[i].as_str());
        i = i + 1;
        let grid = match &self.grid {
            None => {
                return ;
            },
            Some(g) => g,
        };
        let t = match &**grid {
            Cell::Tree(t) => t,
            _ => vstd::pervasive::unreached(),
        };
        let contents = &t.contents;
        let order = field_order(contents);
        let ghost cs = contents_view(contents@);
        let ghost start = spec_variant_start(pm, self@);
        let ghost out0 = out@;
        assert(self@.grid == Some(Box::new(CellM::Tree(t@))));
        let mut k: usize = 0;
        while k < order.len()
            invariant
                self.grid == Some(*grid),
                **grid == Cell::Tree(*t),
                cs == contents_view(contents@),
                *contents == t.contents,
                pm == printing@,
                printing.data@.len() <= usize::MAX,
                order@ == spec_field_order(cs),
                spec_fields_printable(pm, cs, order@, start + 1),
                k <= order@.len(),
                spec_fields_txt(pm, cs, order@.take(k as int), start + 1).1 == i,
                out@ == out0 + spec_fields_txt(pm, cs, order@.take(k as int), start + 1).0,
            decreases order@.len() - k,
        {
            proof {
                lemma_fields_printable_prefix(pm, cs, order@, start + 1, k + 1);
                assert(order@.take(k + 1).drop_last() =~= order@.take(k as int));
                assert(order@.take(k + 1).last() == order@[k as int]);
            }
            let idx = order[k];
            assert(cs[idx as int] == contents@[idx as int]@);
            let fv = match &contents[idx] {
                Cell::Field(fv) => fv,
                _ => vstd::pervasive::unreached(),
            };
            let is_tree = match &*fv.value {
                Cell::Tree(_) => true,
                _ => false,
            };
            let sep: &str = if is_tree {
                assert(printing.data@[i as int]@ == pm.data[i as int]);
                let r = printing.data[i].as_str();
                i = i + 1;
                r
            } else {
                ""
            };
            proof {
                broadcast use vstd::std_specs::vec::axiom_vec_index_decreases;

                assert(decreases_to!(self => self.grid));
                assert(self.grid == Some(*grid));
                assert(decreases_to!(self.grid => self.grid->Some_0));
                assert(self.grid->Some_0 == *grid);
                assert(*self.grid->Some_0 == Cell::Tree(*t));
                assert((*self.grid->Some_0)->Tree_0 == *t);
                assert(decreases_to!(*self.grid->Some_0 => (*self.grid->Some_0)->Tree_0));
                assert(decreases_to!(*t => t.contents@[idx as int]));
                assert(decreases_to!(t.contents@[idx as int] => *fv));
                assert(decreases_to!(*fv => fv.value));
                assert(decreases_to!(self => fv.value));
                if !is_tree {
                    reveal_strlit("");
                    assert(sep@ == Seq::<char>::empty());
                }
            }
            let mut print_sep = false;
            fv.value.write_txt(out, printing, sep, &mut print_sep);
            assert(printing.data@[i as int]@ == pm.data[i as int]);
            out.append(printing.data[i].as_str());
            i = i + 1;
            proof {
                assert(out@ =~= out0 + spec_fields_txt(pm, cs, order@.take(k + 1), start + 1).0);
            }
            k = k + 1;
        }
        proof {
            assert(order@.take(order@.len() as int) =~= order@);
        }
    }
}

/// The fields of a prefix of the order can be printed when all can.
proof fn lemma_fields_printable_prefix(p: PrintingM, cs: Seq<CellM>, order: Seq<usize>, i: int, n: int)
    requires
        0 <= n <= order.len(),
        spec_fields_printable(p, cs, order, i),
    ensures
        spec_fields_printable(p, cs, order.take(n), i),
    decreases order.len(),
{
    if n < order.len() {
        assert(order.drop_last().take(n) =~= order.take(n));
        lemma_fields_printable_prefix(p, cs, order.drop_last(), i, n);
    } else {
        assert(order.take(n) =~= order);
    }
}

// ===========================================================================
// Building a `Printing`
// ===========================================================================

/// Per struct, per variant: the strings before each field with the
/// field's optional separator, and the string after the last field.
pub struct PrintingBuilder {
    pub root: String,
    pub data: Vec<Vec<(Vec<(String, Option<String>)>, String)>>,
}

pub open spec fn spec_opt_view(o: Option<String>) -> Option<Seq<char>> {
    match o {
        Some(s) => Some(s@),
        None => None,
    }
}

pub open spec fn spec_piece_view(p: (String, Option<String>)) -> (Seq<char>, Option<Seq<char>>) {
    (p.0@, spec_opt_view(p.1))
}

pub open spec fn spec_variant_view(v: (Vec<(String, Option<String>)>, String)) -> (Seq<(Seq<char>, Option<Seq<char>>)>, Seq<char>) {
    (v.0@.map_values(|p: (String, Option<String>)| spec_piece_view(p)), v.1@)
}

pub open spec fn spec_struct_view(s: Vec<(Vec<(String, Option<String>)>, String)>) -> Seq<(Seq<(Seq<char>, Option<Seq<char>>)>, Seq<char>)> {
    s@.map_values(|v: (Vec<(String, Option<String>)>, String)| spec_variant_view(v))
}

/// The strings of the pieces of a variant, each string followed by its
/// separator if it has one.
pub open spec fn spec_pieces(ps: Seq<(Seq<char>, Option<Seq<char>>)>) -> Seq<Seq<char>>
    decreases ps.len(),
{
    if ps.len() == 0 {
        Seq::empty()
    } else {
        spec_pieces(ps.drop_last()) + seq![ps.last().0] + match ps.last().1 {
            Some(o) => seq![o],
            None => Seq::empty(),
        }
    }
}

/// The strings of a variant, in the order `StructVal::write_txt` reads
/// them.
pub open spec fn spec_variant_strings(v: (Seq<(Seq<char>, Option<Seq<char>>)>, Seq<char>)) -> Seq<Seq<char>> {
    spec_pieces(v.0).push(v.1)
}

/// Appending the strings of variants `vs` to `data`, recording where each
/// variant starts.
pub open spec fn spec_build_variants(
    vs: Seq<(Seq<(Seq<char>, Option<Seq<char>>)>, Seq<char>)>,
    data: Seq<Seq<char>>,
    offsets: Seq<usize>,
) -> (Seq<Seq<char>>, Seq<usize>)
    decreases vs.len(),
{
    if vs.len() == 0 {
        (data, offsets)
    } else {
        let r = spec_build_variants(vs.drop_last(), data, offsets);
        (r.0 + spec_variant_strings(vs.last()), r.1.push(r.0.len() as usize))
    }
}

/// The strings of all variants of all structs `ss`, where each variant's
/// strings start, and where each struct's variants start.
pub open spec fn spec_build_structs(ss: Seq<Seq<(Seq<(Seq<char>, Option<Seq<char>>)>, Seq<char>)>>) -> (Seq<Seq<char>>, Seq<usize>, Seq<usize>)
    decreases ss.len(),
{
    if ss.len() == 0 {
        (Seq::empty(), Seq::empty(), Seq::empty())
    } else {
        let r = spec_build_structs(ss.drop_last());
        let v = spec_build_variants(ss.last(), r.0, r.1);
        (v.0, v.1, r.2.push(r.1.len() as usize))
    }
}

fn clone_opt_string(o: &Option<String>) -> (r: Option<String>)
    ensures
        spec_opt_view(r) == spec_opt_view(*o),
{
    match o {
        Some(s) => Some(s.clone()),
        None => None,
    }
}

/// The `Printing` a builder describes: all strings in order, where each
/// variant's strings start, and where each struct's variants start.
pub fn build(pb: PrintingBuilder) -> (r: Printing)
    requires
        spec_build_structs(pb.data@.map_values(|s: Vec<(Vec<(String, Option<String>)>, String)>| spec_struct_view(s))).0.len() <= usize::MAX,
    ensures
        ({
            let b = spec_build_structs(
                pb.data@.map_values(|s: Vec<(Vec<(String, Option<String>)>, String)>| spec_struct_view(s)),
            );
            r@ == (PrintingM {
                root: pb.root@,
                data: b.0,
                variant_offset: b.1,
                variant_data_offset: b.2,
            })
        }),
{
    let ghost ss = pb.data@.map_values(|s: Vec<(Vec<(String, Option<String>)>, String)>| spec_struct_view(s));
    let mut variant_offset_i: usize = 0;
    let mut variant_data_offset_i: usize = 0;
    let mut variant_offset: Vec<usize> = Vec::new();
    let mut variant_data_offset: Vec<usize> = Vec::new();
    let mut data: Vec<String> = Vec::new();
    let mut si: usize = 0;
    assert(spec_build_structs(ss.take(0)) == (Seq::<Seq<char>>::empty(), Seq::<usize>::empty(), Seq::<usize>::empty()));
    while si < pb.data.len()
        invariant
            ss == pb.data@.map_values(|s: Vec<(Vec<(String, Option<String>)>, String)>| spec_struct_view(s)),
            spec_build_structs(ss).0.len() <= usize::MAX,
            si <= ss.len(),
            ({
                let b = spec_build_structs(ss.take(si as int));
                &&& data@.map_values(|s: String| s@) == b.0
                &&& variant_offset@ == b.1
                &&& variant_data_offset@ == b.2
            }),
            variant_offset_i == data@.len(),
            variant_data_offset_i == variant_offset@.len(),
            variant_offset@.len() <= data@.len(),
        decreases ss.len() - si,
    {
        let struct_data = &pb.data[si];
        let ghost vs = ss[si as int];
        let ghost b0 = spec_build_structs(ss.take(si as int));
        assert(ss.take(si + 1).drop_last() =~= ss.take(si as int));
        assert(ss.take(si + 1).last() == vs);
        assert(vs == spec_struct_view(*struct_data));
        proof {
            lemma_build_structs_prefix_len(ss, si as int + 1);
        }
        variant_data_offset.push(variant_data_offset_i);
        let mut vi: usize = 0;
        while vi < struct_data.len()
            invariant
                vs == spec_struct_view(*struct_data),
                vi <= vs.len(),
                spec_build_variants(vs, b0.0, b0.1).0.len() <= usize::MAX,
                ({
                    let v = spec_build_variants(vs.take(vi as int), b0.0, b0.1);
                    &&& data@.map_values(|s: String| s@) == v.0
                    &&& variant_offset@ == v.1
                }),
                variant_offset_i == data@.len(),
                variant_data_offset_i == variant_offset@.len(),
                variant_offset@.len() <= data@.len(),
            decreases vs.len() - vi,
        {
            let (variant_data, variant_data_end) = &struct_data[vi];
            let ghost v0 = spec_build_variants(vs.take(vi as int), b0.0, b0.1);
            assert(vs.take(vi + 1).drop_last() =~= vs.take(vi as int));
            assert(vs.take(vi + 1).last() == vs[vi as int]);
            let ghost ps = vs[vi as int].0;
            assert(ps == variant_data@.map_values(|p: (String, Option<String>)| spec_piece_view(p)));
            proof {
                lemma_build_variants_prefix_len(vs, b0.0, b0.1, vi as int + 1);
                assert(spec_build_variants(vs.take(vi + 1), b0.0, b0.1).0 == v0.0
                    + spec_variant_strings(vs[vi as int]));
                assert(data@.len() == v0.0.len());
            }
            variant_data_offset_i = variant_data_offset_i + 1;
            variant_offset.push(variant_offset_i);
            let mut pi: usize = 0;
            while pi < variant_data.len()
                invariant
                    ps == variant_data@.map_values(|p: (String, Option<String>)| spec_piece_view(p)),
                    vi < vs.len(),
                    pi <= ps.len(),
                    v0.0.len() + spec_variant_strings(vs[vi as int]).len() <= usize::MAX,
                    vs[vi as int].0 == ps,
                    data@.map_values(|s: String| s@) == v0.0 + spec_pieces(ps.take(pi as int)),
                    variant_offset_i == data@.len(),
                decreases ps.len() - pi,
            {
                let (st, os) = &variant_data[pi];
                assert(ps.take(pi + 1).drop_last() =~= ps.take(pi as int));
                assert(ps.take(pi + 1).last() == ps[pi as int]);
                proof {
                    lemma_pieces_prefix_len(ps, pi as int + 1);
                    assert(ps[pi as int] == spec_piece_view(variant_data@[pi as int]));
                    assert(data@.map_values(|s: String| s@).len() == data@.len());
                    assert(data@.len() == v0.0.len() + spec_pieces(ps.take(pi as int)).len());
                }
                let ghost before = data@.map_values(|s: String| s@);
                let st2 = st.clone();
                data.push(st2);
                assert(data@.map_values(|s: String| s@) =~= before.push(st@));
                variant_offset_i = variant_offset_i + 1;
                match os {
                    Some(sep) => {
                        let ghost mid = data@.map_values(|s: String| s@);
                        let sep2 = sep.clone();
                        data.push(sep2);
                        assert(data@.map_values(|s: String| s@) =~= mid.push(sep@));
                        variant_offset_i = variant_offset_i + 1;
                    },
                    None => {},
                }
                assert(data@.map_values(|s: String| s@) =~= v0.0 + spec_pieces(ps.take(pi + 1)));
                pi = pi + 1;
            }
            assert(ps.take(ps.len() as int) =~= ps);
            let ghost before = data@.map_values(|s: String| s@);
            let end2 = variant_data_end.clone();
            data.push(end2);
            assert(data@.map_values(|s: String| s@) =~= before.push(variant_data_end@));
            variant_offset_i = variant_offset_i + 1;
            assert(data@.map_values(|s: String| s@) =~= spec_build_variants(vs.take(vi + 1), b0.0, b0.1).0);
            vi = vi + 1;
        }
        assert(vs.take(vs.len() as int) =~= vs);
        si = si + 1;
    }
    assert(ss.take(ss.len() as int) =~= ss);
    let r = Printing { root: pb.root, data, variant_offset, variant_data_offset };
    r
}

proof fn lemma_pieces_prefix_len(ps: Seq<(Seq<char>, Option<Seq<char>>)>, n: int)
    requires
        0 <= n <= ps.len(),
    ensures
        spec_pieces(ps.take(n)).len() <= spec_pieces(ps).len(),
    decreases ps.len(),
{
    if n < ps.len() {
        assert(ps.drop_last().take(n) =~= ps.take(n));
        lemma_pieces_prefix_len(ps.drop_last(), n);
    } else {
        assert(ps.take(n) =~= ps);
    }
}

proof fn lemma_build_variants_prefix_len(
    vs: Seq<(Seq<(Seq<char>, Option<Seq<char>>)>, Seq<char>)>,
    data: Seq<Seq<char>>,
    offsets: Seq<usize>,
    n: int,
)
    requires
        0 <= n <= vs.len(),
    ensures
        spec_build_variants(vs.take(n), data, offsets).0.len() <= spec_build_variants(vs, data, offsets).0.len(),
        spec_build_variants(vs, data, offsets).0.len() >= data.len(),
    decreases vs.len(),
{
    if vs.len() > 0 {
        lemma_build_variants_prefix_len(vs.drop_last(), data, offsets, if n < vs.len() {
            n
        } else {
            vs.len() - 1
        });
    }
    if n < vs.len() {
        assert(vs.drop_last().take(n) =~= vs.take(n));
    } else {
        assert(vs.take(n) =~= vs);
    }
}

proof fn lemma_build_structs_prefix_len(ss: Seq<Seq<(Seq<(Seq<char>, Option<Seq<char>>)>, Seq<char>)>>, n: int)
    requires
        0 <= n <= ss.len(),
    ensures
        spec_build_structs(ss.take(n)).0.len() <= spec_build_structs(ss).0.len(),
    decreases ss.len(),
{
    if ss.len() > 0 {
        let r = spec_build_structs(ss.drop_last());
        lemma_build_variants_prefix_len(ss.last(), r.0, r.1, 0);
        if n < ss.len() {
            assert(ss.drop_last().take(n) =~= ss.take(n));
            lemma_build_structs_prefix_len(ss.drop_last(), n);
        } else {
            assert(ss.take(n) =~= ss);
        }
    }
}

// ===========================================================================
// Whether a cell can be printed
// ===========================================================================

/// Whether `c` can be printed with `printing`.
pub fn printable(printing: &Printing, c: &Cell) -> (r: bool)
    ensures
        r == spec_printable(printing@, c@),
    decreases c, 0int,
{
    broadcast use crate::document3::group_cell_view;

    match c {
        Cell::Symbol(_) => true,
        Cell::Struct(sv) => struct_printable(printing, sv),
        Cell::Tree(t) => tree_printable(printing, t),
        _ => false,
    }
}

fn tree_printable(printing: &Printing, t: &Tree) -> (r: bool)
    ensures
        r == forall|i: int|
            #![trigger t@.contents[i]]
            0 <= i < t@.contents.len() ==> t@.contents[i] is Empty || spec_printable(
                printing@,
                t@.contents[i],
            ),
    decreases t, 2int,
{
    broadcast use crate::document3::group_cell_view;

    let ghost cs = t@.contents;
    let mut i: usize = 0;
    while i < t.contents.len()
        invariant
            cs == t@.contents,
            i <= cs.len(),
            forall|j: int| 0 <= j < i ==> (#[trigger] cs[j]) is Empty || spec_printable(printing@, cs[j]),
        decreases cs.len() - i,
    {
        proof {
            broadcast use vstd::std_specs::vec::axiom_vec_index_decreases;

            assert(decreases_to!(t => t.contents));
            assert(decreases_to!(t.contents => t.contents@[i as int]));
            assert(cs[i as int] == t.contents@[i as int]@);
        }
        let e = &t.contents[i];
        if !e.is_empty() && !printable(printing, e) {
            assert(!(cs[i as int] is Empty || spec_printable(printing@, cs[i as int])));
            return false;
        }
        i = i + 1;
    }
    true
}

fn struct_printable(printing: &Printing, sv: &StructVal) -> (r: bool)
    ensures
        r == spec_struct_printable(printing@, sv@),
    decreases sv, 1int,
{
    broadcast use crate::document3::group_cell_view;

    let ghost pm = printing@;
    if sv.struct_id >= printing.variant_data_offset.len() {
        return false;
    }
    let vdo = printing.variant_data_offset[sv.struct_id];
    if vdo >= printing.variant_offset.len() || sv.variant_id >= printing.variant_offset.len() - vdo {
        return false;
    }
    let start = printing.variant_offset[vdo + sv.variant_id];
    if start >= printing.data.len() {
        return false;
    }
    let grid = match &sv.grid {
        None => {
            return true;
        },
        Some(g) => g,
    };
    let t = match &**grid {
        Cell::Tree(t) => t,
        _ => {
            return false;
        },
    };
    let contents = &t.contents;
    let order = field_order(contents);
    let ghost cs = contents_view(contents@);
    assert(sv@.grid == Some(Box::new(CellM::Tree(t@))));
    let mut i: usize = start + 1;
    let mut k: usize = 0;
    while k < order.len()
        invariant
            sv.grid == Some(*grid),
            **grid == Cell::Tree(*t),
            sv@.grid == Some(Box::new(CellM::Tree(t@))),
            cs == contents_view(contents@),
            cs == t@.contents,
            *contents == t.contents,
            pm == printing@,
            sv.struct_id < pm.variant_data_offset.len(),
            pm.variant_data_offset[sv.struct_id as int] + sv.variant_id < pm.variant_offset.len(),
            start == spec_variant_start(pm, sv@),
            0 <= start < pm.data.len(),
            printing.data@.len() <= usize::MAX,
            order@ == spec_field_order(cs),
            k <= order@.len(),
            start + 1 <= i,
            i == spec_fields_txt(pm, cs, order@.take(k as int), start + 1).1,
            spec_fields_printable(pm, cs, order@.take(k as int), start + 1),
        decreases order@.len() - k,
    {
        proof {
            assert(order@.take(k + 1).drop_last() =~= order@.take(k as int));
            assert(order@.take(k + 1).last() == order@[k as int]);
        }
        let idx = order[k];
        if idx >= contents.len() {
            proof {
                if spec_fields_printable(pm, cs, order@, start + 1) {
                    lemma_fields_printable_prefix(pm, cs, order@, start + 1, k + 1);
                }
            }
            return false;
        }
        assert(cs[idx as int] == contents@[idx as int]@);
        let fv = match &contents[idx] {
            Cell::Field(fv) => fv,
            _ => {
                proof {
                    if spec_fields_printable(pm, cs, order@, start + 1) {
                        lemma_fields_printable_prefix(pm, cs, order@, start + 1, k + 1);
                    }
                }
                return false;
            },
        };
        proof {
            broadcast use vstd::std_specs::vec::axiom_vec_index_decreases;

            assert(decreases_to!(sv => sv.grid));
            assert(sv.grid == Some(*grid));
            assert(decreases_to!(sv.grid => sv.grid->Some_0));
            assert(sv.grid->Some_0 == *grid);
            assert((*sv.grid->Some_0)->Tree_0 == *t);
            assert(decreases_to!(*sv.grid->Some_0 => (*sv.grid->Some_0)->Tree_0));
            assert(decreases_to!(*t => t.contents@[idx as int]));
            assert(decreases_to!(t.contents@[idx as int] => *fv));
            assert(decreases_to!(*fv => fv.value));
            assert(decreases_to!(sv => fv.value));
        }
        let ok = printable(printing, &fv.value);
        let is_tree = match &*fv.value {
            Cell::Tree(_) => true,
            _ => false,
        };
        if is_tree && i >= printing.data.len() {
            proof {
                if spec_fields_printable(pm, cs, order@, start + 1) {
                    lemma_fields_printable_prefix(pm, cs, order@, start + 1, k + 1);
                }
            }
            return false;
        }
        let j = if is_tree {
            i + 1
        } else {
            i
        };
        if !ok || j >= printing.data.len() {
            proof {
                if spec_fields_printable(pm, cs, order@, start + 1) {
                    lemma_fields_printable_prefix(pm, cs, order@, start + 1, k + 1);
                }
            }
            return false;
        }
        i = j + 1;
        k = k + 1;
    }
    proof {
        assert(order@.take(order@.len() as int) =~= order@);
    }
    true
}

/// Not empty.
pub open spec fn spec_not_empty(c: CellM) -> bool {
    !(c is Empty)
}

/// Empty cells print nothing: a tree's text is that of its non-empty cells
/// alone.
pub proof fn lemma_empty_cells_print_nothing(p: PrintingM, cells: Seq<CellM>, sep: Seq<char>, print_sep: bool)
    ensures
        spec_tree_txt(p, cells, sep, print_sep) == spec_tree_txt(
            p,
            cells.filter(|c: CellM| spec_not_empty(c)),
            sep,
            print_sep,
        ),
    decreases cells.len(),
{
    let pred = |c: CellM| spec_not_empty(c);
    if cells.len() == 0 {
        assert(cells.filter(pred) =~= Seq::<CellM>::empty()) by {
            reveal(Seq::filter);
        }
    } else {
        let init = cells.drop_last();
        let last = cells.last();
        lemma_empty_cells_print_nothing(p, init, sep, print_sep);
        assert(init.push(last) =~= cells);
        init.lemma_filter_push(last, pred);
        let f = init.filter(pred);
        if !(last is Empty) {
            assert(f.push(last).drop_last() =~= f);
        }
    }
}


/// The text of two runs of cells one after the other is the text of the
/// first run followed by that of the second, the second starting with the
/// separator flag the first left.
pub proof fn lemma_tree_txt_concat(p: PrintingM, a: Seq<CellM>, b: Seq<CellM>, sep: Seq<char>, print_sep: bool)
    ensures
        ({
            let ra = spec_tree_txt(p, a, sep, print_sep);
            let rb = spec_tree_txt(p, b, sep, ra.1);
            spec_tree_txt(p, a + b, sep, print_sep) == (ra.0 + rb.0, rb.1)
        }),
    decreases b.len(),
{
    if b.len() == 0 {
        assert(a + b =~= a);
        assert(spec_tree_txt(p, a, sep, print_sep).0 + Seq::<char>::empty() =~= spec_tree_txt(p, a, sep, print_sep).0);
    } else {
        assert((a + b).drop_last() =~= a + b.drop_last());
        assert((a + b).last() == b.last());
        lemma_tree_txt_concat(p, a, b.drop_last(), sep, print_sep);
        let ra = spec_tree_txt(p, a, sep, print_sep);
        let rb0 = spec_tree_txt(p, b.drop_last(), sep, ra.1);
        if !(b.last() is Empty) {
            let sc = spec_cell_txt(p, b.last(), sep, rb0.1);
            assert(ra.0 + rb0.0 + sc.0 =~= ra.0 + (rb0.0 + sc.0));
        }
    }
}

/// Nesting on the grid axis does not show in the text: a tree among the
/// cells prints as its own cells would, spliced in its place.
pub proof fn lemma_nested_tree_txt(
    p: PrintingM,
    a: Seq<CellM>,
    t: crate::document3::TreeM,
    b: Seq<CellM>,
    sep: Seq<char>,
    print_sep: bool,
)
    ensures
        spec_tree_txt(p, a + seq![CellM::Tree(t)] + b, sep, print_sep) == spec_tree_txt(
            p,
            a + t.contents + b,
            sep,
            print_sep,
        ),
{
    let one = seq![CellM::Tree(t)];
    lemma_tree_txt_concat(p, a + one, b, sep, print_sep);
    lemma_tree_txt_concat(p, a, one, sep, print_sep);
    lemma_tree_txt_concat(p, a + t.contents, b, sep, print_sep);
    lemma_tree_txt_concat(p, a, t.contents, sep, print_sep);
    let ra = spec_tree_txt(p, a, sep, print_sep);
    assert(one.drop_last() =~= Seq::<CellM>::empty());
    let rt = spec_tree_txt(p, t.contents, sep, ra.1);
    assert(spec_tree_txt(p, one.drop_last(), sep, ra.1) == (Seq::<char>::empty(), ra.1));
    assert(one.last() == CellM::Tree(t));
    assert(spec_cell_txt(p, CellM::Tree(t), sep, ra.1) == rt);
    assert(Seq::<char>::empty() + rt.0 =~= rt.0);
    assert(spec_tree_txt(p, one, sep, ra.1) == rt);
}

/// A symbol prints as its text, after the separator when one is due, and
/// makes a separator due; an empty cell prints nothing and changes nothing.
pub proof fn lemma_leaf_txt(p: PrintingM, text: Seq<char>, sep: Seq<char>, print_sep: bool)
    ensures
        spec_cell_txt(p, CellM::Symbol(text), sep, print_sep) == (
            if print_sep {
                sep + text
            } else {
                text
            },
            true,
        ),
        spec_cell_txt(p, CellM::Empty, sep, print_sep) == (Seq::<char>::empty(), print_sep),
{
    if !print_sep {
        assert(Seq::<char>::empty() + text =~= text);
    }
}


// ===========================================================================
// The order of a struct's fields, as a law
// ===========================================================================

/// The pairs are in order of field id.
pub open spec fn spec_by_id(s: Seq<(usize, usize)>) -> bool {
    forall|i: int, j: int| 0 <= i < j < s.len() ==> #[trigger] s[i].1 <= #[trigger] s[j].1
}

proof fn lemma_insert_keeps_order(s: Seq<(usize, usize)>, x: (usize, usize))
    requires
        spec_by_id(s),
    ensures
        spec_by_id(spec_insert_by_id(s, x)),
        spec_insert_by_id(s, x).len() == s.len() + 1,
        forall|e: (usize, usize)| #[trigger] spec_insert_by_id(s, x).contains(e) <==> (s.contains(e) || e == x),
        s.no_duplicates() && !s.contains(x) ==> spec_insert_by_id(s, x).no_duplicates(),
    decreases s.len(),
{
    let ins = spec_insert_by_id(s, x);
    if s.len() == 0 || s.last().1 <= x.1 {
        assert(ins == s.push(x));
        assert forall|e: (usize, usize)| ins.contains(e) <==> (s.contains(e) || e == x) by {
            if ins.contains(e) {
                let k = choose|k: int| 0 <= k < ins.len() && ins[k] == e;
                if k < s.len() {
                    assert(s[k] == e);
                }
            }
            if s.contains(e) {
                let k = choose|k: int| 0 <= k < s.len() && s[k] == e;
                assert(ins[k] == e);
            }
            if e == x {
                assert(ins[s.len() as int] == x);
            }
        }
        assert forall|i: int, j: int| 0 <= i < j < ins.len() implies #[trigger] ins[i].1 <= #[trigger] ins[j].1 by {
            if j == s.len() {
                if i < s.len() - 1 {
                    assert(s[i].1 <= s[s.len() - 1].1);
                }
            } else {
                assert(ins[i] == s[i] && ins[j] == s[j]);
            }
        }
        if s.no_duplicates() && !s.contains(x) {
            assert forall|i: int, j: int| 0 <= i < ins.len() && 0 <= j < ins.len() && i != j implies ins[i]
                != ins[j] by {
                if i == s.len() {
                    assert(s.contains(ins[j]));
                } else if j == s.len() {
                    assert(s.contains(ins[i]));
                }
            }
        }
    } else {
        let dl = s.drop_last();
        let last = s.last();
        assert(spec_by_id(dl)) by {
            assert forall|i: int, j: int| 0 <= i < j < dl.len() implies #[trigger] dl[i].1 <= #[trigger] dl[j].1 by {
                assert(dl[i] == s[i] && dl[j] == s[j]);
            }
        }
        lemma_insert_keeps_order(dl, x);
        let r = spec_insert_by_id(dl, x);
        assert(ins == r.push(last));
        assert(s =~= dl.push(last));
        assert forall|e: (usize, usize)| ins.contains(e) <==> (s.contains(e) || e == x) by {
            if ins.contains(e) {
                let k = choose|k: int| 0 <= k < ins.len() && ins[k] == e;
                if k < r.len() {
                    assert(r.contains(e));
                    if dl.contains(e) {
                        let m = choose|m: int| 0 <= m < dl.len() && dl[m] == e;
                        assert(s[m] == e);
                    }
                } else {
                    assert(s[s.len() - 1] == e);
                }
            }
            if s.contains(e) {
                let k = choose|k: int| 0 <= k < s.len() && s[k] == e;
                if k < s.len() - 1 {
                    assert(dl[k] == e);
                    assert(r.contains(e));
                    let m = choose|m: int| 0 <= m < r.len() && r[m] == e;
                    assert(ins[m] == e);
                } else {
                    assert(ins[r.len() as int] == e);
                }
            }
            if e == x {
                assert(r.contains(x));
                let m = choose|m: int| 0 <= m < r.len() && r[m] == x;
                assert(ins[m] == x);
            }
        }
        assert forall|i: int, j: int| 0 <= i < j < ins.len() implies #[trigger] ins[i].1 <= #[trigger] ins[j].1 by {
            if j == r.len() {
                let e = ins[i];
                assert(r[i] == e);
                assert(r.contains(e));
                if dl.contains(e) {
                    let m = choose|m: int| 0 <= m < dl.len() && dl[m] == e;
                    assert(s[m] == e);
                    assert(s[m].1 <= s[s.len() - 1].1);
                }
            } else {
                assert(ins[i] == r[i] && ins[j] == r[j]);
            }
        }
        if s.no_duplicates() && !s.contains(x) {
            assert(dl.no_duplicates()) by {
                assert forall|i: int, j: int| 0 <= i < dl.len() && 0 <= j < dl.len() && i != j implies dl[i]
                    != dl[j] by {
                    assert(dl[i] == s[i] && dl[j] == s[j]);
                }
            }
            assert(!dl.contains(x)) by {
                if dl.contains(x) {
                    let m = choose|m: int| 0 <= m < dl.len() && dl[m] == x;
                    assert(s[m] == x);
                }
            }
            assert(!r.contains(last)) by {
                if dl.contains(last) {
                    let m = choose|m: int| 0 <= m < dl.len() && dl[m] == last;
                    assert(s[m] == s[s.len() - 1]);
                }
                assert(s[s.len() - 1] == last);
            }
            assert forall|i: int, j: int| 0 <= i < ins.len() && 0 <= j < ins.len() && i != j implies ins[i]
                != ins[j] by {
                if i == r.len() {
                    assert(r[j] == ins[j]);
                } else if j == r.len() {
                    assert(r[i] == ins[i]);
                } else {
                    assert(r[i] == ins[i] && r[j] == ins[j]);
                }
            }
        }
    }
}

proof fn lemma_sort_by_id(s: Seq<(usize, usize)>)
    ensures
        spec_by_id(spec_sort_by_id(s)),
        spec_sort_by_id(s).len() == s.len(),
        forall|e: (usize, usize)| #[trigger] spec_sort_by_id(s).contains(e) <==> s.contains(e),
        s.no_duplicates() ==> spec_sort_by_id(s).no_duplicates(),
    decreases s.len(),
{
    if s.len() > 0 {
        let dl = s.drop_last();
        lemma_sort_by_id(dl);
        let r = spec_sort_by_id(dl);
        lemma_insert_keeps_order(r, s.last());
        assert(s =~= dl.push(s.last()));
        assert forall|e: (usize, usize)| s.contains(e) <==> (dl.contains(e) || e == s.last()) by {
            if s.contains(e) {
                let k = choose|k: int| 0 <= k < s.len() && s[k] == e;
                if k < dl.len() {
                    assert(dl[k] == e);
                }
            }
            if dl.contains(e) {
                let k = choose|k: int| 0 <= k < dl.len() && dl[k] == e;
                assert(s[k] == e);
            }
            if e == s.last() {
                assert(s[s.len() - 1] == e);
            }
        }
        if s.no_duplicates() {
            assert(dl.no_duplicates()) by {
                assert forall|i: int, j: int| 0 <= i < dl.len() && 0 <= j < dl.len() && i != j implies dl[i]
                    != dl[j] by {
                    assert(dl[i] == s[i] && dl[j] == s[j]);
                }
            }
            assert(!dl.contains(s.last())) by {
                if dl.contains(s.last()) {
                    let m = choose|m: int| 0 <= m < dl.len() && dl[m] == s.last();
                    assert(s[m] == s[s.len() - 1]);
                }
            }
        }
    } else {
        assert forall|e: (usize, usize)| #[trigger] spec_sort_by_id(s).contains(e) <==> s.contains(e) by {
        }
    }
}

proof fn lemma_field_pairs(cs: Seq<CellM>)
    requires
        cs.len() <= usize::MAX,
    ensures
        forall|k: int|
            0 <= k < spec_field_pairs(cs).len() ==> (#[trigger] spec_field_pairs(cs)[k]).0 < cs.len(),
        forall|k1: int, k2: int|
            0 <= k1 < k2 < spec_field_pairs(cs).len() ==> (#[trigger] spec_field_pairs(cs)[k1]).0
                < (#[trigger] spec_field_pairs(cs)[k2]).0,
        forall|e: (usize, usize)| #[trigger] spec_field_pairs(cs).contains(e) <==> (e.0 < cs.len()
            && cs[e.0 as int] is Field && cs[e.0 as int]->Field_0.field_id == e.1),
        spec_field_pairs(cs).no_duplicates(),
    decreases cs.len(),
{
    let ps = spec_field_pairs(cs);
    if cs.len() > 0 {
        let dl = cs.drop_last();
        lemma_field_pairs(dl);
        let r = spec_field_pairs(dl);
        let n = cs.len() - 1;
        assert forall|j: int| 0 <= j < dl.len() implies dl[j] == cs[j] by {}
        let x = (n as usize, cs.last()->Field_0.field_id);
        assert(cs.last() is Field ==> ps == r.push(x));
        assert(!(cs.last() is Field) ==> ps == r);
        assert forall|k: int| 0 <= k < r.len() implies #[trigger] ps[k] == r[k] by {}
        assert(cs.last() is Field ==> ps.len() == r.len() + 1 && ps[r.len() as int] == x);
        assert(!(cs.last() is Field) ==> ps.len() == r.len());
        assert forall|k: int| 0 <= k < ps.len() implies (#[trigger] ps[k]).0 < cs.len() by {
            if k < r.len() {
                assert(ps[k] == r[k]);
            }
        }
        assert forall|k1: int, k2: int| 0 <= k1 < k2 < ps.len() implies (#[trigger] ps[k1]).0 < (
        #[trigger] ps[k2]).0 by {
            assert(ps[k1] == r[k1]);
            if k2 < r.len() {
                assert(ps[k2] == r[k2]);
                assert(r[k1].0 < r[k2].0);
                assert(ps[k1].0 < ps[k2].0);
            } else {
                assert(cs.last() is Field);
                assert(r[k1].0 < dl.len());
                assert(ps[k2] == x);
                assert(x.0 == dl.len());
                assert(ps[k1].0 < ps[k2].0);
            }
        }
        assert forall|e: (usize, usize)| #[trigger] ps.contains(e) <==> (e.0 < cs.len() && cs[e.0 as int] is Field
            && cs[e.0 as int]->Field_0.field_id == e.1) by {
            if ps.contains(e) {
                let k = choose|k: int| 0 <= k < ps.len() && ps[k] == e;
                if k < r.len() {
                    assert(r[k] == e);
                    assert(r.contains(e));
                    assert(dl[e.0 as int] == cs[e.0 as int]);
                }
            }
            if e.0 < cs.len() && cs[e.0 as int] is Field && cs[e.0 as int]->Field_0.field_id == e.1 {
                if e.0 < dl.len() {
                    assert(dl[e.0 as int] == cs[e.0 as int]);
                    assert(r.contains(e));
                    let m = choose|m: int| 0 <= m < r.len() && r[m] == e;
                    assert(ps[m] == e);
                } else {
                    assert(e == x);
                    assert(ps[r.len() as int] == e);
                }
            }
        }
        assert forall|i: int, j: int| 0 <= i < ps.len() && 0 <= j < ps.len() && i != j implies ps[i]
            != ps[j] by {
            if i < j {
                assert(ps[i].0 < ps[j].0);
            } else {
                assert(ps[j].0 < ps[i].0);
            }
        }
    }
}

/// The fields of a struct are printed in field order: the places the
/// printer visits are exactly the places of the `Field` cells, each once,
/// and their field ids never decrease along the way.
pub proof fn lemma_field_order(cs: Seq<CellM>)
    requires
        cs.len() <= usize::MAX,
    ensures
        ({
            let o = spec_field_order(cs);
            &&& forall|k: int| 0 <= k < o.len() ==> #[trigger] o[k] < cs.len() && cs[o[k] as int] is Field
            &&& forall|k1: int, k2: int|
                0 <= k1 < k2 < o.len() ==> (cs[#[trigger] o[k1] as int]->Field_0).field_id <= (cs[#[trigger] o[k2] as int]->Field_0).field_id
            &&& o.no_duplicates()
            &&& forall|i: int| 0 <= i < cs.len() && #[trigger] cs[i] is Field ==> o.contains(i as usize)
        }),
{
    let ps = spec_field_pairs(cs);
    lemma_field_pairs(cs);
    lemma_sort_by_id(ps);
    let sp = spec_sort_by_id(ps);
    let o = spec_field_order(cs);
    assert(o.len() == sp.len());
    assert forall|k: int| 0 <= k < o.len() implies #[trigger] o[k] < cs.len() && cs[o[k] as int] is Field
        && (cs[o[k] as int]->Field_0).field_id == sp[k].1 by {
        assert(sp.contains(sp[k]));
        assert(ps.contains(sp[k]));
    }
    assert forall|k1: int, k2: int| 0 <= k1 < k2 < o.len() implies (cs[#[trigger] o[k1] as int]->Field_0).field_id
        <= (cs[#[trigger] o[k2] as int]->Field_0).field_id by {
        assert(o[k1] < cs.len() && (cs[o[k1] as int]->Field_0).field_id == sp[k1].1);
        assert(o[k2] < cs.len() && (cs[o[k2] as int]->Field_0).field_id == sp[k2].1);
        assert(sp[k1].1 <= sp[k2].1);
    }
    assert forall|a: int, b: int| 0 <= a < o.len() && 0 <= b < o.len() && a != b implies o[a] != o[b] by {
        assert(o[a] < cs.len() && (cs[o[a] as int]->Field_0).field_id == sp[a].1);
        assert(o[b] < cs.len() && (cs[o[b] as int]->Field_0).field_id == sp[b].1);
        if o[a] == o[b] {
            assert(sp[a] == sp[b]);
        }
    }
    assert forall|i: int| 0 <= i < cs.len() && #[trigger] cs[i] is Field implies o.contains(i as usize) by {
        let e = (i as usize, cs[i]->Field_0.field_id);
        assert(ps.contains(e));
        assert(sp.contains(e));
        let k = choose|k: int| 0 <= k < sp.len() && sp[k] == e;
        assert(o[k] == i as usize);
    }
}


// ===========================================================================
// Where `build` puts each variant's strings
// ===========================================================================

/// `strs` stands in `data` from place `o` on.
pub open spec fn spec_placed(data: Seq<Seq<char>>, o: int, strs: Seq<Seq<char>>) -> bool {
    0 <= o && o + strs.len() <= data.len() && data.subrange(o, o + strs.len()) == strs
}

proof fn lemma_placed_prefix(data: Seq<Seq<char>>, more: Seq<Seq<char>>, o: int, strs: Seq<Seq<char>>)
    requires
        spec_placed(data, o, strs),
    ensures
        spec_placed(data + more, o, strs),
{
    assert((data + more).subrange(o, o + strs.len()) =~= data.subrange(o, o + strs.len()));
}

proof fn lemma_build_variants_places(
    vs: Seq<(Seq<(Seq<char>, Option<Seq<char>>)>, Seq<char>)>,
    data: Seq<Seq<char>>,
    offsets: Seq<usize>,
)
    requires
        spec_build_variants(vs, data, offsets).0.len() <= usize::MAX,
    ensures
        spec_build_variants(vs, data, offsets).1.len() == offsets.len() + vs.len(),
        spec_build_variants(vs, data, offsets).0.len() >= data.len() + vs.len(),
        spec_build_variants(vs, data, offsets).0 == data + spec_build_variants(vs, data, offsets).0.skip(
            data.len() as int,
        ),
        spec_build_variants(vs, data, offsets).1.subrange(0, offsets.len() as int) == offsets,
        forall|j: int|
            #![trigger vs[j]]
            0 <= j < vs.len() ==> spec_placed(
                spec_build_variants(vs, data, offsets).0,
                spec_build_variants(vs, data, offsets).1[offsets.len() + j] as int,
                spec_variant_strings(vs[j]),
            ),
    decreases vs.len(),
{
    let d2 = spec_build_variants(vs, data, offsets).0;
    let o2 = spec_build_variants(vs, data, offsets).1;
    if vs.len() == 0 {
        assert(d2 =~= data + d2.skip(data.len() as int));
        assert(o2.subrange(0, offsets.len() as int) =~= offsets);
    } else {
        let init = vs.drop_last();
        let r = spec_build_variants(init, data, offsets);
        let strs = spec_variant_strings(vs.last());
        assert(d2 == r.0 + strs);
        assert(o2 == r.1.push(r.0.len() as usize));
        lemma_build_variants_places(init, data, offsets);
        assert(strs.len() >= 1);
        assert(d2 =~= data + d2.skip(data.len() as int)) by {
            assert(r.0 =~= data + r.0.skip(data.len() as int));
        }
        assert(o2.subrange(0, offsets.len() as int) =~= r.1.subrange(0, offsets.len() as int));
        assert forall|j: int|
            #![trigger vs[j]]
            0 <= j < vs.len() implies spec_placed(
            d2,
            o2[offsets.len() + j] as int,
            spec_variant_strings(vs[j]),
        ) by {
            if j < init.len() {
                assert(vs[j] == init[j]);
                assert(o2[offsets.len() + j] == r.1[offsets.len() + j]);
                lemma_placed_prefix(r.0, strs, r.1[offsets.len() + j] as int, spec_variant_strings(init[j]));
            } else {
                assert(o2[offsets.len() + j] == r.0.len() as usize);
                assert(d2.subrange(r.0.len() as int, (r.0.len() + strs.len()) as int) =~= strs);
            }
        }
    }
}

/// In the layout `b` (strings, where each variant's strings start, where
/// each struct's variants start), every variant `v` of every struct `s` of
/// `ss` has its strings contiguously from `b.1[b.2[s] + v]` on.
#[verifier::opaque]
pub open spec fn spec_layout_placed(
    ss: Seq<Seq<(Seq<(Seq<char>, Option<Seq<char>>)>, Seq<char>)>>,
    b: (Seq<Seq<char>>, Seq<usize>, Seq<usize>),
) -> bool {
    forall|s: int, v: int|
        #![trigger ss[s][v]]
        0 <= s < ss.len() && 0 <= v < ss[s].len() ==> spec_slot_placed(b, s, v, spec_variant_strings(ss[s][v]))
}

/// Variant `v` of struct `s` has a start in the layout `b`, and its
/// strings `strs` stand in `b.0` from there on.
pub open spec fn spec_slot_placed(
    b: (Seq<Seq<char>>, Seq<usize>, Seq<usize>),
    s: int,
    v: int,
    strs: Seq<Seq<char>>,
) -> bool {
    &&& 0 <= b.2[s] + v < b.1.len()
    &&& spec_placed(b.0, b.1[b.2[s] + v] as int, strs)
}

/// In the layout `b`, the structs' variants are numbered one after the
/// other from 0.
#[verifier::opaque]
pub open spec fn spec_layout_starts(
    ss: Seq<Seq<(Seq<(Seq<char>, Option<Seq<char>>)>, Seq<char>)>>,
    b: (Seq<Seq<char>>, Seq<usize>, Seq<usize>),
) -> bool {
    &&& forall|s: int| #![trigger b.2[s]] 0 < s < ss.len() ==> b.2[s] == b.2[s - 1] + ss[s - 1].len()
    &&& ss.len() > 0 ==> b.2[0] == 0
}

/// The layout `b` of the strings of `ss`: each variant's strings in place,
/// the structs' variants numbered one after the other, one start per
/// variant and per struct.
pub open spec fn spec_layout(
    ss: Seq<Seq<(Seq<(Seq<char>, Option<Seq<char>>)>, Seq<char>)>>,
    b: (Seq<Seq<char>>, Seq<usize>, Seq<usize>),
) -> bool {
    &&& b.2.len() == ss.len()
    &&& b.1.len() <= b.0.len()
    &&& ss.len() > 0 ==> b.1.len() == b.2[ss.len() - 1] + ss[ss.len() - 1].len()
    &&& ss.len() == 0 ==> b.1.len() == 0
    &&& spec_layout_placed(ss, b)
    &&& spec_layout_starts(ss, b)
}

proof fn lemma_layout_step_placed(
    init: Seq<Seq<(Seq<(Seq<char>, Option<Seq<char>>)>, Seq<char>)>>,
    last: Seq<(Seq<(Seq<char>, Option<Seq<char>>)>, Seq<char>)>,
    r: (Seq<Seq<char>>, Seq<usize>, Seq<usize>),
)
    requires
        spec_layout(init, r),
        spec_build_variants(last, r.0, r.1).0.len() <= usize::MAX,
    ensures
        spec_layout_placed(
            init.push(last),
            (spec_build_variants(last, r.0, r.1).0, spec_build_variants(last, r.0, r.1).1, r.2.push(r.1.len() as usize)),
        ),
{
    reveal(spec_layout_placed);
    let ss = init.push(last);
    let vb = spec_build_variants(last, r.0, r.1);
    let vdoff = r.2.push(r.1.len() as usize);
    lemma_build_variants_places(last, r.0, r.1);
    assert(r.1.len() <= usize::MAX);
    assert(vdoff[init.len() as int] == r.1.len());
    let b = (vb.0, vb.1, vdoff);
    assert forall|s: int, v: int|
        #![trigger ss[s][v]]
        0 <= s < ss.len() && 0 <= v < ss[s].len() implies spec_slot_placed(b, s, v, spec_variant_strings(ss[s][v])) by {
        if s < init.len() {
            assert(ss[s] == init[s]);
            assert(vdoff[s] == r.2[s]);
            let k = r.2[s] + v;
            assert(init[s][v] == ss[s][v]);
            assert(r.2[s] + v < r.1.len() && spec_placed(r.0, r.1[r.2[s] + v] as int, spec_variant_strings(init[s][v])));
            assert(vb.1[k] == r.1[k]) by {
                assert(vb.1.subrange(0, r.1.len() as int)[k] == r.1[k]);
            }
            lemma_placed_prefix(r.0, vb.0.skip(r.0.len() as int), r.1[k] as int, spec_variant_strings(init[s][v]));
            assert(vdoff[s] + v < vb.1.len());
        } else {
            assert(ss[s] == last);
            assert(vdoff[s] == r.1.len());
            assert(last[v] == ss[s][v]);
            assert(vdoff[s] + v < vb.1.len());
        }
    }
    assert(spec_layout_placed(ss, b)) by {
        reveal(spec_layout_placed);
    }
}

proof fn lemma_layout_step_starts(
    init: Seq<Seq<(Seq<(Seq<char>, Option<Seq<char>>)>, Seq<char>)>>,
    last: Seq<(Seq<(Seq<char>, Option<Seq<char>>)>, Seq<char>)>,
    r: (Seq<Seq<char>>, Seq<usize>, Seq<usize>),
    b: (Seq<Seq<char>>, Seq<usize>, Seq<usize>),
)
    requires
        spec_layout(init, r),
        b.2 == r.2.push(r.1.len() as usize),
        r.1.len() <= usize::MAX,
    ensures
        spec_layout_starts(init.push(last), b),
{
    reveal(spec_layout_starts);
    let ss = init.push(last);
    let vdoff = b.2;
    assert forall|s: int| #![trigger vdoff[s]] 0 < s < ss.len() implies vdoff[s] == vdoff[s - 1] + ss[s
        - 1].len() by {
        assert(vdoff[s - 1] == r.2[s - 1]);
        assert(ss[s - 1] == init[s - 1]);
        if s < init.len() {
            assert(vdoff[s] == r.2[s]);
            assert(r.2[s] == r.2[s - 1] + init[s - 1].len());
        } else {
            assert(vdoff[s] == r.1.len());
        }
    }
    if init.len() > 0 {
        assert(vdoff[0] == r.2[0]);
    }
}

/// `build` lays out the strings of every variant of every struct as
/// `spec_layout` says.
pub proof fn lemma_build_places(ss: Seq<Seq<(Seq<(Seq<char>, Option<Seq<char>>)>, Seq<char>)>>)
    requires
        spec_build_structs(ss).0.len() <= usize::MAX,
    ensures
        spec_layout(ss, spec_build_structs(ss)),
    decreases ss.len(),
{
    if ss.len() > 0 {
        let init = ss.drop_last();
        let r = spec_build_structs(init);
        let b = spec_build_structs(ss);
        lemma_build_structs_prefix_len(ss, ss.len() - 1);
        assert(ss.take(ss.len() - 1) =~= init);
        lemma_build_places(init);
        assert(init.push(ss.last()) =~= ss);
        lemma_build_variants_places(ss.last(), r.0, r.1);
        lemma_layout_step_placed(init, ss.last(), r);
        lemma_layout_step_starts(init, ss.last(), r, b);
        assert(b.2.len() == ss.len());
        assert(b.1.len() == r.1.len() + ss.last().len());
    } else {
        reveal(spec_layout_placed);
        reveal(spec_layout_starts);
    }
}

} // verus!
