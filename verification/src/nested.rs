//! Nested data: the fields on a leaf's path, and the levels at which each appears.
//!
//! A column stores a flat sequence of values, but a record can hold nulls, lists, and lists of
//! structs holding lists. Parquet keeps the shape with two small integers beside every value
//! slot: the **definition level** counts how many of the optional and repeated fields on the path
//! are present, and the **repetition level** says in which repeated field a new element starts.
//! This module names each field on a leaf's path with the levels at which it appears.

use vstd::prelude::*;

use crate::logical::LogicalType;
use crate::schema::{
    def_level, leaves_among, leaves_below, lemma_levels_bounded, rep_level, schema_view, Leaf,
    LeafV, Repetition, SchemaNode, SchemaNodeV,
};
use crate::column::{triple_view, triple_views, Triple, TripleV};
use crate::plain::{copy_value, plain_view, PlainValue, PlainValueV};
use vstd::slice::slice_subrange;
use crate::text::{dec, push_u64, str_eq};

verus! {

/// One field on the path from the root to a leaf.
#[derive(Clone, Debug, PartialEq)]
pub struct PathField {
    pub name: String,
    pub repetition: Repetition,
    /// The definition level a value has when this field is present.
    pub def: u32,
    /// The repetition level that starts a new element of this field, if it is repeated; for other
    /// fields, the repetition level of the nearest repeated field above it.
    pub rep: u32,
    /// Annotated `LIST`: a group whose repeated child is the list itself.
    pub is_list: bool,
    /// How a reader of the data names this field: `items[].sku` rather than
    /// `items.list.element.sku`.
    pub label: String,
}

/// A path field as a value.
pub struct PathFieldV {
    pub name: Seq<char>,
    pub repetition: Repetition,
    pub def: u32,
    pub rep: u32,
    pub is_list: bool,
    pub label: Seq<char>,
}

pub open spec fn path_field_view(f: PathField) -> PathFieldV {
    PathFieldV {
        name: f.name@,
        repetition: f.repetition,
        def: f.def,
        rep: f.rep,
        is_list: f.is_list,
        label: f.label@,
    }
}

/// The first child from index `j` on that has a name.
pub open spec fn child_named(children: Seq<SchemaNodeV>, name: Seq<char>, j: int) -> Option<int>
    decreases children.len() - j,
{
    if j < 0 || j >= children.len() {
        None
    } else if children[j].name == name {
        Some(j)
    } else {
        child_named(children, name, j + 1)
    }
}

proof fn lemma_child_named(children: Seq<SchemaNodeV>, name: Seq<char>, j: int)
    ensures
        child_named(children, name, j) matches Some(k) ==> j <= k < children.len() && children[k].name
            == name,
    decreases children.len() - j,
{
    if 0 <= j < children.len() && children[j].name != name {
        lemma_child_named(children, name, j + 1);
    }
}

/// The label of a field, given the label of the one above it: a list's repeated group becomes
/// `[]`, the element inside it adds nothing, and any other field adds `.name`.
pub open spec fn next_label(
    label: Seq<char>,
    parent_is_list: bool,
    in_element: bool,
    child: SchemaNodeV,
) -> (Seq<char>, bool) {
    if parent_is_list && child.repetition == Repetition::Repeated {
        (label + "[]"@, true)
    } else if in_element {
        (label, false)
    } else {
        (
            if label.len() > 0 {
                label + "."@
            } else {
                label
            } + child.name,
            false,
        )
    }
}

/// The fields on a path from name `i` on, below `node`, after the fields `acc`. The walk stops at
/// a name that no child has.
pub open spec fn walk_path(
    node: SchemaNodeV,
    path: Seq<Seq<char>>,
    i: int,
    def: nat,
    rep: nat,
    label: Seq<char>,
    parent_is_list: bool,
    in_element: bool,
    acc: Seq<PathFieldV>,
) -> Seq<PathFieldV>
    decreases path.len() - i,
{
    if i < 0 || i >= path.len() {
        acc
    } else {
        match child_named(node.children, path[i], 0) {
            None => acc,
            Some(j) => {
                let child = node.children[j];
                let def2 = if child.repetition == Repetition::Required {
                    def
                } else {
                    def + 1
                };
                let rep2 = if child.repetition == Repetition::Repeated {
                    rep + 1
                } else {
                    rep
                };
                let (label2, in2) = next_label(label, parent_is_list, in_element, child);
                let is_list = child.logical_type == Some(LogicalType::List);
                walk_path(
                    child,
                    path,
                    i + 1,
                    def2,
                    rep2,
                    label2,
                    is_list,
                    in2,
                    acc.push(
                        PathFieldV {
                            name: child.name,
                            repetition: child.repetition,
                            def: def2 as u32,
                            rep: rep2 as u32,
                            is_list,
                            label: label2,
                        },
                    ),
                )
            },
        }
    }
}

/// The names of a leaf's path, as values.
pub open spec fn path_names(leaf: Leaf) -> Seq<Seq<char>> {
    leaf.path@.map_values(|s: String| s@)
}

/// The fields on a leaf's path, with their levels.
pub fn path_fields(root: &SchemaNode, leaf: &Leaf) -> (out: Vec<PathField>)
    requires
        leaf.path@.len() <= u32::MAX,
    ensures
        out@.map_values(|f: PathField| path_field_view(f)) == walk_path(
            schema_view(*root),
            path_names(*leaf),
            0,
            0,
            0,
            Seq::empty(),
            false,
            false,
            Seq::empty(),
        ),
{
    let ghost path = path_names(*leaf);
    let ghost target = walk_path(
        schema_view(*root),
        path,
        0,
        0,
        0,
        Seq::empty(),
        false,
        false,
        Seq::empty(),
    );
    let mut out: Vec<PathField> = Vec::new();
    let mut node = root;
    let mut def: u32 = 0;
    let mut rep: u32 = 0;
    let mut label = String::new();
    let mut parent_is_list = false;
    let mut in_list_element = false;
    let mut i: usize = 0;
    assert(out@.map_values(|f: PathField| path_field_view(f)) =~= Seq::<PathFieldV>::empty());
    while i < leaf.path.len()
        invariant_except_break
            walk_path(
                schema_view(*node),
                path,
                i as int,
                def as nat,
                rep as nat,
                label@,
                parent_is_list,
                in_list_element,
                out@.map_values(|f: PathField| path_field_view(f)),
            ) == target,
        invariant
            path == path_names(*leaf),
            leaf.path@.len() <= u32::MAX,
            i <= leaf.path@.len(),
            def <= i,
            rep <= i,
        ensures
            out@.map_values(|f: PathField| path_field_view(f)) == target,
        decreases leaf.path@.len() - i,
    {
        let name = &leaf.path[i];
        assert(path[i as int] == name@);
        let ghost children = schema_view(*node).children;
        let mut j: usize = 0;
        while j < node.children.len() && !str_eq(node.children[j].name.as_str(), name.as_str())
            invariant
                children == schema_view(*node).children,
                children.len() == node.children@.len(),
                j <= node.children@.len(),
                child_named(children, name@, j as int) == child_named(children, name@, 0),
            decreases node.children@.len() - j,
        {
            assert(children[j as int] == schema_view(node.children@[j as int]));
            j = j + 1;
        }
        if j == node.children.len() {
            break;
        }
        let child = &node.children[j];
        assert(children[j as int] == schema_view(*child));
        assert(child_named(children, path[i as int], 0) == Some(j as int));
        match child.repetition {
            Repetition::Required => {},
            Repetition::Optional => {
                def = def + 1;
            },
            Repetition::Repeated => {
                def = def + 1;
                rep = rep + 1;
            },
        }
        if parent_is_list && child.repetition == Repetition::Repeated {
            label.append("[]");
            in_list_element = true;
        } else if in_list_element {
            in_list_element = false;
        } else {
            if label.as_str().unicode_len() > 0 {
                label.append(".");
            }
            label.append(child.name.as_str());
        }
        let is_list = match child.logical_type {
            Some(LogicalType::List) => true,
            _ => false,
        };
        let ghost before = out@.map_values(|f: PathField| path_field_view(f));
        let f = PathField {
            name: child.name.clone(),
            repetition: child.repetition,
            def,
            rep,
            is_list,
            label: label.clone(),
        };
        let ghost fv = path_field_view(f);
        out.push(f);
        assert(out@.map_values(|f: PathField| path_field_view(f)) =~= before.push(fv));
        parent_is_list = is_list;
        node = child;
        i = i + 1;
    }
    out
}


/// No two children of a node share a name.
pub open spec fn names_unique(kids: Seq<SchemaNodeV>) -> bool {
    forall|i: int, j: int| 0 <= i < j < kids.len() ==> kids[i].name != kids[j].name
}

/// No two siblings share a name anywhere in the tree.
pub open spec fn siblings_unique(t: SchemaNodeV) -> bool
    decreases t, 1int,
{
    names_unique(t.children) && all_siblings_unique(t.children)
}

/// No two siblings share a name below any of `kids`.
pub open spec fn all_siblings_unique(kids: Seq<SchemaNodeV>) -> bool
    decreases kids, 0int,
{
    if kids.len() == 0 {
        true
    } else {
        all_siblings_unique(kids.drop_last()) && siblings_unique(kids.last())
    }
}

proof fn lemma_unique_kid(kids: Seq<SchemaNodeV>, q: int)
    requires
        all_siblings_unique(kids),
        0 <= q < kids.len(),
    ensures
        siblings_unique(kids[q]),
    decreases kids.len(),
{
    if q < kids.len() - 1 {
        lemma_unique_kid(kids.drop_last(), q);
    }
}

/// Field `k` of a walk over a leaf's path names the `k`-th field of the path, with its
/// repetition, and the levels of the path down to it.
pub open spec fn field_fits(f: PathFieldV, v: LeafV, k: int) -> bool {
    &&& f.name == v.path[k]
    &&& f.repetition == v.repetitions[k]
    &&& f.def == def_level(v.repetitions.take(k + 1))
    &&& f.rep == rep_level(v.repetitions.take(k + 1))
}

proof fn lemma_unique_named(kids: Seq<SchemaNodeV>, q: int, j: int)
    requires
        names_unique(kids),
        0 <= j <= q < kids.len(),
    ensures
        child_named(kids, kids[q].name, j) == Some(q),
    decreases q - j,
{
    if j < q {
        assert(kids[j].name != kids[q].name);
        lemma_unique_named(kids, q, j + 1);
    }
}

proof fn lemma_level_push(reps: Seq<Repetition>, x: Repetition)
    ensures
        def_level(reps.push(x)) == def_level(reps) + if x == Repetition::Required {
            0nat
        } else {
            1nat
        },
        rep_level(reps.push(x)) == rep_level(reps) + if x == Repetition::Repeated {
            1nat
        } else {
            0nat
        },
{
    assert(reps.push(x).drop_last() =~= reps);
}

/// What walking a leaf's path below `t` gives, from the leaf's own place among the leaves.
proof fn lemma_walk_below(
    t: SchemaNodeV,
    names: Seq<Seq<char>>,
    reps: Seq<Repetition>,
    j: int,
    label: Seq<char>,
    pl: bool,
    ie: bool,
    acc: Seq<PathFieldV>,
)
    requires
        siblings_unique(t),
        names.len() == reps.len(),
        0 <= j < leaves_below(t, names, reps).len(),
        leaves_below(t, names, reps)[j].path.len() <= u32::MAX,
    ensures
        ({
            let v = leaves_below(t, names, reps)[j];
            let i = names.len() as int;
            let w = walk_path(t, v.path, i, def_level(reps), rep_level(reps), label, pl, ie, acc);
            &&& v.path.len() == v.repetitions.len()
            &&& i < v.path.len()
            &&& v.path.take(i) == names
            &&& v.repetitions.take(i) == reps
            &&& w.len() == acc.len() + v.path.len() - i
            &&& w.take(acc.len() as int) == acc
            &&& forall|k: int| i <= k < v.path.len() ==> #[trigger] field_fits(w[acc.len() + k - i], v, k)
        }),
    decreases t, t.children.len() + 1,
{
    assert(t.children.take(t.children.len() as int) =~= t.children);
    lemma_walk_among(t, t.children.len() as int, names, reps, j, label, pl, ie, acc);
}

proof fn lemma_walk_among(
    t: SchemaNodeV,
    n: int,
    names: Seq<Seq<char>>,
    reps: Seq<Repetition>,
    j: int,
    label: Seq<char>,
    pl: bool,
    ie: bool,
    acc: Seq<PathFieldV>,
)
    requires
        siblings_unique(t),
        0 <= n <= t.children.len(),
        names.len() == reps.len(),
        0 <= j < leaves_among(t.children.take(n), names, reps).len(),
        leaves_among(t.children.take(n), names, reps)[j].path.len() <= u32::MAX,
    ensures
        ({
            let v = leaves_among(t.children.take(n), names, reps)[j];
            let i = names.len() as int;
            let w = walk_path(t, v.path, i, def_level(reps), rep_level(reps), label, pl, ie, acc);
            &&& v.path.len() == v.repetitions.len()
            &&& i < v.path.len()
            &&& v.path.take(i) == names
            &&& v.repetitions.take(i) == reps
            &&& w.len() == acc.len() + v.path.len() - i
            &&& w.take(acc.len() as int) == acc
            &&& forall|k: int| i <= k < v.path.len() ==> #[trigger] field_fits(w[acc.len() + k - i], v, k)
        }),
    decreases t, n,
{
    let kids = t.children.take(n);
    assert(n > 0);
    let first = leaves_among(kids.drop_last(), names, reps);
    assert(kids.drop_last() =~= t.children.take(n - 1));
    if j < first.len() {
        lemma_walk_among(t, n - 1, names, reps, j, label, pl, ie, acc);
    } else {
        let q = n - 1;
        let c = t.children[q];
        assert(kids.last() == c);
        let n2 = names.push(c.name);
        let r2 = reps.push(c.repetition);
        let i = names.len() as int;
        lemma_unique_named(t.children, q, 0);
        lemma_level_push(reps, c.repetition);
        lemma_unique_kid(t.children, q);
        let v = leaves_among(kids, names, reps)[j];
        let def2 = def_level(r2);
        let rep2 = rep_level(r2);
        let (label2, in2) = next_label(label, pl, ie, c);
        let is_list = c.logical_type == Some(LogicalType::List);
        let entry = PathFieldV {
            name: c.name,
            repetition: c.repetition,
            def: def2 as u32,
            rep: rep2 as u32,
            is_list,
            label: label2,
        };
        if c.children.len() == 0 {
            assert(v.path == n2);
            assert(v.repetitions == r2);
            lemma_levels_bounded(r2);
            assert(r2.take(i + 1) =~= r2);
            assert(n2.take(i) =~= names);
            assert(r2.take(i) =~= reps);
            let w = walk_path(t, v.path, i, def_level(reps), rep_level(reps), label, pl, ie, acc);
            assert(w == walk_path(c, v.path, i + 1, def2, rep2, label2, is_list, in2, acc.push(entry)));
            assert(w == acc.push(entry));
            assert(w.take(acc.len() as int) =~= acc);
            assert(field_fits(w[acc.len() as int], v, i));
        } else {
            let j2 = j - first.len();
            assert(v == leaves_below(c, n2, r2)[j2]);
            lemma_walk_below(c, n2, r2, j2, label2, is_list, in2, acc.push(entry));
            let w2 = walk_path(c, v.path, i + 1, def2, rep2, label2, is_list, in2, acc.push(entry));
            assert(v.path.take(i + 1)[i] == c.name);
            assert(v.path[i] == c.name);
            assert(v.repetitions[i] == c.repetition);
            lemma_levels_bounded(v.repetitions.take(i + 1));
            assert(v.repetitions.take(i + 1) =~= r2);
            assert(v.path.take(i) =~= n2.take(i));
            assert(n2.take(i) =~= names);
            assert(v.repetitions.take(i) =~= r2.take(i));
            assert(r2.take(i) =~= reps);
            let w = walk_path(t, v.path, i, def_level(reps), rep_level(reps), label, pl, ie, acc);
            assert(w == w2);
            assert(w2.take(acc.len() + 1int) == acc.push(entry));
            assert(w.take(acc.len() as int) =~= acc) by {
                assert(w.take(acc.len() as int) =~= w2.take(acc.len() + 1int).take(acc.len() as int));
            }
            assert(w[acc.len() as int] == w2.take(acc.len() + 1int)[acc.len() as int]);
            assert forall|k: int| i <= k < v.path.len() implies #[trigger] field_fits(
                w[acc.len() + k - i],
                v,
                k,
            ) by {
                if k > i {
                    assert(field_fits(w2[acc.len() + 1 + k - (i + 1)], v, k));
                }
            }
        }
    }
}

/// The fields on a leaf's path, for a schema whose sibling names are unique, are one per name
/// on the path: each has that name and repetition, and the levels of the path down to it, so
/// the last has the leaf's maximum definition and repetition levels.
pub proof fn lemma_path_fields_levels(root: SchemaNodeV, j: int)
    requires
        siblings_unique(root),
        0 <= j < leaves_below(root, Seq::empty(), Seq::empty()).len(),
        leaves_below(root, Seq::empty(), Seq::empty())[j].path.len() <= u32::MAX,
    ensures
        ({
            let v = leaves_below(root, Seq::empty(), Seq::empty())[j];
            let w = walk_path(root, v.path, 0, 0, 0, Seq::empty(), false, false, Seq::empty());
            &&& w.len() == v.path.len()
            &&& forall|k: int| 0 <= k < v.path.len() ==> #[trigger] field_fits(w[k], v, k)
            &&& w.last().def == def_level(v.repetitions)
            &&& w.last().rep == rep_level(v.repetitions)
        }),
{
    let v = leaves_below(root, Seq::empty(), Seq::empty())[j];
    lemma_walk_below(root, Seq::empty(), Seq::empty(), j, Seq::empty(), false, false, Seq::empty());
    let w = walk_path(root, v.path, 0, 0, 0, Seq::empty(), false, false, Seq::empty());
    assert(def_level(Seq::<Repetition>::empty()) == 0);
    assert(rep_level(Seq::<Repetition>::empty()) == 0);
    assert forall|k: int| 0 <= k < v.path.len() implies #[trigger] field_fits(w[k], v, k) by {
        assert(field_fits(w[0 + k - 0], v, k));
    }
    let last = v.path.len() - 1;
    assert(field_fits(w[last], v, last));
    assert(v.repetitions.take(last + 1) =~= v.repetitions);
}


/// The first repeated field from index `j` on whose repetition level is `rep`.
pub open spec fn repeated_at(fs: Seq<PathFieldV>, rep: u32, j: int) -> Option<int>
    decreases fs.len() - j,
{
    if j < 0 || j >= fs.len() {
        None
    } else if fs[j].repetition == Repetition::Repeated && fs[j].rep == rep {
        Some(j)
    } else {
        repeated_at(fs, rep, j + 1)
    }
}

/// The first field from index `j` on whose presence raises the definition level past `def`.
pub open spec fn deeper_than(fs: Seq<PathFieldV>, def: u32, j: int) -> Option<int>
    decreases fs.len() - j,
{
    if j < 0 || j >= fs.len() {
        None
    } else if fs[j].def > def {
        Some(j)
    } else {
        deeper_than(fs, def, j + 1)
    }
}

/// The name of the list the repeated field `i` makes: the `LIST` group above it when there is
/// one.
pub open spec fn list_name(fs: Seq<PathFieldV>, i: int) -> Seq<char> {
    if i > 0 && fs[i - 1].is_list {
        fs[i - 1].label
    } else {
        fs[i].label
    }
}

/// What a triple's levels say, in words: where the value starts, and how much of its path is
/// there.
pub open spec fn explain_text(fs: Seq<PathFieldV>, rep: u32, def: u32) -> Seq<char> {
    let max_def = if fs.len() == 0 {
        0
    } else {
        fs.last().def
    };
    let starts = if rep == 0 {
        "starts a new record"@
    } else {
        match repeated_at(fs, rep, 0) {
            Some(i) => "adds an element to `"@ + list_name(fs, i) + "`"@,
            None => "repetition level "@ + dec(rep as nat) + " matches no repeated field"@,
        }
    };
    let defined = if def >= max_def {
        "the value is present"@
    } else {
        match deeper_than(fs, def, 0) {
            Some(i) => if fs[i].repetition == Repetition::Repeated {
                "`"@ + list_name(fs, i) + "` is an empty list"@
            } else if i > 0 && fs[i - 1].repetition == Repetition::Repeated {
                "an element of `"@ + list_name(fs, i - 1) + "` is null"@
            } else {
                "`"@ + fs[i].label + "` is null"@
            },
            None => "definition level "@ + dec(def as nat) + " is above the maximum"@,
        }
    };
    starts + "; "@ + defined
}

pub open spec fn path_views(fields: Seq<PathField>) -> Seq<PathFieldV> {
    fields.map_values(|f: PathField| path_field_view(f))
}

/// The label of the list the repeated field `i` makes.
fn list_label(fields: &[PathField], i: usize) -> (s: String)
    requires
        i < fields@.len(),
    ensures
        s@ == list_name(path_views(fields@), i as int),
{
    if i > 0 && fields[i - 1].is_list {
        fields[i - 1].label.clone()
    } else {
        fields[i].label.clone()
    }
}

/// What a triple says, in words.
#[verifier::rlimit(40)]
pub fn explain(fields: &[PathField], t: &Triple) -> (s: String)
    ensures
        s@ == explain_text(path_views(fields@), t.rep, t.def),
{
    let ghost fs = path_views(fields@);
    let max_def = if fields.len() == 0 {
        0
    } else {
        fields[fields.len() - 1].def
    };
    let mut s = String::new();
    if t.rep == 0 {
        s.append("starts a new record");
    } else {
        let mut j: usize = 0;
        while j < fields.len() && !(fields[j].repetition == Repetition::Repeated && fields[j].rep
            == t.rep)
            invariant
                j <= fields@.len(),
                fs == path_views(fields@),
                repeated_at(fs, t.rep, j as int) == repeated_at(fs, t.rep, 0),
            decreases fields@.len() - j,
        {
            j = j + 1;
        }
        if j < fields.len() {
            s.append("adds an element to `");
            let name = list_label(fields, j);
            s.append(name.as_str());
            s.append("`");
        } else {
            s.append("repetition level ");
            push_u64(&mut s, t.rep as u64);
            s.append(" matches no repeated field");
        }
    }
    s.append("; ");
    if t.def >= max_def {
        s.append("the value is present");
    } else {
        let mut i: usize = 0;
        while i < fields.len() && fields[i].def <= t.def
            invariant
                i <= fields@.len(),
                fs == path_views(fields@),
                deeper_than(fs, t.def, i as int) == deeper_than(fs, t.def, 0),
            decreases fields@.len() - i,
        {
            i = i + 1;
        }
        if i < fields.len() {
            if fields[i].repetition == Repetition::Repeated {
                s.append("`");
                let name = list_label(fields, i);
                s.append(name.as_str());
                s.append("` is an empty list");
            } else if i > 0 && fields[i - 1].repetition == Repetition::Repeated {
                s.append("an element of `");
                let name = list_label(fields, i - 1);
                s.append(name.as_str());
                s.append("` is null");
            } else {
                s.append("`");
                s.append(fields[i].label.as_str());
                s.append("` is null");
            }
        } else {
            s.append("definition level ");
            push_u64(&mut s, t.def as u64);
            s.append(" is above the maximum");
        }
    }
    assert(s@ =~= explain_text(fs, t.rep, t.def));
    s
}

/// A record, or a part of one, rebuilt from a column's levels: null, a value, a list, or a
/// struct that holds one field of the path.
#[derive(Debug, PartialEq)]
pub enum Record {
    Null,
    Value(PlainValue),
    List(Vec<Record>),
    Field(String, Box<Record>),
}

/// A record as a mathematical value.
pub enum RecordV {
    Null,
    Value(PlainValueV),
    List(Seq<RecordV>),
    Field(Seq<char>, Box<RecordV>),
}

pub open spec fn record_view(r: Record) -> RecordV
    decreases r,
{
    match r {
        Record::Null => RecordV::Null,
        Record::Value(v) => RecordV::Value(plain_view(v)),
        Record::List(l) => RecordV::List(records_view(l@)),
        Record::Field(n, b) => RecordV::Field(n@, Box::new(record_view(*b))),
    }
}

pub open spec fn records_view(s: Seq<Record>) -> Seq<RecordV>
    decreases s,
{
    if s.len() == 0 {
        Seq::empty()
    } else {
        records_view(s.subrange(0, s.len() - 1)).push(record_view(s[s.len() - 1]))
    }
}

/// Where the group of slots that contains slot `j - 1` ends: at the first slot from `j` on whose
/// repetition level is `bound` or less, which starts a new element at that level, or at the end.
pub open spec fn group_end(ts: Seq<TripleV>, bound: u32, j: int) -> int
    decreases ts.len() - j,
{
    if j >= ts.len() {
        ts.len() as int
    } else if ts[j].rep <= bound {
        j
    } else {
        group_end(ts, bound, j + 1)
    }
}

/// A group that starts before `j` ends at `j` or later, and at the end of the slots at the
/// latest.
pub proof fn lemma_group_end_at_least(ts: Seq<TripleV>, bound: u32, j: int)
    ensures
        group_end(ts, bound, j) >= j || group_end(ts, bound, j) == ts.len(),
        group_end(ts, bound, j) <= ts.len() || j > ts.len(),
        j <= ts.len() ==> j <= group_end(ts, bound, j) <= ts.len(),
        0 <= j && group_end(ts, bound, j) < ts.len() ==> ts[group_end(ts, bound, j)].rep <= bound,
    decreases ts.len() - j,
{
    if j < ts.len() && ts[j].rep > bound {
        lemma_group_end_at_least(ts, bound, j + 1);
    }
}

/// The slots from `start` on, cut before every slot whose repetition level is `bound` or less.
pub open spec fn groups(ts: Seq<TripleV>, bound: u32, start: int) -> Seq<Seq<TripleV>>
    decreases ts.len() - start,
{
    if start < 0 || start >= ts.len() {
        Seq::empty()
    } else {
        let e = group_end(ts, bound, start + 1);
        proof {
            lemma_group_end_at_least(ts, bound, start + 1);
        }
        seq![ts.subrange(start, e)] + groups(ts, bound, e)
    }
}

/// The value of field `i` of the path, given the slots of one instance of its parent: a list
/// for a repeated field, null where the field is not defined, and otherwise its one element. An
/// annotated `LIST` group is shown as its list.
pub open spec fn field_record(fs: Seq<PathFieldV>, ts: Seq<TripleV>, i: int) -> RecordV
    decreases fs.len() - i, 2int, 0int,
{
    if i < 0 || i >= fs.len() || ts.len() == 0 {
        RecordV::Null
    } else if fs[i].repetition == Repetition::Repeated {
        if ts[0].def < fs[i].def {
            RecordV::List(Seq::empty())
        } else {
            RecordV::List(element_records(fs, i, groups(ts, fs[i].rep, 0)))
        }
    } else if ts[0].def < fs[i].def {
        RecordV::Null
    } else if fs[i].is_list && i + 1 < fs.len() {
        field_record(fs, ts, i + 1)
    } else {
        element_record(fs, ts, i)
    }
}

/// The elements of a repeated field `i`, one for each group of slots.
pub open spec fn element_records(fs: Seq<PathFieldV>, i: int, gs: Seq<Seq<TripleV>>) -> Seq<
    RecordV,
>
    decreases fs.len() - i, 1int, gs.len(),
{
    if gs.len() == 0 {
        Seq::empty()
    } else {
        element_records(fs, i, gs.drop_last()).push(element_record(fs, gs.last(), i))
    }
}

/// One present instance of field `i`: the leaf's value, or a struct holding the next field. The
/// repeated group directly under a `LIST` is its element, shown directly.
pub open spec fn element_record(fs: Seq<PathFieldV>, ts: Seq<TripleV>, i: int) -> RecordV
    decreases fs.len() - i, 0int, 0int,
{
    if i < 0 || i >= fs.len() || ts.len() == 0 {
        RecordV::Null
    } else if i + 1 == fs.len() {
        match ts[0].value {
            Some(v) => RecordV::Value(v),
            None => RecordV::Null,
        }
    } else if i > 0 && fs[i - 1].is_list && fs[i].repetition == Repetition::Repeated {
        field_record(fs, ts, i + 1)
    } else {
        RecordV::Field(fs[i + 1].name, Box::new(field_record(fs, ts, i + 1)))
    }
}

/// The records of a column: the slots cut where the repetition level is 0, each group a struct
/// holding the path's first field.
pub open spec fn assembled(fs: Seq<PathFieldV>, ts: Seq<TripleV>) -> Seq<RecordV> {
    records_of(fs, groups(ts, 0, 0))
}

pub open spec fn records_of(fs: Seq<PathFieldV>, gs: Seq<Seq<TripleV>>) -> Seq<RecordV> {
    gs.map_values(|g: Seq<TripleV>| RecordV::Field(fs[0].name, Box::new(field_record(fs, g, 0))))
}

proof fn lemma_records_push(s: Seq<Record>, r: Record)
    ensures
        records_view(s.push(r)) == records_view(s).push(record_view(r)),
{
    assert(s.push(r).subrange(0, s.len() as int) =~= s);
}

proof fn lemma_views_subrange(ts: Seq<Triple>, a: int, b: int)
    requires
        0 <= a <= b <= ts.len(),
    ensures
        triple_views(ts.subrange(a, b)) == triple_views(ts).subrange(a, b),
{
    assert(triple_views(ts.subrange(a, b)) =~= triple_views(ts).subrange(a, b));
}

/// One step of cutting slots into groups: where slot `j` starts a new group or the slots end,
/// the group from `start` ends there.
proof fn lemma_group_step(ts: Seq<TripleV>, bound: u32, start: int, j: int)
    requires
        0 <= start < j <= ts.len(),
        group_end(ts, bound, start + 1) == group_end(ts, bound, j),
    ensures
        (j == ts.len() || ts[j].rep <= bound) ==> groups(ts, bound, start) == seq![
            ts.subrange(start, j),
        ] + groups(ts, bound, j),
        !(j == ts.len() || ts[j].rep <= bound) ==> group_end(ts, bound, start + 1) == group_end(
            ts,
            bound,
            j + 1,
        ),
{
}

/// The value of field `i`, given the slots of one instance of its parent.
fn field_value(fields: &[PathField], i: usize, ts: &[Triple]) -> (r: Record)
    requires
        i < fields@.len(),
        ts@.len() > 0,
    ensures
        record_view(r) == field_record(path_views(fields@), triple_views(ts@), i as int),
    decreases fields@.len() - i, 2int,
{
    let ghost fs = path_views(fields@);
    let ghost tv = triple_views(ts@);
    let f = &fields[i];
    assert(fs[i as int] == path_field_view(*f));
    assert(tv[0] == triple_view(ts@[0]));
    if f.repetition == Repetition::Repeated {
        if ts[0].def < f.def {
            proof {
                assert(records_view(Seq::<Record>::empty()) =~= Seq::<RecordV>::empty());
            }
            return Record::List(Vec::new());
        }
        let bound = f.rep;
        let mut elements: Vec<Record> = Vec::new();
        let mut start: usize = 0;
        let mut j: usize = 1;
        let ghost mut done: Seq<Seq<TripleV>> = Seq::empty();
        assert(done + groups(tv, bound, 0) =~= groups(tv, bound, 0));
        while j < ts.len()
            invariant
                fs == path_views(fields@),
                tv == triple_views(ts@),
                tv.len() == ts@.len(),
                i < fields@.len(),
                bound == fs[i as int].rep,
                start < j <= ts@.len(),
                group_end(tv, bound, start + 1) == group_end(tv, bound, j as int),
                done + groups(tv, bound, start as int) == groups(tv, bound, 0),
                records_view(elements@) == element_records(fs, i as int, done),
            decreases ts@.len() - j,
        {
            proof {
                lemma_group_step(tv, bound, start as int, j as int);
            }
            if ts[j].rep <= bound {
                let e = element_value(fields, i, slice_subrange(ts, start, j));
                proof {
                    lemma_views_subrange(ts@, start as int, j as int);
                    lemma_records_push(elements@, e);
                    let g = tv.subrange(start as int, j as int);
                    assert(done.push(g).drop_last() =~= done);
                    assert(done.push(g) + groups(tv, bound, j as int) =~= done + (seq![g] + groups(
                        tv,
                        bound,
                        j as int,
                    )));
                    done = done.push(g);
                }
                elements.push(e);
                start = j;
            }
            j = j + 1;
        }
        let len: usize = ts.len();
        let e = element_value(fields, i, slice_subrange(ts, start, len));
        proof {
            lemma_group_step(tv, bound, start as int, len as int);
            lemma_views_subrange(ts@, start as int, len as int);
            lemma_records_push(elements@, e);
            let g = tv.subrange(start as int, len as int);
            assert(done.push(g).drop_last() =~= done);
            assert(groups(tv, bound, len as int) =~= Seq::<Seq<TripleV>>::empty());
            assert(done.push(g) =~= done + (seq![g] + groups(tv, bound, len as int)));
            done = done.push(g);
        }
        elements.push(e);
        assert(field_record(fs, tv, i as int) == RecordV::List(
            element_records(fs, i as int, groups(tv, bound, 0)),
        ));
        return Record::List(elements);
    }
    if ts[0].def < f.def {
        return Record::Null;
    }
    if f.is_list && i + 1 < fields.len() {
        return field_value(fields, i + 1, ts);
    }
    element_value(fields, i, ts)
}

/// One present instance of field `i`: the leaf's value, or a struct holding the next field.
fn element_value(fields: &[PathField], i: usize, ts: &[Triple]) -> (r: Record)
    requires
        i < fields@.len(),
        ts@.len() > 0,
    ensures
        record_view(r) == element_record(path_views(fields@), triple_views(ts@), i as int),
    decreases fields@.len() - i, 0int,
{
    let ghost fs = path_views(fields@);
    let ghost tv = triple_views(ts@);
    assert(tv[0] == triple_view(ts@[0]));
    assert(fs[i as int] == path_field_view(fields@[i as int]));
    let n: usize = fields.len();
    if i + 1 == n {
        return match &ts[0].value {
            Some(v) => Record::Value(copy_value(v)),
            None => Record::Null,
        };
    }
    assert(fs[i + 1] == path_field_view(fields@[i + 1]));
    if i > 0 {
        assert(fs[i - 1] == path_field_view(fields@[i - 1]));
    }
    if i > 0 && fields[i - 1].is_list && fields[i].repetition == Repetition::Repeated {
        return field_value(fields, i + 1, ts);
    }
    let inner = field_value(fields, i + 1, ts);
    Record::Field(fields[i + 1].name.clone(), Box::new(inner))
}

/// How many slots from `j` on have repetition level 0.
pub open spec fn zero_reps_from(ts: Seq<TripleV>, j: int) -> nat
    decreases ts.len() - j,
{
    if j < 0 || j >= ts.len() {
        0
    } else {
        zero_reps_from(ts, j + 1) + if ts[j].rep == 0 {
            1nat
        } else {
            0nat
        }
    }
}

/// How many rows the slots hold: a row starts at the first slot, and at every later slot whose
/// repetition level is 0.
pub open spec fn rows_started(ts: Seq<TripleV>) -> nat {
    if ts.len() == 0 {
        0
    } else {
        1 + zero_reps_from(ts, 1)
    }
}

proof fn lemma_zero_reps_to_group_end(ts: Seq<TripleV>, j: int)
    requires
        0 <= j <= ts.len(),
    ensures
        zero_reps_from(ts, j) == zero_reps_from(ts, group_end(ts, 0, j)),
    decreases ts.len() - j,
{
    if j < ts.len() && ts[j].rep > 0 {
        lemma_zero_reps_to_group_end(ts, j + 1);
    }
}

proof fn lemma_groups_count(ts: Seq<TripleV>, start: int)
    requires
        0 <= start < ts.len(),
    ensures
        groups(ts, 0, start).len() == 1 + zero_reps_from(ts, start + 1),
    decreases ts.len() - start,
{
    let e = group_end(ts, 0, start + 1);
    lemma_group_end_at_least(ts, 0, start + 1);
    lemma_zero_reps_to_group_end(ts, start + 1);
    assert(groups(ts, 0, start) == seq![ts.subrange(start, e)] + groups(ts, 0, e));
    if e < ts.len() {
        lemma_groups_count(ts, e);
        assert(ts[e].rep == 0);
        assert(zero_reps_from(ts, e) == zero_reps_from(ts, e + 1) + 1);
    } else {
        assert(groups(ts, 0, e) =~= Seq::<Seq<TripleV>>::empty());
    }
}

/// One record for every row: assembling a column's slots gives as many records as there are
/// slots that start a row.
pub proof fn lemma_one_record_per_row(fs: Seq<PathFieldV>, ts: Seq<TripleV>)
    ensures
        assembled(fs, ts).len() == rows_started(ts),
{
    if ts.len() > 0 {
        lemma_groups_count(ts, 0);
    }
}

/// One record: a struct holding the path's first field, built from the record's slots.
fn record_at(fields: &[PathField], ts: &[Triple]) -> (r: Record)
    requires
        fields@.len() > 0,
        ts@.len() > 0,
    ensures
        record_view(r) == RecordV::Field(
            path_views(fields@)[0].name,
            Box::new(field_record(path_views(fields@), triple_views(ts@), 0)),
        ),
{
    let value = field_value(fields, 0, ts);
    assert(path_views(fields@)[0] == path_field_view(fields@[0]));
    Record::Field(fields[0].name.clone(), Box::new(value))
}

/// Rebuild the records of a column from its slots: a new record starts at every slot whose
/// repetition level is 0, and each is a struct holding the path's first field.
///
/// Values are kept as decoded; showing them by their logical type is the caller's.
pub fn assemble(fields: &[PathField], triples: &[Triple]) -> (records: Vec<Record>)
    requires
        triples@.len() > 0 ==> fields@.len() > 0,
    ensures
        records_view(records@) == assembled(path_views(fields@), triple_views(triples@)),
{
    let ghost fs = path_views(fields@);
    let ghost tv = triple_views(triples@);
    let mut records: Vec<Record> = Vec::new();
    let mut start: usize = 0;
    let mut j: usize = 1;
    let ghost mut done: Seq<Seq<TripleV>> = Seq::empty();
    assert(done + groups(tv, 0, 0) =~= groups(tv, 0, 0));
    assert(records_view(records@) =~= records_of(fs, done));
    if triples.len() == 0 {
        assert(groups(tv, 0, 0) =~= Seq::<Seq<TripleV>>::empty());
        return records;
    }
    while j < triples.len()
        invariant
            fs == path_views(fields@),
            tv == triple_views(triples@),
            tv.len() == triples@.len(),
            fields@.len() > 0,
            start < j <= triples@.len(),
            group_end(tv, 0, start + 1) == group_end(tv, 0, j as int),
            done + groups(tv, 0, start as int) == groups(tv, 0, 0),
            records_view(records@) == records_of(fs, done),
        decreases triples@.len() - j,
    {
        proof {
            lemma_group_step(tv, 0, start as int, j as int);
        }
        if triples[j].rep == 0 {
            let r = record_at(fields, slice_subrange(triples, start, j));
            proof {
                lemma_views_subrange(triples@, start as int, j as int);
                lemma_records_push(records@, r);
                let g = tv.subrange(start as int, j as int);
                assert(records_of(fs, done.push(g)) =~= records_of(fs, done).push(record_view(r)));
                assert(done.push(g) + groups(tv, 0, j as int) =~= done + (seq![g] + groups(
                    tv,
                    0,
                    j as int,
                )));
                done = done.push(g);
            }
            records.push(r);
            start = j;
        }
        j = j + 1;
    }
    let len: usize = triples.len();
    let r = record_at(fields, slice_subrange(triples, start, len));
    proof {
        lemma_group_step(tv, 0, start as int, len as int);
        lemma_views_subrange(triples@, start as int, len as int);
        lemma_records_push(records@, r);
        let g = tv.subrange(start as int, len as int);
        assert(records_of(fs, done.push(g)) =~= records_of(fs, done).push(record_view(r)));
        assert(groups(tv, 0, len as int) =~= Seq::<Seq<TripleV>>::empty());
        assert(done.push(g) =~= done + (seq![g] + groups(tv, 0, len as int)));
        done = done.push(g);
    }
    records.push(r);
    records
}

} // verus!
