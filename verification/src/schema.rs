//! The schema: a tree, stored as a flat list.
//!
//! The footer's `schema` field is a list of `SchemaElement`s in depth-first order. The first is
//! the root, which names the whole record. A group element says how many children it has, and
//! they follow it immediately, each with its own subtree. A leaf has no children and a physical
//! type, and holds data: every leaf is one column.
//!
//! ```text
//! flat:   schema(3)  order_id  shipping(2)  city  postcode
//!
//! tree:   schema
//!         ├── order_id
//!         └── shipping
//!             ├── city
//!             └── postcode
//! ```

use vstd::prelude::*;

use crate::bytes::Span;
use crate::logical::{logical_text, LogicalType};
use crate::metadata::{dotted, opt_text, strings_view, PhysicalType, SchemaElement};
use crate::text::{debug_quoted, debug_text, dec, push_i64, push_u64, signed_dec, str_eq};

verus! {

/// How many values a field has in each record.
#[derive(Clone, Copy, Debug, PartialEq, Eq, Structural)]
pub enum Repetition {
    /// Exactly one. Never null.
    Required,
    /// Zero or one: the field may be null.
    Optional,
    /// Zero or more: the field is a list.
    Repeated,
}

/// The repetition a schema element's `repetition_type` names; a missing or unknown one is
/// required.
pub open spec fn repetition_named(name: Option<Seq<char>>) -> Repetition {
    match name {
        Some(s) => if s == "OPTIONAL"@ {
            Repetition::Optional
        } else if s == "REPEATED"@ {
            Repetition::Repeated
        } else {
            Repetition::Required
        },
        None => Repetition::Required,
    }
}

pub open spec fn repetition_word(r: Repetition) -> Seq<char> {
    match r {
        Repetition::Required => "required"@,
        Repetition::Optional => "optional"@,
        Repetition::Repeated => "repeated"@,
    }
}

impl Repetition {
    fn from_name(name: &Option<String>) -> (r: Repetition)
        ensures
            r == repetition_named(opt_text(*name)),
    {
        match name {
            Some(s) => if str_eq(s.as_str(), "OPTIONAL") {
                Repetition::Optional
            } else if str_eq(s.as_str(), "REPEATED") {
                Repetition::Repeated
            } else {
                Repetition::Required
            },
            None => Repetition::Required,
        }
    }

    pub fn word(&self) -> (w: &'static str)
        ensures
            w@ == repetition_word(*self),
    {
        match self {
            Repetition::Required => "required",
            Repetition::Optional => "optional",
            Repetition::Repeated => "repeated",
        }
    }
}

/// A node of the rebuilt tree.
#[derive(Debug, PartialEq)]
pub struct SchemaNode {
    /// Position in the footer's flat list.
    pub element: usize,
    pub name: String,
    pub repetition: Repetition,
    pub physical_type: Option<PhysicalType>,
    pub type_length: Option<i64>,
    pub logical_type: Option<LogicalType>,
    pub converted_type: Option<String>,
    pub field_id: Option<i64>,
    pub span: Span,
    pub children: Vec<SchemaNode>,
}

/// A node of the tree as a mathematical value.
#[verifier::ext_equal]
pub struct SchemaNodeV {
    pub element: nat,
    pub name: Seq<char>,
    pub repetition: Repetition,
    pub physical_type: Option<PhysicalType>,
    pub type_length: Option<i64>,
    pub logical_type: Option<LogicalType>,
    pub converted_type: Option<Seq<char>>,
    pub field_id: Option<i64>,
    pub span: Span,
    pub children: Seq<SchemaNodeV>,
}

pub open spec fn schema_view(n: SchemaNode) -> SchemaNodeV
    decreases n,
{
    SchemaNodeV {
        element: n.element as nat,
        name: n.name@,
        repetition: n.repetition,
        physical_type: n.physical_type,
        type_length: n.type_length,
        logical_type: n.logical_type,
        converted_type: opt_text(n.converted_type),
        field_id: n.field_id,
        span: n.span,
        children: schema_views(n.children@),
    }
}

pub open spec fn schema_views(s: Seq<SchemaNode>) -> Seq<SchemaNodeV>
    decreases s,
{
    Seq::new(
        s.len(),
        |i: int|
            if 0 <= i < s.len() {
                schema_view(s[i])
            } else {
                element_node(Seq::empty(), 0, Seq::empty())
            },
    )
}

impl SchemaNode {
    pub fn is_leaf(&self) -> (b: bool)
        ensures
            b == (self.children@.len() == 0 && self.physical_type is Some),
    {
        self.children.len() == 0 && self.physical_type.is_some()
    }
}

#[derive(Clone, Debug, PartialEq, Eq)]
pub enum SchemaError {
    Empty,
    /// A group claims more children than there are elements left.
    TooFewElements { group: String, element: usize },
    /// Elements are left over after the root's subtree ends.
    TrailingElements { from: usize },
    /// A childless element with no physical type: neither a leaf nor a group.
    NotALeaf { name: String, element: usize },
}

/// A schema error as a mathematical value, names as their characters.
pub enum SchemaErrorV {
    Empty,
    TooFewElements { group: Seq<char>, element: nat },
    TrailingElements { from: nat },
    NotALeaf { name: Seq<char>, element: nat },
}

pub open spec fn error_view(e: SchemaError) -> SchemaErrorV {
    match e {
        SchemaError::Empty => SchemaErrorV::Empty,
        SchemaError::TooFewElements { group, element } => SchemaErrorV::TooFewElements {
            group: group@,
            element: element as nat,
        },
        SchemaError::TrailingElements { from } => SchemaErrorV::TrailingElements {
            from: from as nat,
        },
        SchemaError::NotALeaf { name, element } => SchemaErrorV::NotALeaf {
            name: name@,
            element: element as nat,
        },
    }
}

/// What a schema error says.
pub open spec fn schema_error_text(e: SchemaErrorV) -> Seq<char> {
    match e {
        SchemaErrorV::Empty => "the schema has no elements, not even a root"@,
        SchemaErrorV::TooFewElements { group, element } => "group "@ + debug_text(group)
            + " (element "@ + dec(element) + ") claims more children than the schema has elements"@,
        SchemaErrorV::TrailingElements { from } =>
            "the root's subtree ends before the list does; elements from "@ + dec(from)
            + " belong to no one"@,
        SchemaErrorV::NotALeaf { name, element } => "element "@ + dec(element) + " ("@
            + debug_text(name) + ") has no children and no physical type"@,
    }
}

impl SchemaError {
    /// The error as a sentence.
    pub fn message(&self) -> (s: String)
        ensures
            s@ == schema_error_text(error_view(*self)),
    {
        match self {
            SchemaError::Empty => "the schema has no elements, not even a root".to_owned(),
            SchemaError::TooFewElements { group, element } => {
                let mut s = "group ".to_owned();
                let q = debug_quoted(group.as_str());
                s.append(q.as_str());
                s.append(" (element ");
                push_u64(&mut s, *element as u64);
                s.append(") claims more children than the schema has elements");
                s
            },
            SchemaError::TrailingElements { from } => {
                let mut s = "the root's subtree ends before the list does; elements from ".to_owned();
                push_u64(&mut s, *from as u64);
                s.append(" belong to no one");
                s
            },
            SchemaError::NotALeaf { name, element } => {
                let mut s = "element ".to_owned();
                push_u64(&mut s, *element as u64);
                s.append(" (");
                let q = debug_quoted(name.as_str());
                s.append(q.as_str());
                s.append(") has no children and no physical type");
                s
            },
        }
    }
}

/// How many children an element claims: a missing or negative count is none.
pub open spec fn child_count(e: SchemaElement) -> int {
    match e.num_children {
        Some(n) => if n > 0 {
            n as int
        } else {
            0
        },
        None => 0,
    }
}

/// The node element `i` makes, with the given children.
pub open spec fn element_node(el: Seq<SchemaElement>, i: int, kids: Seq<SchemaNodeV>) -> SchemaNodeV {
    let e = el[i];
    SchemaNodeV {
        element: i as nat,
        name: e.name@,
        repetition: repetition_named(opt_text(e.repetition)),
        physical_type: e.physical_type,
        type_length: e.type_length,
        logical_type: e.logical_type,
        converted_type: opt_text(e.converted_type),
        field_id: e.field_id,
        span: e.span,
        children: kids,
    }
}

/// The subtree that starts at element `i`, and the position after it.
pub open spec fn subtree_at(el: Seq<SchemaElement>, i: int) -> Result<(SchemaNodeV, int), SchemaErrorV>
    decreases el.len() - i, 0int,
{
    if i < 0 || i >= el.len() {
        Err(SchemaErrorV::Empty)
    } else {
        match children_at(el, i + 1, child_count(el[i]), i) {
            Err(e) => Err(e),
            Ok((kids, end)) => if i > 0 && child_count(el[i]) == 0 && el[i].physical_type is None {
                Err(SchemaErrorV::NotALeaf { name: el[i].name@, element: i as nat })
            } else {
                Ok((element_node(el, i, kids), end))
            },
        }
    }
}

/// `k` subtrees, one after another from position `pos`, as children of element `parent`.
pub open spec fn children_at(el: Seq<SchemaElement>, pos: int, k: int, parent: int) -> Result<
    (Seq<SchemaNodeV>, int),
    SchemaErrorV,
>
    decreases el.len() - pos, 1int,
{
    if k <= 0 {
        Ok((Seq::empty(), pos))
    } else if pos < 0 || pos >= el.len() {
        Err(SchemaErrorV::TooFewElements { group: el[parent].name@, element: parent as nat })
    } else {
        match subtree_at(el, pos) {
            Err(e) => Err(e),
            Ok((t, end)) => if end <= pos || end > el.len() {
                Err(SchemaErrorV::Empty)
            } else {
                match children_at(el, end, k - 1, parent) {
                    Err(e) => Err(e),
                    Ok((rest, last)) => Ok((seq![t] + rest, last)),
                }
            },
        }
    }
}

/// The tree the whole list makes: the root's subtree, which must use every element.
pub open spec fn tree_of(el: Seq<SchemaElement>) -> Result<SchemaNodeV, SchemaErrorV> {
    if el.len() == 0 {
        Err(SchemaErrorV::Empty)
    } else {
        match subtree_at(el, 0) {
            Err(e) => Err(e),
            Ok((t, end)) => if end != el.len() {
                Err(SchemaErrorV::TrailingElements { from: end as nat })
            } else {
                Ok(t)
            },
        }
    }
}

/// A subtree read always moves forward and stays inside the list.
pub proof fn lemma_subtree_advances(el: Seq<SchemaElement>, i: int)
    ensures
        subtree_at(el, i) matches Ok((t, end)) ==> i < end <= el.len(),
    decreases el.len() - i, 0int,
{
    if 0 <= i < el.len() {
        lemma_children_advance(el, i + 1, child_count(el[i]), i);
    }
}

pub proof fn lemma_children_advance(el: Seq<SchemaElement>, pos: int, k: int, parent: int)
    ensures
        children_at(el, pos, k, parent) matches Ok((kids, end)) ==> pos <= end && (pos
            <= el.len() ==> end <= el.len()),
    decreases el.len() - pos, 1int,
{
    if k > 0 && 0 <= pos < el.len() {
        lemma_subtree_advances(el, pos);
        if let Ok((t, end)) = subtree_at(el, pos) {
            if end > pos && end <= el.len() {
                lemma_children_advance(el, end, k - 1, parent);
            }
        }
    }
}

/// Children read so far, in front of the ones still to read.
pub open spec fn prepend_kids(
    prefix: Seq<SchemaNodeV>,
    r: Result<(Seq<SchemaNodeV>, int), SchemaErrorV>,
) -> Result<(Seq<SchemaNodeV>, int), SchemaErrorV> {
    match r {
        Ok((rest, end)) => Ok((prefix + rest, end)),
        Err(e) => Err(e),
    }
}

fn subtree(elements: &[SchemaElement], index: usize) -> (r: Result<(SchemaNode, usize), SchemaError>)
    requires
        index < elements@.len(),
    ensures
        match subtree_at(elements@, index as int) {
            Ok((t, end)) => r matches Ok((node, e)) && e == end && schema_view(node) == t,
            Err(ev) => r matches Err(x) && error_view(x) == ev,
        },
    decreases elements@.len() - index,
{
    let e = &elements[index];
    let n: i64 = match e.num_children {
        Some(c) => if c > 0 {
            c
        } else {
            0
        },
        None => 0,
    };
    let ghost el = elements@;
    let mut children: Vec<SchemaNode> = Vec::new();
    let mut next: usize = index + 1;
    let mut k: i64 = 0;
    proof {
        assert(schema_views(children@) =~= Seq::<SchemaNodeV>::empty());
        assert(prepend_kids(Seq::empty(), children_at(el, index + 1, n as int, index as int))
            =~~= children_at(el, index + 1, n as int, index as int));
    }
    while k < n
        invariant
            el == elements@,
            *e == el[index as int],
            index < next <= el.len(),
            0 <= k <= n,
            n == child_count(el[index as int]),
            children_at(el, index + 1, n as int, index as int) == prepend_kids(
                schema_views(children@),
                children_at(el, next as int, (n - k) as int, index as int),
            ),
        decreases el.len() - next, n - k,
    {
        if next >= elements.len() {
            return Err(SchemaError::TooFewElements { group: e.name.clone(), element: index });
        }
        let (child, after) = match subtree(elements, next) {
            Ok(x) => x,
            Err(err) => {
                return Err(err);
            },
        };
        proof {
            lemma_subtree_advances(el, next as int);
            let ghost before = schema_views(children@);
            assert(schema_views(children@.push(child)) =~= before.push(schema_view(child)));
            assert(before.push(schema_view(child)) =~= before + seq![schema_view(child)]);
            assert(before + (seq![schema_view(child)] + Seq::empty()) =~= before.push(schema_view(child)));
            assert forall|rest: Seq<SchemaNodeV>|
                #![auto]
                before + (seq![schema_view(child)] + rest) =~= before.push(schema_view(child)) + rest by {}
        }
        children.push(child);
        next = after;
        k = k + 1;
    }
    if index > 0 && n == 0 && e.physical_type.is_none() {
        return Err(SchemaError::NotALeaf { name: e.name.clone(), element: index });
    }
    let node = SchemaNode {
        element: index,
        name: e.name.clone(),
        repetition: Repetition::from_name(&e.repetition),
        physical_type: e.physical_type,
        type_length: e.type_length,
        logical_type: e.logical_type,
        converted_type: match &e.converted_type {
            Some(c) => Some(c.clone()),
            None => None,
        },
        field_id: e.field_id,
        span: e.span,
        children,
    };
    proof {
        assert(schema_view(node) =~~= element_node(el, index as int, schema_views(node.children@)));
    }
    Ok((node, next))
}

/// Rebuild the tree from the footer's flat, depth-first list.
///
/// Read an element; if it says it has `n` children, the next `n` subtrees are its children, each
/// read the same way. The whole list must be consumed by the root's subtree.
pub fn build(elements: &[SchemaElement]) -> (r: Result<SchemaNode, SchemaError>)
    ensures
        match tree_of(elements@) {
            Ok(t) => r matches Ok(root) && schema_view(root) == t,
            Err(ev) => r matches Err(x) && error_view(x) == ev,
        },
{
    if elements.len() == 0 {
        return Err(SchemaError::Empty);
    }
    let (root, next) = match subtree(elements, 0) {
        Ok(x) => x,
        Err(e) => {
            return Err(e);
        },
    };
    if next != elements.len() {
        return Err(SchemaError::TrailingElements { from: next });
    }
    Ok(root)
}

/// Fields that may be absent: each optional or repeated one raises the definition level.
pub open spec fn def_level(path: Seq<Repetition>) -> nat
    decreases path.len(),
{
    if path.len() == 0 {
        0
    } else {
        def_level(path.drop_last()) + if path.last() == Repetition::Required {
            0nat
        } else {
            1nat
        }
    }
}

/// Fields that repeat: each raises the repetition level.
pub open spec fn rep_level(path: Seq<Repetition>) -> nat
    decreases path.len(),
{
    if path.len() == 0 {
        0
    } else {
        rep_level(path.drop_last()) + if path.last() == Repetition::Repeated {
            1nat
        } else {
            0nat
        }
    }
}

pub proof fn lemma_levels_bounded(path: Seq<Repetition>)
    ensures
        rep_level(path) <= def_level(path) <= path.len(),
    decreases path.len(),
{
    if path.len() > 0 {
        lemma_levels_bounded(path.drop_last());
    }
}

/// The largest definition and repetition levels a leaf's values can carry.
///
/// Every field on the path that may be absent (optional or repeated) adds one to the maximum
/// definition level; every repeated field adds one to the maximum repetition level. Required
/// fields add nothing, because they are always there.
pub fn max_levels(path: &[Repetition]) -> (r: (u32, u32))
    requires
        path@.len() <= u32::MAX,
    ensures
        r.0 == def_level(path@),
        r.1 == rep_level(path@),
{
    let mut def: u32 = 0;
    let mut rep: u32 = 0;
    let mut i: usize = 0;
    while i < path.len()
        invariant
            i <= path@.len() <= u32::MAX,
            def == def_level(path@.take(i as int)),
            rep == rep_level(path@.take(i as int)),
        decreases path@.len() - i,
    {
        proof {
            assert(path@.take(i + 1).drop_last() =~= path@.take(i as int));
            lemma_levels_bounded(path@.take(i as int));
        }
        match path[i] {
            Repetition::Required => {},
            Repetition::Optional => {
                def = def + 1;
            },
            Repetition::Repeated => {
                def = def + 1;
                rep = rep + 1;
            },
        }
        i = i + 1;
    }
    assert(path@.take(path@.len() as int) =~= path@);
    (def, rep)
}

/// A leaf column, with everything a reader needs to decode its values.
#[derive(Clone, Debug, PartialEq)]
pub struct Leaf {
    /// Which column this is: its position among the leaves, and so among each row group's
    /// column chunks.
    pub column: usize,
    /// The names from the root's child down to the leaf.
    pub path: Vec<String>,
    /// The repetition of every field on the path, root excluded.
    pub repetitions: Vec<Repetition>,
    pub max_definition_level: u32,
    pub max_repetition_level: u32,
    pub element: usize,
    pub physical_type: PhysicalType,
    pub type_length: Option<i64>,
    pub logical_type: Option<LogicalType>,
}

impl Leaf {
    pub fn dotted_path(&self) -> (r: String)
        ensures
            r@ == dotted(strings_view(self.path@)),
    {
        let mut s = String::new();
        let mut i: usize = 0;
        while i < self.path.len()
            invariant
                i <= self.path@.len(),
                s@ == dotted(strings_view(self.path@.take(i as int))),
            decreases self.path@.len() - i,
        {
            if i > 0 {
                s.append(".");
            }
            s.append(self.path[i].as_str());
            proof {
                assert(strings_view(self.path@.take(i + 1)).drop_last() =~= strings_view(
                    self.path@.take(i as int),
                ));
            }
            i = i + 1;
        }
        assert(self.path@.take(self.path@.len() as int) =~= self.path@);
        s
    }
}

/// A leaf as a mathematical value: its path, the repetitions along it, and its element's type.
pub struct LeafV {
    pub path: Seq<Seq<char>>,
    pub repetitions: Seq<Repetition>,
    pub element: nat,
    pub physical_type: PhysicalType,
    pub type_length: Option<i64>,
    pub logical_type: Option<LogicalType>,
}

/// Leaf `l` is the leaf `v`, at position `column` among the leaves, with the levels its path
/// gives it.
pub open spec fn leaf_is(l: Leaf, column: int, v: LeafV) -> bool {
    &&& l.column == column
    &&& strings_view(l.path@) == v.path
    &&& l.repetitions@ == v.repetitions
    &&& l.max_definition_level == def_level(v.repetitions)
    &&& l.max_repetition_level == rep_level(v.repetitions)
    &&& l.element == v.element
    &&& l.physical_type == v.physical_type
    &&& l.type_length == v.type_length
    &&& l.logical_type == v.logical_type
}

/// The leaves below a node, whose own path is `names` with repetitions `reps`, in column order.
pub open spec fn leaves_below(t: SchemaNodeV, names: Seq<Seq<char>>, reps: Seq<Repetition>) -> Seq<
    LeafV,
>
    decreases t, 1int,
{
    leaves_among(t.children, names, reps)
}

/// The leaves below each of `kids` in turn; a child without children is itself a leaf.
pub open spec fn leaves_among(kids: Seq<SchemaNodeV>, names: Seq<Seq<char>>, reps: Seq<Repetition>) -> Seq<
    LeafV,
>
    decreases kids, 0int,
{
    if kids.len() == 0 {
        Seq::empty()
    } else {
        let c = kids.last();
        let n2 = names.push(c.name);
        let r2 = reps.push(c.repetition);
        leaves_among(kids.drop_last(), names, reps) + if c.children.len() == 0 {
            seq![
                LeafV {
                    path: n2,
                    repetitions: r2,
                    element: c.element,
                    physical_type: match c.physical_type {
                        Some(p) => p,
                        None => PhysicalType(-1i64),
                    },
                    type_length: c.type_length,
                    logical_type: c.logical_type,
                },
            ]
        } else {
            leaves_below(c, n2, r2)
        }
    }
}

/// How deep the tree goes below a node.
pub open spec fn height(t: SchemaNodeV) -> nat
    decreases t, 1int,
{
    1 + heights(t.children)
}

pub open spec fn heights(kids: Seq<SchemaNodeV>) -> nat
    decreases kids, 0int,
{
    if kids.len() == 0 {
        0
    } else {
        let a = heights(kids.drop_last());
        let b = height(kids.last());
        if a < b {
            b
        } else {
            a
        }
    }
}

proof fn lemma_heights_bound(kids: Seq<SchemaNodeV>, i: int)
    requires
        0 <= i < kids.len(),
    ensures
        height(kids[i]) <= heights(kids),
    decreases kids.len(),
{
    if i < kids.len() - 1 {
        lemma_heights_bound(kids.drop_last(), i);
    }
}

fn copy_names(v: &Vec<String>) -> (r: Vec<String>)
    ensures
        strings_view(r@) == strings_view(v@),
{
    let mut out: Vec<String> = Vec::new();
    let mut i: usize = 0;
    while i < v.len()
        invariant
            i <= v@.len(),
            out@ == v@.take(i as int),
        decreases v@.len() - i,
    {
        out.push(v[i].clone());
        assert(out@ =~= v@.take(i + 1));
        i = i + 1;
    }
    assert(v@.take(v@.len() as int) =~= v@);
    out
}

fn copy_reps(v: &Vec<Repetition>) -> (r: Vec<Repetition>)
    ensures
        r@ == v@,
{
    let mut out: Vec<Repetition> = Vec::new();
    let mut i: usize = 0;
    while i < v.len()
        invariant
            i <= v@.len(),
            out@ == v@.take(i as int),
        decreases v@.len() - i,
    {
        out.push(v[i]);
        assert(out@ =~= v@.take(i + 1));
        i = i + 1;
    }
    assert(v@.take(v@.len() as int) =~= v@);
    out
}

fn walk(node: &SchemaNode, names: &mut Vec<String>, reps: &mut Vec<Repetition>, out: &mut Vec<Leaf>)
    requires
        old(names)@.len() == old(reps)@.len(),
        old(reps)@.len() + height(schema_view(*node)) <= u32::MAX,
        old(out)@.len() + leaves_below(schema_view(*node), strings_view(old(names)@), old(reps)@).len()
            <= usize::MAX,
    ensures
        strings_view(final(names)@) == strings_view(old(names)@),
        final(reps)@ == old(reps)@,
        final(out)@.len() == old(out)@.len() + leaves_below(
            schema_view(*node),
            strings_view(old(names)@),
            old(reps)@,
        ).len(),
        forall|i: int| 0 <= i < old(out)@.len() ==> final(out)@[i] == old(out)@[i],
        forall|j: int|
            0 <= j < leaves_below(schema_view(*node), strings_view(old(names)@), old(reps)@).len()
                ==> leaf_is(
                #[trigger] final(out)@[old(out)@.len() + j],
                old(out)@.len() + j,
                leaves_below(schema_view(*node), strings_view(old(names)@), old(reps)@)[j],
            ),
    decreases *node,
{
    let ghost names0 = strings_view(names@);
    let ghost reps0 = reps@;
    let ghost out0 = out@;
    let ghost kids = schema_views(node.children@);
    let ghost all = leaves_among(kids, names0, reps0);
    let mut i: usize = 0;
    proof {
        assert(kids.take(0) =~= Seq::<SchemaNodeV>::empty());
    }
    while i < node.children.len()
        invariant
            i <= node.children@.len(),
            kids == schema_views(node.children@),
            strings_view(names@) == names0,
            reps@ == reps0,
            names0.len() == reps0.len(),
            reps0.len() + height(schema_view(*node)) <= u32::MAX,
            all == leaves_among(kids, names0, reps0),
            all == leaves_below(schema_view(*node), names0, reps0),
            out0.len() + all.len() <= usize::MAX,
            out@.len() == out0.len() + leaves_among(kids.take(i as int), names0, reps0).len(),
            forall|k: int| 0 <= k < out0.len() ==> out@[k] == out0[k],
            forall|j: int|
                0 <= j < leaves_among(kids.take(i as int), names0, reps0).len() ==> leaf_is(
                    #[trigger] out@[out0.len() + j],
                    out0.len() + j,
                    leaves_among(kids.take(i as int), names0, reps0)[j],
                ),
        decreases node.children@.len() - i,
    {
        let child = &node.children[i];
        let ghost before = out@;
        let ghost done = leaves_among(kids.take(i as int), names0, reps0);
        let ghost names1 = names0.push(child.name@);
        let ghost reps1 = reps0.push(child.repetition);
        let ghost below = leaves_below(schema_view(*child), names1, reps1);
        proof {
            assert(kids.take(i + 1).drop_last() =~= kids.take(i as int));
            assert(kids.take(i + 1).last() == schema_view(*child));
            lemma_leaves_prefix(kids, names0, reps0, i + 1);
            lemma_heights_bound(kids, i as int);
        }
        names.push(child.name.clone());
        reps.push(child.repetition);
        proof {
            assert(strings_view(names@) =~= names1);
            assert(reps@ =~= reps1);
        }
        if child.children.len() == 0 {
            let repetitions = copy_reps(reps);
            let (def, rep) = max_levels(repetitions.as_slice());
            let leaf = Leaf {
                column: out.len(),
                path: copy_names(names),
                repetitions,
                max_definition_level: def,
                max_repetition_level: rep,
                element: child.element,
                physical_type: match child.physical_type {
                    Some(p) => p,
                    None => PhysicalType(-1),
                },
                type_length: child.type_length,
                logical_type: child.logical_type,
            };
            out.push(leaf);
            proof {
                let next = leaves_among(kids.take(i + 1), names0, reps0);
                assert(next.len() == done.len() + 1);
                assert forall|j: int| 0 <= j < next.len() implies leaf_is(
                    #[trigger] out@[out0.len() + j],
                    out0.len() + j,
                    next[j],
                ) by {
                    if j < done.len() {
                        assert(out@[out0.len() + j] == before[out0.len() + j]);
                    }
                }
            }
        } else {
            walk(child, names, reps, out);
            proof {
                let next = leaves_among(kids.take(i + 1), names0, reps0);
                assert(next =~= done + below);
                assert forall|j: int| 0 <= j < next.len() implies leaf_is(
                    #[trigger] out@[out0.len() + j],
                    out0.len() + j,
                    next[j],
                ) by {
                    if j < done.len() {
                        assert(out@[out0.len() + j] == before[out0.len() + j]);
                    } else {
                        let jj = j - done.len();
                        assert(out@[before.len() + jj] == out@[out0.len() + j]);
                    }
                }
            }
        }
        let ghost mid_names = names@;
        let ghost mid_reps = reps@;
        names.pop();
        reps.pop();
        proof {
            assert(strings_view(names@) =~= strings_view(mid_names).drop_last());
            assert(strings_view(mid_names) == names1);
            assert(strings_view(names@) =~= names0);
            assert(reps@ =~= reps0);
        }
        i = i + 1;
    }
    proof {
        assert(kids.take(kids.len() as int) =~= kids);
    }
}

/// The leaves of a prefix of the children are a prefix of the leaves of them all.
proof fn lemma_leaves_prefix(kids: Seq<SchemaNodeV>, names: Seq<Seq<char>>, reps: Seq<Repetition>, i: int)
    requires
        0 <= i <= kids.len(),
    ensures
        leaves_among(kids.take(i), names, reps).len() <= leaves_among(kids, names, reps).len(),
        forall|j: int|
            0 <= j < leaves_among(kids.take(i), names, reps).len() ==> leaves_among(
                kids.take(i),
                names,
                reps,
            )[j] == leaves_among(kids, names, reps)[j],
    decreases kids.len() - i,
{
    if i < kids.len() {
        lemma_leaves_prefix(kids, names, reps, i + 1);
        assert(kids.take(i + 1).drop_last() =~= kids.take(i));
    } else {
        assert(kids.take(i) =~= kids);
    }
}

/// Every leaf of the tree, in column order.
pub fn leaves(root: &SchemaNode) -> (r: Vec<Leaf>)
    requires
        height(schema_view(*root)) <= u32::MAX,
        leaves_below(schema_view(*root), Seq::empty(), Seq::empty()).len() <= usize::MAX,
    ensures
        r@.len() == leaves_below(schema_view(*root), Seq::empty(), Seq::empty()).len(),
        forall|j: int|
            0 <= j < r@.len() ==> leaf_is(
                #[trigger] r@[j],
                j,
                leaves_below(schema_view(*root), Seq::empty(), Seq::empty())[j],
            ),
{
    let mut out: Vec<Leaf> = Vec::new();
    let mut names: Vec<String> = Vec::new();
    let mut reps: Vec<Repetition> = Vec::new();
    proof {
        assert(strings_view(names@) =~= Seq::<Seq<char>>::empty());
    }
    walk(root, &mut names, &mut reps, &mut out);
    proof {
        let all = leaves_below(schema_view(*root), Seq::empty(), Seq::empty());
        assert forall|j: int| 0 <= j < out@.len() implies leaf_is(#[trigger] out@[j], j, all[j]) by {
            assert(out@[0 + j] == out@[j]);
        }
    }
    out
}

/// A physical type as the schema notation writes it: `int64`, `binary`,
/// `fixed_len_byte_array(4)`.
pub open spec fn physical_word_text(t: i64, type_length: Option<i64>) -> Seq<char> {
    if t == 0 {
        "boolean"@
    } else if t == 1 {
        "int32"@
    } else if t == 2 {
        "int64"@
    } else if t == 3 {
        "int96"@
    } else if t == 4 {
        "float"@
    } else if t == 5 {
        "double"@
    } else if t == 6 {
        "binary"@
    } else if t == 7 {
        "fixed_len_byte_array("@ + signed_dec(
            match type_length {
                Some(n) => n as int,
                None => 0,
            },
        ) + ")"@
    } else {
        "type"@ + signed_dec(t as int)
    }
}

/// The physical type as the schema notation writes it.
pub fn physical_word(t: PhysicalType, type_length: Option<i64>) -> (r: String)
    ensures
        r@ == physical_word_text(t.0, type_length),
{
    let mut s = String::new();
    if t.0 == 0 {
        s.append("boolean");
    } else if t.0 == 1 {
        s.append("int32");
    } else if t.0 == 2 {
        s.append("int64");
    } else if t.0 == 3 {
        s.append("int96");
    } else if t.0 == 4 {
        s.append("float");
    } else if t.0 == 5 {
        s.append("double");
    } else if t.0 == 6 {
        s.append("binary");
    } else if t.0 == 7 {
        s.append("fixed_len_byte_array(");
        push_i64(
            &mut s,
            match type_length {
                Some(n) => n,
                None => 0,
            },
        );
        s.append(")");
    } else {
        s.append("type");
        push_i64(&mut s, t.0);
    }
    assert(s@ =~= physical_word_text(t.0, type_length));
    s
}

/// Two spaces for each level of nesting.
pub open spec fn indent(d: nat) -> Seq<char>
    decreases d,
{
    if d == 0 {
        Seq::empty()
    } else {
        indent((d - 1) as nat) + "  "@
    }
}

/// A logical type after a field's name: ` (DATE)`; nothing when there is none.
pub open spec fn annotation(l: Option<LogicalType>) -> Seq<char> {
    match l {
        Some(x) => " ("@ + logical_text(x) + ")"@,
        None => Seq::empty(),
    }
}

/// The lines a node writes at depth `d`: one for a leaf, and for a group its opening line, its
/// children one level deeper, and its closing brace.
pub open spec fn node_lines(n: SchemaNodeV, d: nat) -> Seq<char>
    decreases n, 1int,
{
    if n.children.len() == 0 {
        let t = match n.physical_type {
            Some(p) => physical_word_text(p.0, n.type_length),
            None => "group"@,
        };
        indent(d) + repetition_word(n.repetition) + " "@ + t + " "@ + n.name + annotation(
            n.logical_type,
        ) + ";\n"@
    } else {
        indent(d) + repetition_word(n.repetition) + " group "@ + n.name + annotation(
            n.logical_type,
        ) + " {\n"@ + lines_among(n.children, d + 1) + indent(d) + "}\n"@
    }
}

pub open spec fn lines_among(kids: Seq<SchemaNodeV>, d: nat) -> Seq<char>
    decreases kids, 0int,
{
    if kids.len() == 0 {
        Seq::empty()
    } else {
        lines_among(kids.drop_last(), d) + node_lines(kids.last(), d)
    }
}

/// The tree in the notation Parquet tools print, from the Dremel paper.
pub open spec fn schema_text(t: SchemaNodeV) -> Seq<char> {
    "message "@ + t.name + " {\n"@ + lines_among(t.children, 1) + "}\n"@
}

fn push_indent(s: &mut String, d: usize)
    ensures
        final(s)@ == old(s)@ + indent(d as nat),
{
    let mut i: usize = 0;
    while i < d
        invariant
            i <= d,
            s@ == old(s)@ + indent(i as nat),
        decreases d - i,
    {
        s.append("  ");
        i = i + 1;
        assert(s@ =~= old(s)@ + indent(i as nat));
    }
}

fn push_annotation(s: &mut String, l: Option<LogicalType>)
    ensures
        final(s)@ == old(s)@ + annotation(l),
{
    match l {
        Some(x) => {
            s.append(" (");
            let t = x.to_string();
            s.append(t.as_str());
            s.append(")");
            assert(s@ =~= old(s)@ + annotation(l));
        },
        None => {
            assert(s@ =~= old(s)@ + annotation(l));
        },
    }
}

fn push_children(kids: &Vec<SchemaNode>, depth: usize, out: &mut String)
    requires
        depth + heights(schema_views(kids@)) <= usize::MAX,
    ensures
        final(out)@ == old(out)@ + lines_among(schema_views(kids@), depth as nat),
    decreases kids@, 0int,
{
    let ghost views = schema_views(kids@);
    let mut i: usize = 0;
    proof {
        assert(views.take(0) =~= Seq::<SchemaNodeV>::empty());
    }
    while i < kids.len()
        invariant
            i <= kids@.len(),
            views == schema_views(kids@),
            depth + heights(views) <= usize::MAX,
            out@ == old(out)@ + lines_among(views.take(i as int), depth as nat),
        decreases kids@.len() - i,
    {
        proof {
            assert(views.take(i + 1).drop_last() =~= views.take(i as int));
            assert(views.take(i + 1).last() == schema_view(kids@[i as int]));
            lemma_heights_bound(views, i as int);
            assert(decreases_to!(kids@ => kids@[i as int]));
        }
        push_line(&kids[i], depth, out);
        i = i + 1;
        assert(out@ =~= old(out)@ + lines_among(views.take(i as int), depth as nat));
    }
    assert(views.take(kids@.len() as int) =~= views);
}

fn push_line(node: &SchemaNode, depth: usize, out: &mut String)
    requires
        depth + height(schema_view(*node)) <= usize::MAX,
    ensures
        final(out)@ == old(out)@ + node_lines(schema_view(*node), depth as nat),
    decreases *node, 1int,
{
    push_indent(out, depth);
    out.append(node.repetition.word());
    if node.children.len() == 0 {
        out.append(" ");
        match node.physical_type {
            Some(p) => {
                let w = physical_word(p, node.type_length);
                out.append(w.as_str());
            },
            None => out.append("group"),
        }
        out.append(" ");
        out.append(node.name.as_str());
        push_annotation(out, node.logical_type);
        out.append(";\n");
    } else {
        out.append(" group ");
        out.append(node.name.as_str());
        push_annotation(out, node.logical_type);
        out.append(" {\n");
        push_children(&node.children, depth + 1, out);
        push_indent(out, depth);
        out.append("}\n");
    }
    assert(out@ =~= old(out)@ + node_lines(schema_view(*node), depth as nat));
}

/// The tree in the textual notation Parquet tools print:
///
/// ```text
/// message schema {
///   required int64 order_id;
///   optional group shipping {
///     optional binary city (STRING);
///   }
/// }
/// ```
pub fn to_text(root: &SchemaNode) -> (r: String)
    requires
        height(schema_view(*root)) < usize::MAX,
    ensures
        r@ == schema_text(schema_view(*root)),
{
    let mut out = String::new();
    out.append("message ");
    out.append(root.name.as_str());
    out.append(" {\n");
    push_children(&root.children, 1, &mut out);
    out.append("}\n");
    assert(out@ =~= schema_text(schema_view(*root)));
    out
}


/// How many nodes a tree has.
pub open spec fn node_count(t: SchemaNodeV) -> nat
    decreases t, 1int,
{
    1 + kids_count(t.children)
}

/// How many nodes some trees have together.
pub open spec fn kids_count(kids: Seq<SchemaNodeV>) -> nat
    decreases kids, 0int,
{
    if kids.len() == 0 {
        0
    } else {
        kids_count(kids.drop_last()) + node_count(kids.last())
    }
}

proof fn lemma_kids_count_front(t: SchemaNodeV, rest: Seq<SchemaNodeV>)
    ensures
        kids_count(seq![t] + rest) == node_count(t) + kids_count(rest),
    decreases rest.len(),
{
    if rest.len() > 0 {
        lemma_kids_count_front(t, rest.drop_last());
        assert((seq![t] + rest).drop_last() =~= seq![t] + rest.drop_last());
        assert((seq![t] + rest).last() == rest.last());
    } else {
        assert((seq![t] + rest).drop_last() =~= Seq::<SchemaNodeV>::empty());
        assert((seq![t] + rest).last() == t);
        assert(kids_count(Seq::<SchemaNodeV>::empty()) == 0);
    }
}

/// A subtree read from the list has one node for each element it consumed.
proof fn lemma_subtree_count(el: Seq<SchemaElement>, i: int)
    ensures
        subtree_at(el, i) matches Ok((t, end)) ==> node_count(t) == end - i,
    decreases el.len() - i, 0int,
{
    if 0 <= i < el.len() {
        lemma_children_count(el, i + 1, child_count(el[i]), i);
    }
}

proof fn lemma_children_count(el: Seq<SchemaElement>, pos: int, k: int, parent: int)
    ensures
        children_at(el, pos, k, parent) matches Ok((kids, end)) ==> kids_count(kids) == end - pos,
    decreases el.len() - pos, 1int,
{
    if k > 0 && 0 <= pos < el.len() {
        lemma_subtree_count(el, pos);
        if let Ok((t, end)) = subtree_at(el, pos) {
            if end > pos && end <= el.len() {
                lemma_children_count(el, end, k - 1, parent);
                if let Ok((rest, last)) = children_at(el, end, k - 1, parent) {
                    lemma_kids_count_front(t, rest);
                }
            }
        }
    }
}

/// A tree is no deeper than it has nodes.
proof fn lemma_height_count(t: SchemaNodeV)
    ensures
        height(t) <= node_count(t),
    decreases t, 1int,
{
    lemma_heights_count(t.children);
}

proof fn lemma_heights_count(kids: Seq<SchemaNodeV>)
    ensures
        heights(kids) <= kids_count(kids),
    decreases kids, 0int,
{
    if kids.len() > 0 {
        lemma_heights_count(kids.drop_last());
        lemma_height_count(kids.last());
    }
}

/// A tree has no more leaves than nodes.
proof fn lemma_leaves_count(t: SchemaNodeV, names: Seq<Seq<char>>, reps: Seq<Repetition>)
    ensures
        leaves_below(t, names, reps).len() <= node_count(t),
    decreases t, 1int,
{
    lemma_leaves_among_count(t.children, names, reps);
}

proof fn lemma_leaves_among_count(kids: Seq<SchemaNodeV>, names: Seq<Seq<char>>, reps: Seq<Repetition>)
    ensures
        leaves_among(kids, names, reps).len() <= kids_count(kids),
    decreases kids, 0int,
{
    if kids.len() > 0 {
        let c = kids.last();
        lemma_leaves_among_count(kids.drop_last(), names, reps);
        assert(node_count(c) >= 1);
        if c.children.len() > 0 {
            lemma_leaves_count(c, names.push(c.name), reps.push(c.repetition));
        }
    }
}

/// The tree a list of elements makes is no deeper, and has no more leaves, than the list has
/// elements.
pub proof fn lemma_tree_size(el: Seq<SchemaElement>)
    ensures
        tree_of(el) matches Ok(t) ==> height(t) <= el.len() && leaves_below(
            t,
            Seq::empty(),
            Seq::empty(),
        ).len() <= el.len(),
{
    if let Ok(t) = tree_of(el) {
        lemma_subtree_count(el, 0);
        lemma_height_count(t);
        lemma_leaves_count(t, Seq::empty(), Seq::empty());
    }
}

} // verus!
