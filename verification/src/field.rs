//! The protocol detail tree: typed, named fields behind verbose output,
//! field extraction and display filters.
//!
//! Each dissector builds a small tree of [`Node`]s: one protocol node per
//! layer (Ethernet, IPv4, TCP, ...) at the top level, each with field
//! children. A node carries
//!
//! - `abbrev`, a stable filter name (`ip.src`, `infiniband.bth.psn`), `None`
//!   for purely structural nodes;
//! - `value`, the typed value that extraction and filters read;
//! - `text`, the line shown in verbose output.
//!
//! Everything said about a tree is said about its nodes in depth-first,
//! pre-order sequence ([`entries`]).

use vstd::prelude::*;
#[allow(unused_imports)]
use vstd::std_specs::cmp::PartialEqSpec;

use crate::text::{blank, cat2, chars_of, dec, same};
#[allow(unused_imports)]
use crate::text::{dec_text, spaces};

verus! {

/// A typed field value. Integers of every width fold into `Uint`, and
/// anything textual (addresses, names) into `Str`.
#[derive(Debug)]
pub enum Value {
    Empty,
    Uint(u64),
    Str(String),
}

/// What a [`Value`] says.
pub ghost enum ValueView {
    Empty,
    Uint(u64),
    Str(Seq<char>),
}

impl View for Value {
    type V = ValueView;

    open spec fn view(&self) -> ValueView {
        match self {
            Value::Empty => ValueView::Empty,
            Value::Uint(u) => ValueView::Uint(*u),
            Value::Str(s) => ValueView::Str(s@),
        }
    }
}

impl Clone for Value {
    fn clone(&self) -> (r: Self)
        ensures
            r@ == self@,
    {
        match self {
            Value::Empty => Value::Empty,
            Value::Uint(u) => Value::Uint(*u),
            Value::Str(s) => Value::Str(s.clone()),
        }
    }
}

impl PartialEq for Value {
    fn eq(&self, other: &Self) -> (r: bool) {
        match (self, other) {
            (Value::Empty, Value::Empty) => true,
            (Value::Uint(a), Value::Uint(b)) => *a == *b,
            (Value::Str(a), Value::Str(b)) => *a == *b,
            _ => false,
        }
    }
}

impl vstd::std_specs::cmp::PartialEqSpecImpl for Value {
    open spec fn obeys_eq_spec() -> bool {
        true
    }

    open spec fn eq_spec(&self, other: &Self) -> bool {
        self@ == other@
    }
}

/// How a value is printed: a number in decimal, text as it is, nothing for an
/// empty value.
pub open spec fn value_text(v: ValueView) -> Seq<char> {
    match v {
        ValueView::Empty => Seq::empty(),
        ValueView::Uint(u) => dec_text(u as nat),
        ValueView::Str(s) => s,
    }
}

impl Value {
    /// The value as it is printed by field extraction.
    pub fn to_string(&self) -> (r: String)
        ensures
            r@ == value_text(self@),
    {
        match self {
            Value::Empty => String::new(),
            Value::Uint(u) => dec(*u),
            Value::Str(s) => s.clone(),
        }
    }
}

/// A node in the protocol detail tree.
#[derive(Debug)]
pub struct Node {
    pub abbrev: Option<&'static str>,
    pub value: Value,
    pub text: String,
    pub children: Vec<Node>,
}

/// What a [`Node`] says, with everything below it.
pub ghost struct NodeView {
    pub abbrev: Option<Seq<char>>,
    pub value: ValueView,
    pub text: Seq<char>,
    pub children: Seq<NodeView>,
}

/// The characters of an optional name.
pub open spec fn name_view(a: Option<&'static str>) -> Option<Seq<char>> {
    match a {
        Some(a) => Some(a@),
        None => None,
    }
}

/// The view of a node.
pub open spec fn node_view(n: Node) -> NodeView
    decreases n,
{
    NodeView {
        abbrev: name_view(n.abbrev),
        value: n.value@,
        text: n.text@,
        children: Seq::new(
            n.children@.len(),
            |i: int|
                if 0 <= i < n.children@.len() {
                    node_view(n.children@[i])
                } else {
                    arbitrary()
                },
        ),
    }
}

impl View for Node {
    type V = NodeView;

    open spec fn view(&self) -> NodeView {
        node_view(*self)
    }
}

/// The views of a list of nodes.
pub open spec fn views(ns: Seq<Node>) -> Seq<NodeView> {
    Seq::new(ns.len(), |i: int| ns[i]@)
}

/// A node's children, seen as a list.
pub proof fn lemma_children(n: Node)
    ensures
        n@.children == views(n.children@),
{
    reveal_with_fuel(node_view, 2);
    assert(n@.children =~= views(n.children@));
}

/// One node more in a list is one view more.
pub proof fn lemma_views_push(ns: Seq<Node>, n: Node)
    ensures
        views(ns.push(n)) == views(ns).push(n@),
{
    assert(views(ns.push(n)) =~= views(ns).push(n@));
}

/// A protocol layer: display text and fields, no name and no value.
pub open spec fn layer(text: Seq<char>, fields: Seq<NodeView>) -> NodeView {
    NodeView { abbrev: None, value: ValueView::Empty, text, children: fields }
}

/// A field: a name, a value and display text, nothing below it.
pub open spec fn leaf(abbrev: Seq<char>, value: ValueView, text: Seq<char>) -> NodeView {
    NodeView { abbrev: Some(abbrev), value, text, children: Seq::empty() }
}

/// A field with a number.
pub open spec fn num(abbrev: Seq<char>, n: nat, text: Seq<char>) -> NodeView {
    leaf(abbrev, ValueView::Uint(n as u64), text)
}

/// A field with text.
pub open spec fn txt(abbrev: Seq<char>, s: Seq<char>, text: Seq<char>) -> NodeView {
    leaf(abbrev, ValueView::Str(s), text)
}

/// A node with one child more.
pub open spec fn with_child(n: NodeView, c: NodeView) -> NodeView {
    NodeView { children: n.children.push(c), ..n }
}

impl Node {
    /// A structural node with display text but no filterable value.
    pub fn proto(text: &str) -> (n: Node)
        ensures
            n@ == layer(text@, Seq::empty()),
    {
        let n = Node {
            abbrev: None,
            value: Value::Empty,
            text: String::from_str(text),
            children: Vec::new(),
        };
        assert(n@.children =~= Seq::empty());
        n
    }

    /// A field node with a name and a typed value.
    pub fn field(abbrev: &'static str, value: Value, text: &str) -> (n: Node)
        ensures
            n@ == leaf(abbrev@, value@, text@),
    {
        let n = Node {
            abbrev: Some(abbrev),
            value,
            text: String::from_str(text),
            children: Vec::new(),
        };
        assert(n@.children =~= Seq::empty());
        n
    }

    /// Appends a child.
    pub fn push(&mut self, child: Node)
        ensures
            final(self)@ == with_child(old(self)@, child@),
    {
        let ghost before = *self;
        self.children.push(child);
        proof {
            lemma_children(before);
            lemma_children(*self);
            lemma_views_push(before.children@, child);
        }
    }

    /// Appends a field child.
    pub fn add(&mut self, abbrev: &'static str, value: Value, text: &str)
        ensures
            final(self)@ == with_child(old(self)@, leaf(abbrev@, value@, text@)),
    {
        self.push(Node::field(abbrev, value, text));
    }

    /// Appends a field child with a number.
    pub fn add_num(&mut self, abbrev: &'static str, n: u64, text: &str)
        ensures
            final(self)@ == with_child(old(self)@, num(abbrev@, n as nat, text@)),
    {
        self.add(abbrev, Value::Uint(n), text);
    }

    /// Appends a field child with text.
    pub fn add_str(&mut self, abbrev: &'static str, s: &str, text: &str)
        ensures
            final(self)@ == with_child(old(self)@, txt(abbrev@, s@, text@)),
    {
        self.add(abbrev, Value::Str(String::from_str(s)), text);
    }
}

impl Clone for Node {
    fn clone(&self) -> (r: Self)
        ensures
            r@ == self@,
        decreases self,
    {
        let mut children: Vec<Node> = Vec::new();
        for i in 0..self.children.len()
            invariant
                children@.len() == i,
                forall|j: int| 0 <= j < i ==> #[trigger] children@[j]@ == self.children@[j]@,
        {
            children.push(self.children[i].clone());
        }
        let r = Node {
            abbrev: self.abbrev,
            value: self.value.clone(),
            text: self.text.clone(),
            children,
        };
        proof {
            lemma_children(r);
            lemma_children(*self);
            assert(views(r.children@) =~= views(self.children@));
        }
        r
    }
}

// ---- the nodes in order ----

/// One node of a tree on its own, with its depth below the top level.
pub ghost struct Entry {
    pub depth: nat,
    pub abbrev: Option<Seq<char>>,
    pub value: ValueView,
    pub text: Seq<char>,
}

/// A node and everything below it, in pre-order.
pub open spec fn node_entries(n: NodeView, depth: nat) -> Seq<Entry>
    decreases n, 0nat,
{
    seq![Entry { depth, abbrev: n.abbrev, value: n.value, text: n.text }] + entries_upto(
        n.children,
        n.children.len(),
        depth + 1,
    )
}

/// The first `k` nodes of a list and everything below them, in pre-order.
pub open spec fn entries_upto(ns: Seq<NodeView>, k: nat, depth: nat) -> Seq<Entry>
    decreases ns, k,
{
    if k == 0 || k > ns.len() {
        Seq::empty()
    } else {
        entries_upto(ns, (k - 1) as nat, depth) + node_entries(ns[k - 1], depth)
    }
}

/// All nodes of a tree in pre-order.
pub open spec fn entries(tree: Seq<NodeView>) -> Seq<Entry> {
    entries_upto(tree, tree.len(), 0)
}

/// The values of the entries named `name`, in order.
pub open spec fn named(es: Seq<Entry>, name: Seq<char>) -> Seq<ValueView>
    decreases es.len(),
{
    if es.len() == 0 {
        Seq::empty()
    } else if es.last().abbrev == Some(name) {
        named(es.drop_last(), name).push(es.last().value)
    } else {
        named(es.drop_last(), name)
    }
}

/// The first of some values.
pub open spec fn first(vs: Seq<ValueView>) -> Option<ValueView> {
    if vs.len() == 0 {
        None
    } else {
        Some(vs[0])
    }
}

/// Whether the field name `a` is `name` or lies under it: `infiniband.bth`
/// covers `infiniband.bth.opcode`.
pub open spec fn covers(name: Seq<char>, a: Seq<char>) -> bool {
    ||| a == name
    ||| a.len() > name.len() && a.take(name.len() as int) == name && a[name.len() as int] == '.'
}

/// Whether one of the entries is `name` or lies under it.
pub open spec fn any_covered(es: Seq<Entry>, name: Seq<char>) -> bool {
    exists|i: int|
        0 <= i < es.len() && (#[trigger] es[i]).abbrev is Some && covers(name, es[i].abbrev->0)
}

/// The lines of the entries: four spaces per level of depth, the text, a line
/// end.
pub open spec fn lines(es: Seq<Entry>) -> Seq<char>
    decreases es.len(),
{
    if es.len() == 0 {
        Seq::empty()
    } else {
        lines(es.drop_last()) + spaces(4 * es.last().depth as int) + es.last().text + "\n"@
    }
}

/// The values of two runs of entries are those of the first, then those of
/// the second.
pub proof fn lemma_named_concat(a: Seq<Entry>, b: Seq<Entry>, name: Seq<char>)
    ensures
        named(a + b, name) == named(a, name) + named(b, name),
    decreases b.len(),
{
    if b.len() == 0 {
        assert(a + b =~= a);
        assert(named(a, name) + named(b, name) =~= named(a, name));
    } else {
        assert((a + b).drop_last() =~= a + b.drop_last());
        lemma_named_concat(a, b.drop_last(), name);
        assert(named(a + b, name) =~= named(a, name) + named(b, name));
    }
}

/// A name is covered in two runs of entries if it is in one of them.
pub proof fn lemma_covered_concat(a: Seq<Entry>, b: Seq<Entry>, name: Seq<char>)
    ensures
        any_covered(a + b, name) == (any_covered(a, name) || any_covered(b, name)),
{
    if any_covered(a, name) {
        let i = choose|i: int|
            0 <= i < a.len() && (#[trigger] a[i]).abbrev is Some && covers(name, a[i].abbrev->0);
        assert((a + b)[i] == a[i]);
    }
    if any_covered(b, name) {
        let i = choose|i: int|
            0 <= i < b.len() && (#[trigger] b[i]).abbrev is Some && covers(name, b[i].abbrev->0);
        assert((a + b)[a.len() + i] == b[i]);
    }
    if any_covered(a + b, name) {
        let i = choose|i: int|
            0 <= i < (a + b).len() && (#[trigger] (a + b)[i]).abbrev is Some && covers(
                name,
                (a + b)[i].abbrev->0,
            );
        if i < a.len() {
            assert(a[i] == (a + b)[i]);
        } else {
            assert(b[i - a.len()] == (a + b)[i]);
        }
    }
}

/// The lines of two runs of entries.
pub proof fn lemma_lines_concat(a: Seq<Entry>, b: Seq<Entry>)
    ensures
        lines(a + b) == lines(a) + lines(b),
    decreases b.len(),
{
    if b.len() == 0 {
        assert(a + b =~= a);
        assert(lines(a) + lines(b) =~= lines(a));
    } else {
        assert((a + b).drop_last() =~= a + b.drop_last());
        lemma_lines_concat(a, b.drop_last());
        assert(lines(a + b) =~= lines(a) + lines(b));
    }
}

/// What a single entry contributes.
pub proof fn lemma_single(e: Entry, name: Seq<char>)
    ensures
        named(seq![e], name) == if e.abbrev == Some(name) {
            seq![e.value]
        } else {
            Seq::empty()
        },
        any_covered(seq![e], name) == (e.abbrev is Some && covers(name, e.abbrev->0)),
        lines(seq![e]) == spaces(4 * e.depth as int) + e.text + "\n"@,
{
    reveal_with_fuel(named, 2);
    reveal_with_fuel(lines, 2);
    let one = seq![e];
    assert(one.drop_last() =~= Seq::empty());
    assert(named(one, name) =~= if e.abbrev == Some(name) {
        seq![e.value]
    } else {
        Seq::empty()
    });
    assert(lines(one) =~= spaces(4 * e.depth as int) + e.text + "\n"@);
    if e.abbrev is Some && covers(name, e.abbrev->0) {
        assert(one[0] == e);
    }
}

// ---- verbose output ----

/// Appends the tree in verbose form to `out`: one line per node, indented
/// four spaces per level of depth.
pub fn write_verbose(out: &mut String, tree: &[Node])
    ensures
        final(out)@ == old(out)@ + lines(entries(views(tree@))),
{
    let ghost all = views(tree@);
    assert(old(out)@ + lines(Seq::empty()) =~= old(out)@);
    let indent = String::new();
    assert(indent@ =~= spaces(0));
    for i in 0..tree.len()
        invariant
            all == views(tree@),
            indent@ == spaces(0),
            out@ == old(out)@ + lines(entries_upto(all, i as nat, 0)),
    {
        proof {
            lemma_lines_concat(entries_upto(all, i as nat, 0), node_entries(all[i as int], 0));
        }
        write_node(out, &tree[i], indent.as_str(), Ghost(0));
        assert(out@ =~= old(out)@ + lines(entries_upto(all, (i + 1) as nat, 0)));
    }
}

fn write_node(out: &mut String, n: &Node, indent: &str, Ghost(depth): Ghost<nat>)
    requires
        indent@ == spaces(4 * depth as int),
    ensures
        final(out)@ == old(out)@ + lines(node_entries(n@, depth)),
    decreases n,
{
    let ghost start = out@;
    let ghost head = Entry { depth, abbrev: n@.abbrev, value: n@.value, text: n@.text };
    let ghost below = n@.children;
    out.append(indent);
    out.append(n.text.as_str());
    out.append("\n");
    let deeper = cat2(indent, blank(4).as_str());
    proof {
        assert(deeper@ =~= spaces(4 * (depth + 1) as int));
        lemma_children(*n);
        lemma_single(head, Seq::empty());
        assert(out@ =~= start + lines(seq![head]));
        assert(seq![head] + entries_upto(below, 0, depth + 1) =~= seq![head]);
    }
    for i in 0..n.children.len()
        invariant
            below == views(n.children@),
            deeper@ == spaces(4 * (depth + 1) as int),
            out@ == start + lines(seq![head] + entries_upto(below, i as nat, depth + 1)),
    {
        proof {
            lemma_lines_concat(
                seq![head] + entries_upto(below, i as nat, depth + 1),
                node_entries(below[i as int], depth + 1),
            );
            assert(seq![head] + entries_upto(below, i as nat, depth + 1) + node_entries(
                below[i as int],
                depth + 1,
            ) =~= seq![head] + entries_upto(below, (i + 1) as nat, depth + 1));
        }
        write_node(out, &n.children[i], deeper.as_str(), Ghost(depth + 1));
        assert(out@ =~= start + lines(
            seq![head] + entries_upto(below, (i + 1) as nat, depth + 1),
        ));
    }
}

// ---- extraction ----

/// The first value of the tree, in pre-order, whose name is `abbrev`.
pub fn extract<'a>(tree: &'a [Node], abbrev: &str) -> (r: Option<&'a Value>)
    ensures
        match r {
            Some(v) => first(named(entries(views(tree@)), abbrev@)) == Some(v@),
            None => first(named(entries(views(tree@)), abbrev@)) is None,
        },
{
    let ghost all = views(tree@);
    for i in 0..tree.len()
        invariant
            all == views(tree@),
            named(entries_upto(all, i as nat, 0), abbrev@) =~= Seq::empty(),
    {
        proof {
            lemma_prefix_named(all, (i + 1) as nat, all.len(), 0, abbrev@);
            lemma_named_concat(
                entries_upto(all, i as nat, 0),
                node_entries(all[i as int], 0),
                abbrev@,
            );
        }
        let found = extract_node(&tree[i], abbrev, Ghost(0));
        if found.is_some() {
            return found;
        }
    }
    None
}

/// What the first `k` nodes of a list yield comes first among what `m` nodes
/// yield.
pub proof fn lemma_prefix_named(ns: Seq<NodeView>, k: nat, m: nat, depth: nat, name: Seq<char>)
    requires
        k <= m <= ns.len(),
    ensures
        named(entries_upto(ns, k, depth), name).is_prefix_of(
            named(entries_upto(ns, m, depth), name),
        ),
    decreases m,
{
    if k < m {
        lemma_prefix_named(ns, k, (m - 1) as nat, depth, name);
        lemma_named_concat(
            entries_upto(ns, (m - 1) as nat, depth),
            node_entries(ns[m - 1], depth),
            name,
        );
    }
}

fn extract_node<'a>(n: &'a Node, abbrev: &str, Ghost(depth): Ghost<nat>) -> (r: Option<&'a Value>)
    ensures
        match r {
            Some(v) => first(named(node_entries(n@, depth), abbrev@)) == Some(v@),
            None => first(named(node_entries(n@, depth), abbrev@)) is None,
        },
    decreases n,
{
    let ghost head = Entry { depth, abbrev: n@.abbrev, value: n@.value, text: n@.text };
    let ghost below = n@.children;
    proof {
        lemma_children(*n);
        lemma_single(head, abbrev@);
        lemma_named_concat(
            seq![head],
            entries_upto(below, below.len(), depth + 1),
            abbrev@,
        );
    }
    if let Some(a) = n.abbrev {
        if same(a, abbrev) {
            return Some(&n.value);
        }
    }
    for i in 0..n.children.len()
        invariant
            below == views(n.children@),
            named(entries_upto(below, i as nat, depth + 1), abbrev@) =~= Seq::empty(),
            named(node_entries(n@, depth), abbrev@) =~= named(
                entries_upto(below, below.len(), depth + 1),
                abbrev@,
            ),
    {
        proof {
            lemma_prefix_named(below, (i + 1) as nat, below.len(), depth + 1, abbrev@);
            lemma_named_concat(
                entries_upto(below, i as nat, depth + 1),
                node_entries(below[i as int], depth + 1),
                abbrev@,
            );
        }
        let found = extract_node(&n.children[i], abbrev, Ghost(depth + 1));
        if found.is_some() {
            return found;
        }
    }
    None
}

/// The views of a list of borrowed values.
pub open spec fn values(vs: Seq<&Value>) -> Seq<ValueView> {
    Seq::new(vs.len(), |i: int| vs[i]@)
}

/// Every value of the tree whose name is `abbrev`, in pre-order. A field can
/// occur more than once; a comparison holds if it holds of any occurrence.
pub fn collect<'a>(tree: &'a [Node], abbrev: &str) -> (r: Vec<&'a Value>)
    ensures
        values(r@) == named(entries(views(tree@)), abbrev@),
{
    let mut out: Vec<&'a Value> = Vec::new();
    let ghost all = views(tree@);
    assert(values(out@) =~= named(entries_upto(all, 0, 0), abbrev@));
    for i in 0..tree.len()
        invariant
            all == views(tree@),
            values(out@) == named(entries_upto(all, i as nat, 0), abbrev@),
    {
        proof {
            lemma_named_concat(
                entries_upto(all, i as nat, 0),
                node_entries(all[i as int], 0),
                abbrev@,
            );
        }
        collect_node(&tree[i], abbrev, &mut out, Ghost(0));
    }
    out
}

fn collect_node<'a>(
    n: &'a Node,
    abbrev: &str,
    out: &mut Vec<&'a Value>,
    Ghost(depth): Ghost<nat>,
)
    ensures
        values(final(out)@) == values(old(out)@) + named(node_entries(n@, depth), abbrev@),
    decreases n,
{
    let ghost start = values(out@);
    let ghost head = Entry { depth, abbrev: n@.abbrev, value: n@.value, text: n@.text };
    let ghost below = n@.children;
    proof {
        lemma_children(*n);
        lemma_single(head, abbrev@);
    }
    if let Some(a) = n.abbrev {
        if same(a, abbrev) {
            out.push(&n.value);
        }
    }
    proof {
        assert(values(out@) =~= start + named(seq![head], abbrev@));
        assert(seq![head] + entries_upto(below, 0, depth + 1) =~= seq![head]);
    }
    for i in 0..n.children.len()
        invariant
            below == views(n.children@),
            values(out@) == start + named(
                seq![head] + entries_upto(below, i as nat, depth + 1),
                abbrev@,
            ),
    {
        proof {
            lemma_named_concat(
                seq![head] + entries_upto(below, i as nat, depth + 1),
                node_entries(below[i as int], depth + 1),
                abbrev@,
            );
            assert(seq![head] + entries_upto(below, i as nat, depth + 1) + node_entries(
                below[i as int],
                depth + 1,
            ) =~= seq![head] + entries_upto(below, (i + 1) as nat, depth + 1));
        }
        collect_node(&n.children[i], abbrev, out, Ghost(depth + 1));
        assert(values(out@) =~= start + named(
            seq![head] + entries_upto(below, (i + 1) as nat, depth + 1),
            abbrev@,
        ));
    }
}

// ---- presence ----

/// Whether a field or protocol named `name` is there: the name itself, or any
/// name under it, so that a bare `ip` or `tcp` tests for the protocol.
pub fn present(tree: &[Node], name: &str) -> (r: bool)
    ensures
        r == any_covered(entries(views(tree@)), name@),
{
    let ghost all = views(tree@);
    for i in 0..tree.len()
        invariant
            all == views(tree@),
            !any_covered(entries_upto(all, i as nat, 0), name@),
    {
        proof {
            lemma_prefix_covered(all, (i + 1) as nat, all.len(), 0, name@);
            lemma_covered_concat(
                entries_upto(all, i as nat, 0),
                node_entries(all[i as int], 0),
                name@,
            );
        }
        if present_node(&tree[i], name, Ghost(0)) {
            return true;
        }
    }
    false
}

proof fn lemma_prefix_covered(ns: Seq<NodeView>, k: nat, m: nat, depth: nat, name: Seq<char>)
    requires
        k <= m <= ns.len(),
    ensures
        any_covered(entries_upto(ns, k, depth), name) ==> any_covered(
            entries_upto(ns, m, depth),
            name,
        ),
    decreases m,
{
    if k < m {
        lemma_prefix_covered(ns, k, (m - 1) as nat, depth, name);
        lemma_covered_concat(
            entries_upto(ns, (m - 1) as nat, depth),
            node_entries(ns[m - 1], depth),
            name,
        );
    }
}

fn present_node(n: &Node, name: &str, Ghost(depth): Ghost<nat>) -> (r: bool)
    ensures
        r == any_covered(node_entries(n@, depth), name@),
    decreases n,
{
    let ghost head = Entry { depth, abbrev: n@.abbrev, value: n@.value, text: n@.text };
    let ghost below = n@.children;
    proof {
        lemma_children(*n);
        lemma_single(head, name@);
        lemma_covered_concat(seq![head], entries_upto(below, below.len(), depth + 1), name@);
    }
    if let Some(a) = n.abbrev {
        if lies_under(name, a) {
            return true;
        }
    }
    for i in 0..n.children.len()
        invariant
            below == views(n.children@),
            !any_covered(entries_upto(below, i as nat, depth + 1), name@),
            any_covered(node_entries(n@, depth), name@) == any_covered(
                entries_upto(below, below.len(), depth + 1),
                name@,
            ),
    {
        proof {
            lemma_prefix_covered(below, (i + 1) as nat, below.len(), depth + 1, name@);
            lemma_covered_concat(
                entries_upto(below, i as nat, depth + 1),
                node_entries(below[i as int], depth + 1),
                name@,
            );
        }
        if present_node(&n.children[i], name, Ghost(depth + 1)) {
            return true;
        }
    }
    false
}

fn lies_under(name: &str, a: &str) -> (r: bool)
    ensures
        r == covers(name@, a@),
{
    let nv = chars_of(name);
    let av = chars_of(a);
    if av.len() < nv.len() {
        return false;
    }
    for i in 0..nv.len()
        invariant
            nv@ == name@,
            av@ == a@,
            nv@.len() <= av@.len(),
            a@.take(i as int) == name@.take(i as int),
    {
        if av[i] != nv[i] {
            assert(a@.take(name@.len() as int)[i as int] != name@[i as int]);
            return false;
        }
        assert(a@.take(i + 1) =~= a@.take(i as int).push(a@[i as int]));
        assert(name@.take(i + 1) =~= name@.take(i as int).push(name@[i as int]));
    }
    assert(name@.take(name@.len() as int) =~= name@);
    if av.len() == nv.len() {
        assert(a@.take(a@.len() as int) =~= a@);
        true
    } else {
        av[nv.len()] == '.'
    }
}

// ---- laws ----

/// A field that has a value to extract is present.
pub proof fn law_extracted_is_present(tree: Seq<NodeView>, name: Seq<char>)
    ensures
        named(entries(tree), name).len() > 0 ==> any_covered(entries(tree), name),
{
    lemma_named_present(entries(tree), name);
}

proof fn lemma_named_present(es: Seq<Entry>, name: Seq<char>)
    ensures
        named(es, name).len() > 0 ==> any_covered(es, name),
    decreases es.len(),
{
    if es.len() > 0 {
        lemma_named_present(es.drop_last(), name);
        assert(es =~= es.drop_last() + seq![es.last()]);
        lemma_covered_concat(es.drop_last(), seq![es.last()], name);
        lemma_single(es.last(), name);
    }
}

/// A protocol is present wherever one of its fields, named by the protocol, a
/// dot and more, is.
pub proof fn law_prefix_is_present(tree: Seq<NodeView>, name: Seq<char>, rest: Seq<char>)
    ensures
        any_covered(entries(tree), name + seq!['.'] + rest) ==> any_covered(entries(tree), name),
{
    let long = name + seq!['.'] + rest;
    let es = entries(tree);
    if any_covered(es, long) {
        let i = choose|i: int|
            0 <= i < es.len() && (#[trigger] es[i]).abbrev is Some && covers(
                long,
                es[i].abbrev->0,
            );
        let a = es[i].abbrev->0;
        if a == long {
            assert(a.take(name.len() as int) =~= name);
        } else {
            assert(a.take(long.len() as int) == long);
            assert(a.take(name.len() as int) =~= long.take(name.len() as int));
            assert(long.take(name.len() as int) =~= name);
            assert(a[name.len() as int] == long[name.len() as int]);
        }
        assert(covers(name, a));
    }
}

// ---- laws on lookup ----

/// Whether the `k`-th field of a layer has a name, a number and a line.
pub open spec fn shows_number(
    l: NodeView,
    k: int,
    name: Seq<char>,
    n: int,
    text: Seq<char>,
) -> bool {
    &&& 0 <= k < l.children.len()
    &&& l.children[k].abbrev == Some(name)
    &&& l.children[k].value == ValueView::Uint(n as u64)
    &&& l.children[k].text == text
    &&& l.children[k].children.len() == 0
}

/// Whether the `k`-th field of a layer has a name, a text and a line.
pub open spec fn shows_text(
    l: NodeView,
    k: int,
    name: Seq<char>,
    s: Seq<char>,
    text: Seq<char>,
) -> bool {
    &&& 0 <= k < l.children.len()
    &&& l.children[k].abbrev == Some(name)
    &&& l.children[k].value == ValueView::Str(s)
    &&& l.children[k].text == text
    &&& l.children[k].children.len() == 0
}

/// Whether a node is a protocol layer with a title and a number of fields.
pub open spec fn is_layer(l: NodeView, title: Seq<char>, fields: nat) -> bool {
    &&& l.abbrev is None
    &&& l.value is Empty
    &&& l.text == title
    &&& l.children.len() == fields
}

/// Extraction finds the first occurrence of a name and no other; comparison
/// sees them all, in order.
pub proof fn law_first_occurrence_is_extracted(
    before: Seq<Entry>,
    e: Entry,
    behind: Seq<Entry>,
    name: Seq<char>,
)
    requires
        forall|i: int| 0 <= i < before.len() ==> (#[trigger] before[i]).abbrev != Some(name),
        e.abbrev == Some(name),
    ensures
        first(named(before + seq![e] + behind, name)) == Some(e.value),
        named(before + seq![e] + behind, name) == seq![e.value] + named(behind, name),
        first(named(before, name)) is None,
{
    lemma_unnamed(before, name);
    lemma_single(e, name);
    lemma_named_concat(before, seq![e], name);
    lemma_named_concat(before + seq![e], behind, name);
    assert(named(before + seq![e] + behind, name) =~= seq![e.value] + named(behind, name));
}

proof fn lemma_unnamed(es: Seq<Entry>, name: Seq<char>)
    requires
        forall|i: int| 0 <= i < es.len() ==> (#[trigger] es[i]).abbrev != Some(name),
    ensures
        named(es, name) == Seq::<ValueView>::empty(),
    decreases es.len(),
{
    if es.len() > 0 {
        assert(es[es.len() - 1].abbrev != Some(name));
        assert forall|i: int| 0 <= i < es.drop_last().len() implies (
        #[trigger] es.drop_last()[i]).abbrev != Some(name) by {
            assert(es[i].abbrev != Some(name));
        }
        lemma_unnamed(es.drop_last(), name);
    }
}

/// Nodes come in pre-order: a node before what lies below it, one node of a
/// list with all below it before the next, each level one deeper.
pub proof fn law_nodes_come_in_pre_order(a: Seq<NodeView>, n: NodeView)
    ensures
        entries(Seq::empty()) == Seq::<Entry>::empty(),
        entries(a.push(n)) == entries(a) + node_entries(n, 0),
        n.children.len() == 0 ==> node_entries(n, 0) == seq![
            Entry { depth: 0, abbrev: n.abbrev, value: n.value, text: n.text },
        ],
        node_entries(n, 0).len() > 0,
        node_entries(n, 0)[0] == (Entry {
            depth: 0,
            abbrev: n.abbrev,
            value: n.value,
            text: n.text,
        }),
        node_entries(n, 0).skip(1) == deeper(entries(n.children)),
{
    let head = Entry { depth: 0, abbrev: n.abbrev, value: n.value, text: n.text };
    lemma_entries_of_prefix(a.push(n), a, a.len(), 0);
    assert(entries(a.push(n)) =~= entries(a) + node_entries(n, 0));
    assert(entries(Seq::empty()) =~= Seq::<Entry>::empty());
    if n.children.len() == 0 {
        assert(node_entries(n, 0) =~= seq![head]);
    }
    lemma_deeper(n.children, n.children.len(), 0);
    assert(node_entries(n, 0).skip(1) =~= entries_upto(n.children, n.children.len(), 1));
}

/// Entries one level deeper.
pub open spec fn deeper(es: Seq<Entry>) -> Seq<Entry> {
    Seq::new(es.len(), |i: int| Entry { depth: es[i].depth + 1, ..es[i] })
}

proof fn lemma_deeper(ns: Seq<NodeView>, k: nat, depth: nat)
    requires
        k <= ns.len(),
    ensures
        entries_upto(ns, k, depth + 1) == deeper(entries_upto(ns, k, depth)),
    decreases ns, k, 0nat,
{
    if k > 0 {
        lemma_deeper(ns, (k - 1) as nat, depth);
        lemma_deeper_node(ns[k - 1], depth);
        assert(entries_upto(ns, k, depth + 1) =~= deeper(entries_upto(ns, k, depth)));
    } else {
        assert(entries_upto(ns, k, depth + 1) =~= deeper(entries_upto(ns, k, depth)));
    }
}

proof fn lemma_deeper_node(n: NodeView, depth: nat)
    ensures
        node_entries(n, depth + 1) == deeper(node_entries(n, depth)),
    decreases n, 0nat, 0nat,
{
    lemma_deeper(n.children, n.children.len(), depth + 1);
    assert(node_entries(n, depth + 1) =~= deeper(node_entries(n, depth)));
}

proof fn lemma_entries_of_prefix(ns: Seq<NodeView>, ms: Seq<NodeView>, k: nat, depth: nat)
    requires
        k <= ns.len(),
        k <= ms.len(),
        forall|i: int| 0 <= i < k ==> ns[i] == ms[i],
    ensures
        entries_upto(ns, k, depth) == entries_upto(ms, k, depth),
    decreases k,
{
    if k > 0 {
        lemma_entries_of_prefix(ns, ms, (k - 1) as nat, depth);
        assert(ns[k - 1] == ms[k - 1]);
    }
}

/// Verbose output has a line for every entry, in order: four spaces for every
/// level, the text, a line end.
pub proof fn law_verbose_lines(a: Seq<Entry>, e: Entry, b: Seq<Entry>)
    ensures
        lines(Seq::empty()) == Seq::<char>::empty(),
        lines(a + seq![e] + b) == lines(a) + (Seq::new(4 * e.depth, |i: int| ' ') + e.text + "\n"@)
            + lines(b),
{
    lemma_single(e, Seq::empty());
    lemma_lines_concat(a, seq![e]);
    lemma_lines_concat(a + seq![e], b);
    assert(spaces(4 * e.depth as int) =~= Seq::new(4 * e.depth, |i: int| ' '));
}

/// Numbers are printed in decimal, texts as they are, and an empty value not
/// at all.
pub proof fn law_printed_values(u: u64, s: Seq<char>)
    ensures
        value_text(ValueView::Uint(u)) == dec_text(u as nat),
        value_text(ValueView::Str(s)) == s,
        value_text(ValueView::Empty).len() == 0,
{
}

/// Values are equal exactly if they are of the same kind and hold the same
/// number or the same text.
pub proof fn law_values_are_equal_by_content(a: Value, b: Value)
    ensures
        a.eq_spec(&b) <==> match (a, b) {
            (Value::Empty, Value::Empty) => true,
            (Value::Uint(x), Value::Uint(y)) => x == y,
            (Value::Str(x), Value::Str(y)) => x@ == y@,
            _ => false,
        },
{
}

} // verus!
