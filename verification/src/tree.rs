//! Finding one's way in a syntax tree: what the cursor stands on, and which
//! variables hold there.
//!
//! Nodes are named by their index in the list of the tree.

use vstd::prelude::*;

use crate::position::TextRange;
use crate::syntax;
use crate::syntax::{Node, NodeKind};
use crate::text;

verus! {

/// The tree that a list of nodes stands for.
pub type Tree = Seq<syntax::NodeView>;

/// The last node before `below` whose subtree a node lies in. Before the node
/// itself that is its parent, before the parent the parent of the parent.
pub open spec fn enclosing(nodes: Tree, node: int, below: int) -> Option<int>
    decreases below,
{
    if below <= 0 {
        None
    } else if node < below - 1 + nodes[below - 1].extent {
        Some(below - 1)
    } else {
        enclosing(nodes, node, below - 1)
    }
}

/// The roots of neighbouring subtrees, those that stand from `from` up to `to`.
/// A run that is cut off inside a subtree ends before it.
pub open spec fn roots(nodes: Tree, from: int, to: int) -> Seq<int>
    decreases to - from,
{
    if !(0 <= from < to <= nodes.len()) || nodes[from].extent == 0 || from + nodes[from].extent
        > to {
        seq![]
    } else {
        seq![from] + roots(nodes, from + nodes[from].extent, to)
    }
}

/// The children of a node.
pub open spec fn children(nodes: Tree, node: int) -> Seq<int> {
    roots(nodes, node + 1, node + nodes[node].extent)
}

/// Whether a node, taken as a stretch of bytes, holds the byte before an offset,
/// or, at the beginning of the text, the byte behind it.
pub open spec fn holds_cursor(range: TextRange, offset: u32) -> bool {
    if offset == 0 {
        range.start == 0 && range.end > 0
    } else {
        range.start < offset <= range.end
    }
}

/// The bytes of the nodes around an offset, from a node on, the innermost first.
pub open spec fn around(nodes: Tree, offset: u32, from: int) -> Seq<TextRange>
    decreases nodes.len() - from,
{
    if from < 0 || from >= nodes.len() {
        seq![]
    } else {
        let inner = around(nodes, offset, from + 1);
        if holds_cursor(nodes[from].range, offset) {
            inner.push(nodes[from].range)
        } else {
            inner
        }
    }
}

/// Whether a node is an identifier that an offset touches: on the left of the
/// offset or around it, or else on the right of it or around it.
pub open spec fn touches(node: syntax::NodeView, offset: u32, left: bool) -> bool {
    node.kind == NodeKind::Identifier && if left {
        node.range.start < offset <= node.range.end
    } else {
        node.range.start <= offset < node.range.end
    }
}

/// The first identifier, from a node on, that an offset touches.
pub open spec fn touched(nodes: Tree, offset: u32, left: bool, from: int) -> Option<int>
    decreases nodes.len() - from,
{
    if from < 0 || from >= nodes.len() {
        None
    } else if touches(nodes[from], offset, left) {
        Some(from)
    } else {
        touched(nodes, offset, left, from + 1)
    }
}

/// The identifier at an offset, the left one of two that meet there.
pub open spec fn ident_at(nodes: Tree, offset: u32) -> Option<int> {
    match touched(nodes, offset, true, 0) {
        Some(i) => Some(i),
        None => touched(nodes, offset, false, 0),
    }
}

/// The names that lead to the set of a selection, outermost first, if it is
/// made of names alone.
pub open spec fn select_path(nodes: Tree, select: int) -> Option<Seq<Seq<char>>>
    decreases nodes.len() - select,
{
    let parts = children(nodes, select);
    if parts.len() == 0 || !(0 <= select < parts[0] < nodes.len()) {
        None
    } else {
        let set = parts[0];
        match nodes[set].kind {
            NodeKind::Identifier => Some(seq![nodes[set].token]),
            NodeKind::Select => {
                let inner = children(nodes, set);
                if inner.len() < 2 || nodes[inner[1]].kind != NodeKind::Identifier {
                    None
                } else {
                    match select_path(nodes, set) {
                        Some(path) => Some(path.push(nodes[inner[1]].token)),
                        None => None,
                    }
                }
            },
            _ => None,
        }
    }
}

/// The names of the nodes in front of a node, if all of them are names.
pub open spec fn names_before(nodes: Tree, parts: Seq<int>, node: int) -> Option<Seq<Seq<char>>>
    decreases parts.len(),
{
    if parts.len() == 0 {
        None
    } else if parts[0] == node {
        Some(seq![])
    } else if nodes[parts[0]].kind != NodeKind::Identifier {
        None
    } else {
        match names_before(nodes, parts.drop_first(), node) {
            Some(names) => Some(seq![nodes[parts[0]].token] + names),
            None => None,
        }
    }
}

/// The names that an identifier is selected from, outermost first. A variable is
/// selected from none.
pub open spec fn path_to(nodes: Tree, ident: int) -> Option<Seq<Seq<char>>> {
    match enclosing(nodes, ident, ident) {
        Some(parent) => match nodes[parent].kind {
            NodeKind::Key => names_before(nodes, children(nodes, parent), ident),
            NodeKind::Select => if children(nodes, parent).len() > 0 && children(nodes, parent)[0]
                == ident {
                Some(seq![])
            } else {
                select_path(nodes, parent)
            },
            _ => Some(seq![]),
        },
        None => Some(seq![]),
    }
}

/// A name that is bound: the node of the name, the node that binds it, and the
/// node of its value, if it has one.
#[derive(Debug, PartialEq, Eq)]
pub struct Bound {
    pub name: String,
    pub key: usize,
    pub set: usize,
    pub value: Option<usize>,
}

/// What a bound name holds.
pub struct BoundView {
    pub name: Seq<char>,
    pub key: int,
    pub set: int,
    pub value: Option<int>,
}

impl DeepView for Bound {
    type V = BoundView;

    open spec fn deep_view(&self) -> BoundView {
        BoundView {
            name: self.name@,
            key: self.key as int,
            set: self.set as int,
            value: match self.value {
                Some(v) => Some(v as int),
                None => None,
            },
        }
    }
}

/// The name that a node binds, if its first child is one.
pub open spec fn first_name(nodes: Tree, node: int, set: int, value: Option<int>) -> Seq<
    BoundView,
> {
    let parts = children(nodes, node);
    if parts.len() > 0 && nodes[parts[0]].kind == NodeKind::Identifier {
        seq![BoundView { name: nodes[parts[0]].token, key: parts[0], set, value }]
    } else {
        seq![]
    }
}

/// The names among some nodes.
pub open spec fn names_among(nodes: Tree, set: int, parts: Seq<int>) -> Seq<BoundView>
    decreases parts.len(),
{
    if parts.len() == 0 {
        seq![]
    } else {
        let before = names_among(nodes, set, parts.drop_last());
        let last = parts.last();
        if nodes[last].kind == NodeKind::Identifier {
            before.push(BoundView { name: nodes[last].token, key: last, set, value: None })
        } else {
            before
        }
    }
}

/// The names that an entry of a set binds: of a binding the first component of
/// its attribute path, or all that is inherited.
pub open spec fn entry_names(nodes: Tree, set: int, entry: int) -> Seq<BoundView> {
    let parts = children(nodes, entry);
    match nodes[entry].kind {
        NodeKind::KeyValue => if parts.len() > 0 && nodes[parts[0]].kind == NodeKind::Key {
            first_name(
                nodes,
                parts[0],
                set,
                if parts.len() > 1 {
                    Some(parts[1])
                } else {
                    None
                },
            )
        } else {
            seq![]
        },
        NodeKind::Inherit => names_among(nodes, set, parts),
        _ => seq![],
    }
}

/// The names that some entries bind.
pub open spec fn entries_names(nodes: Tree, set: int, entries: Seq<int>) -> Seq<BoundView>
    decreases entries.len(),
{
    if entries.len() == 0 {
        seq![]
    } else {
        entries_names(nodes, set, entries.drop_last()) + entry_names(nodes, set, entries.last())
    }
}

/// The names in the parts of a pattern.
pub open spec fn pattern_names(nodes: Tree, lambda: int, parts: Seq<int>) -> Seq<BoundView>
    decreases parts.len(),
{
    if parts.len() == 0 {
        seq![]
    } else {
        let before = pattern_names(nodes, lambda, parts.drop_last());
        let last = parts.last();
        if nodes[last].kind == NodeKind::PatEntry || nodes[last].kind == NodeKind::PatBind {
            before + first_name(nodes, last, lambda, None)
        } else {
            before
        }
    }
}

/// The names that a node binds for what lies in it.
pub open spec fn names_bound(nodes: Tree, node: int) -> Seq<BoundView> {
    let parts = children(nodes, node);
    match nodes[node].kind {
        NodeKind::LetIn | NodeKind::LegacyLet => entries_names(nodes, node, parts),
        NodeKind::AttrSet => if nodes[node].token == "rec"@ {
            entries_names(nodes, node, parts)
        } else {
            seq![]
        },
        NodeKind::Lambda => if parts.len() == 0 {
            seq![]
        } else {
            match nodes[parts[0]].kind {
                NodeKind::Identifier => seq![
                    BoundView {
                        name: nodes[parts[0]].token,
                        key: parts[0],
                        set: node,
                        value: None,
                    },
                ],
                NodeKind::Pattern => pattern_names(nodes, node, children(nodes, parts[0])),
                _ => seq![],
            }
        },
        _ => seq![],
    }
}

/// Whether a name is bound.
pub open spec fn is_bound(scope: Seq<BoundView>, name: Seq<char>) -> bool {
    exists|i: int| 0 <= i < scope.len() && (#[trigger] scope[i]).name == name
}

/// Whether no name is bound twice.
pub open spec fn distinct(scope: Seq<BoundView>) -> bool {
    forall|i: int, j: int|
        0 <= i < j < scope.len() ==> (#[trigger] scope[i]).name != (#[trigger] scope[j]).name
}

/// A scope with more names, except those that are bound already.
pub open spec fn extended(scope: Seq<BoundView>, more: Seq<BoundView>) -> Seq<BoundView>
    decreases more.len(),
{
    if more.len() == 0 {
        scope
    } else {
        let before = extended(scope, more.drop_last());
        if is_bound(before, more.last().name) {
            before
        } else {
            before.push(more.last())
        }
    }
}

/// A scope with the names that hold around a node, from the nodes before `below`
/// on. What is bound further inside hides what is bound further outside.
pub open spec fn scope_from(
    nodes: Tree,
    node: int,
    below: int,
    scope: Seq<BoundView>,
) -> Seq<BoundView>
    decreases below,
{
    match enclosing(nodes, node, below) {
        Some(a) => if 0 <= a < below {
            scope_from(nodes, node, a, extended(scope, names_bound(nodes, a)))
        } else {
            scope
        },
        None => scope,
    }
}

/// The names that hold at a node.
pub open spec fn scope_at(nodes: Tree, node: int) -> Seq<BoundView> {
    scope_from(nodes, node, node, seq![])
}

/// The first binding of a name.
pub open spec fn bound_to(scope: Seq<BoundView>, name: Seq<char>) -> Option<BoundView>
    decreases scope.len(),
{
    if scope.len() == 0 {
        None
    } else if scope[0].name == name {
        Some(scope[0])
    } else {
        bound_to(scope.drop_first(), name)
    }
}

/// The attributes that a path leads to, from the names in a scope: each step
/// leads into the set that a name is bound to.
pub open spec fn attributes_along(
    nodes: Tree,
    scope: Seq<BoundView>,
    path: Seq<Seq<char>>,
) -> Option<Seq<BoundView>>
    decreases path.len(),
{
    if path.len() == 0 {
        Some(scope)
    } else {
        match bound_to(scope, path[0]) {
            Some(bound) => match bound.value {
                Some(v) => if nodes[v].kind == NodeKind::AttrSet {
                    attributes_along(
                        nodes,
                        extended(seq![], entries_names(nodes, v, children(nodes, v))),
                        path.drop_first(),
                    )
                } else {
                    None
                },
                None => None,
            },
            None => None,
        }
    }
}

/// Whether indices are those of nodes.
pub open spec fn in_tree(nodes: Tree, parts: Seq<int>) -> bool {
    forall|i: int| 0 <= i < parts.len() ==> 0 <= #[trigger] parts[i] < nodes.len()
}

/// Whether the nodes that names speak of are nodes of the tree.
pub open spec fn names_in_tree(nodes: Tree, scope: Seq<BoundView>) -> bool {
    forall|i: int|
        0 <= i < scope.len() ==> 0 <= (#[trigger] scope[i]).key < nodes.len() && 0
            <= scope[i].set < nodes.len() && (scope[i].value matches Some(v) ==> 0 <= v
            < nodes.len())
}

/// Indices as they are counted in proofs.
pub open spec fn ints(s: Seq<usize>) -> Seq<int> {
    s.map_values(|i: usize| i as int)
}

/// The last node before `below` whose subtree a node lies in.
pub(crate) fn find_enclosing(nodes: &Vec<Node>, node: usize, below: usize) -> (r: Option<usize>)
    requires
        below <= node < nodes@.len(),
    ensures
        match r {
            Some(a) => a < below && enclosing(nodes.deep_view(), node as int, below as int)
                == Some(a as int),
            None => enclosing(nodes.deep_view(), node as int, below as int) is None,
        },
{
    let ghost tree = nodes.deep_view();
    let mut i: usize = below;
    while i > 0
        invariant
            i <= below <= node < nodes@.len(),
            tree == nodes.deep_view(),
            enclosing(tree, node as int, below as int) == enclosing(tree, node as int, i as int),
        decreases i,
    {
        assert(tree[i - 1] == nodes@[i - 1].deep_view());
        if nodes[i - 1].extent > node - (i - 1) {
            return Some(i - 1);
        }
        i = i - 1;
    }
    None
}

/// The children of a node.
fn child_nodes(nodes: &Vec<Node>, node: usize) -> (r: Vec<usize>)
    requires
        syntax::nested(nodes.deep_view()),
        node < nodes@.len(),
    ensures
        ints(r@) == children(nodes.deep_view(), node as int),
        in_tree(nodes.deep_view(), ints(r@)),
        forall|i: int| 0 <= i < r@.len() ==> node < #[trigger] r@[i] < nodes@.len(),
{
    let ghost tree = nodes.deep_view();
    assert(tree[node as int] == nodes@[node as int].deep_view());
    assert(tree[node as int].extent <= tree.len() - node);
    assert(tree.len() == nodes.len() <= usize::MAX);
    let to: usize = node + nodes[node].extent;
    let mut found: Vec<usize> = Vec::new();
    let mut i: usize = node + 1;
    assert(ints(found@) =~= seq![]);
    assert(seq![] + roots(tree, i as int, to as int) =~= roots(tree, i as int, to as int));
    while i < to
        invariant
            tree == nodes.deep_view(),
            syntax::nested(tree),
            to == node + tree[node as int].extent <= nodes@.len(),
            node < i <= to,
            forall|k: int| 0 <= k < found@.len() ==> node < #[trigger] found@[k] < nodes@.len(),
            ints(found@) + roots(tree, i as int, to as int) == roots(tree, node + 1, to as int),
        decreases to - i,
    {
        let ghost before = ints(found@);
        assert(tree[i as int] == nodes@[i as int].deep_view());
        assert(1 <= tree[i as int].extent <= tree.len() - i);
        assert(i + tree[i as int].extent <= node + tree[node as int].extent);
        found.push(i);
        proof {
            let next = i + nodes@[i as int].extent;
            assert(ints(found@) =~= before.push(i as int));
            assert(roots(tree, i as int, to as int) == seq![i as int] + roots(
                tree,
                next,
                to as int,
            ));
            assert(ints(found@) + roots(tree, next, to as int) =~= before + roots(
                tree,
                i as int,
                to as int,
            ));
        }
        i = i + nodes[i].extent;
    }
    assert(roots(tree, i as int, to as int) =~= seq![]);
    assert(ints(found@) + seq![] =~= ints(found@));
    found
}

/// The bytes of the nodes around an offset, the innermost first.
pub fn ranges_around(nodes: &Vec<Node>, offset: u32) -> (r: Vec<TextRange>)
    ensures
        r@ == around(nodes.deep_view(), offset, 0),
{
    let ghost tree = nodes.deep_view();
    let mut found: Vec<TextRange> = Vec::new();
    let mut i: usize = nodes.len();
    while i > 0
        invariant
            i <= nodes@.len(),
            tree == nodes.deep_view(),
            found@ == around(tree, offset, i as int),
        decreases i,
    {
        let range = nodes[i - 1].range;
        assert(tree[i - 1] == nodes@[i - 1].deep_view());
        let holds: bool = if offset == 0 {
            range.start == 0 && range.end > 0
        } else {
            range.start < offset && offset <= range.end
        };
        if holds {
            found.push(range);
        }
        i = i - 1;
    }
    found
}

/// The first identifier that an offset touches.
fn find_touched(nodes: &Vec<Node>, offset: u32, left: bool) -> (r: Option<usize>)
    ensures
        match r {
            Some(i) => i < nodes@.len() && nodes@[i as int].kind == NodeKind::Identifier
                && touched(nodes.deep_view(), offset, left, 0) == Some(i as int),
            None => touched(nodes.deep_view(), offset, left, 0) is None,
        },
{
    let ghost tree = nodes.deep_view();
    let mut i: usize = 0;
    while i < nodes.len()
        invariant
            i <= nodes@.len(),
            tree == nodes.deep_view(),
            touched(tree, offset, left, 0) == touched(tree, offset, left, i as int),
        decreases nodes.len() - i,
    {
        let range = nodes[i].range;
        assert(tree[i as int] == nodes@[i as int].deep_view());
        let meets: bool = if left {
            range.start < offset && offset <= range.end
        } else {
            range.start <= offset && offset < range.end
        };
        if nodes[i].kind == NodeKind::Identifier && meets {
            return Some(i);
        }
        i = i + 1;
    }
    None
}

/// The identifier at an offset.
pub fn find_ident(nodes: &Vec<Node>, offset: u32) -> (r: Option<usize>)
    ensures
        match r {
            Some(i) => i < nodes@.len() && nodes@[i as int].kind == NodeKind::Identifier
                && ident_at(nodes.deep_view(), offset) == Some(i as int),
            None => ident_at(nodes.deep_view(), offset) is None,
        },
{
    match find_touched(nodes, offset, true) {
        Some(i) => Some(i),
        None => find_touched(nodes, offset, false),
    }
}

/// The names that lead to the set of a selection.
fn find_select_path(nodes: &Vec<Node>, select: usize) -> (r: Option<Vec<String>>)
    requires
        syntax::nested(nodes.deep_view()),
        select < nodes@.len(),
    ensures
        r.deep_view() == select_path(nodes.deep_view(), select as int),
    decreases nodes.len() - select,
{
    let ghost tree = nodes.deep_view();
    let parts = child_nodes(nodes, select);
    assert(ints(parts@).len() == parts@.len());
    if parts.len() == 0 {
        return None;
    }
    let set: usize = parts[0];
    assert(ints(parts@)[0] == set);
    assert(tree[set as int] == nodes@[set as int].deep_view());
    match nodes[set].kind {
        NodeKind::Identifier => {
            let mut path: Vec<String> = Vec::new();
            path.push(nodes[set].token.clone());
            assert(path.deep_view() =~= seq![tree[set as int].token]);
            Some(path)
        },
        NodeKind::Select => {
            let inner = child_nodes(nodes, set);
            assert(ints(inner@).len() == inner@.len());
            if inner.len() < 2 {
                return None;
            }
            let index: usize = inner[1];
            assert(ints(inner@)[1] == index);
            assert(tree[index as int] == nodes@[index as int].deep_view());
            if nodes[index].kind != NodeKind::Identifier {
                return None;
            }
            match find_select_path(nodes, set) {
                Some(mut path) => {
                    let ghost before = path.deep_view();
                    path.push(nodes[index].token.clone());
                    assert(path.deep_view() =~= before.push(tree[index as int].token));
                    Some(path)
                },
                None => None,
            }
        },
        _ => None,
    }
}

/// The names of the nodes in front of a node.
fn find_names_before(nodes: &Vec<Node>, parts: &Vec<usize>, node: usize) -> (r: Option<
    Vec<String>,
>)
    requires
        in_tree(nodes.deep_view(), ints(parts@)),
    ensures
        r.deep_view() == names_before(nodes.deep_view(), ints(parts@), node as int),
{
    let ghost tree = nodes.deep_view();
    let ghost all = ints(parts@);
    let mut names: Vec<String> = Vec::new();
    let mut i: usize = 0;
    assert(names.deep_view() =~= seq![]);
    assert(all.skip(0) =~= all);
    proof {
        if let Some(rest) = names_before(tree, all, node as int) {
            assert(seq![] + rest =~= rest);
        }
    }
    while i < parts.len()
        invariant
            i <= parts@.len(),
            tree == nodes.deep_view(),
            all == ints(parts@),
            in_tree(tree, all),
            match names_before(tree, all.skip(i as int), node as int) {
                Some(rest) => names_before(tree, all, node as int) == Some(
                    names.deep_view() + rest,
                ),
                None => names_before(tree, all, node as int) is None,
            },
        decreases parts.len() - i,
    {
        let part: usize = parts[i];
        let ghost before = names.deep_view();
        let ghost rest = all.skip(i as int);
        assert(all[i as int] == part);
        assert(rest[0] == part);
        assert(rest.drop_first() =~= all.skip(i + 1));
        if part == node {
            assert(before + seq![] =~= before);
            return Some(names);
        }
        assert(tree[part as int] == nodes@[part as int].deep_view());
        if nodes[part].kind != NodeKind::Identifier {
            return None;
        }
        names.push(nodes[part].token.clone());
        proof {
            let token = tree[part as int].token;
            assert(names.deep_view() =~= before.push(token));
            if let Some(tail) = names_before(tree, rest.drop_first(), node as int) {
                assert(before + (seq![token] + tail) =~= names.deep_view() + tail);
            }
        }
        i = i + 1;
    }
    None
}

/// The names that an identifier is selected from, outermost first.
pub fn find_path(nodes: &Vec<Node>, ident: usize) -> (r: Option<Vec<String>>)
    requires
        syntax::nested(nodes.deep_view()),
        ident < nodes@.len(),
    ensures
        r.deep_view() == path_to(nodes.deep_view(), ident as int),
{
    let ghost tree = nodes.deep_view();
    let none: Vec<String> = Vec::new();
    assert(none.deep_view() =~= seq![]);
    match find_enclosing(nodes, ident, ident) {
        Some(parent) => {
            assert(tree[parent as int] == nodes@[parent as int].deep_view());
            match nodes[parent].kind {
                NodeKind::Key => {
                    let parts = child_nodes(nodes, parent);
                    find_names_before(nodes, &parts, ident)
                },
                NodeKind::Select => {
                    let parts = child_nodes(nodes, parent);
                    assert(ints(parts@).len() == parts@.len());
                    if parts.len() > 0 && parts[0] == ident {
                        assert(ints(parts@)[0] == ident);
                        Some(none)
                    } else {
                        if parts.len() > 0 {
                            assert(ints(parts@)[0] == parts@[0]);
                        }
                        find_select_path(nodes, parent)
                    }
                },
                _ => Some(none),
            }
        },
        None => Some(none),
    }
}

/// The index of the first binding of a name.
pub fn find_bound(scope: &Vec<Bound>, name: &String) -> (r: Option<usize>)
    ensures
        match r {
            Some(i) => i < scope@.len() && bound_to(scope.deep_view(), name@) == Some(
                scope@[i as int].deep_view(),
            ) && is_bound(scope.deep_view(), name@),
            None => bound_to(scope.deep_view(), name@) is None && !is_bound(
                scope.deep_view(),
                name@,
            ),
        },
{
    let ghost all = scope.deep_view();
    let mut i: usize = 0;
    assert(all.skip(0) =~= all);
    while i < scope.len()
        invariant
            i <= scope@.len(),
            all == scope.deep_view(),
            bound_to(all.skip(i as int), name@) == bound_to(all, name@),
            forall|k: int| 0 <= k < i ==> (#[trigger] all[k]).name != name@,
        decreases scope.len() - i,
    {
        proof {
            assert(all[i as int] == scope@[i as int].deep_view());
            assert(all.skip(i as int)[0] == all[i as int]);
            assert(all.skip(i as int).drop_first() =~= all.skip(i + 1));
        }
        if scope[i].name == *name {
            return Some(i);
        }
        i = i + 1;
    }
    None
}

/// Adds a name to a scope, unless it is bound already.
fn bind(scope: &mut Vec<Bound>, bound: Bound)
    requires
        distinct(old(scope).deep_view()),
    ensures
        final(scope).deep_view() == extended(old(scope).deep_view(), seq![bound.deep_view()]),
        distinct(final(scope).deep_view()),
{
    let ghost before = scope.deep_view();
    proof {
        let more = seq![bound.deep_view()];
        assert(more.drop_last() =~= seq![]);
        assert(extended(before, more.drop_last()) == before);
    }
    if find_bound(scope, &bound.name).is_none() {
        scope.push(bound);
        assert(scope.deep_view() =~= before.push(bound.deep_view()));
    }
}

proof fn lemma_extended_concat(scope: Seq<BoundView>, a: Seq<BoundView>, b: Seq<BoundView>)
    ensures
        extended(scope, a + b) == extended(extended(scope, a), b),
    decreases b.len(),
{
    if b.len() == 0 {
        assert(a + b =~= a);
    } else {
        lemma_extended_concat(scope, a, b.drop_last());
        assert((a + b).drop_last() =~= a + b.drop_last());
    }
}

proof fn lemma_extended_in_tree(nodes: Tree, scope: Seq<BoundView>, more: Seq<BoundView>)
    requires
        names_in_tree(nodes, scope),
        names_in_tree(nodes, more),
    ensures
        names_in_tree(nodes, extended(scope, more)),
    decreases more.len(),
{
    if more.len() > 0 {
        assert(names_in_tree(nodes, more.drop_last()));
        lemma_extended_in_tree(nodes, scope, more.drop_last());
    }
}

/// Adds the name that is the first child of a node, if it is one.
fn bind_first(
    scope: &mut Vec<Bound>,
    nodes: &Vec<Node>,
    node: usize,
    set: usize,
    value: Option<usize>,
)
    requires
        syntax::nested(nodes.deep_view()),
        node < nodes@.len(),
        set < nodes@.len(),
        value matches Some(v) ==> v < nodes@.len(),
        distinct(old(scope).deep_view()),
        names_in_tree(nodes.deep_view(), old(scope).deep_view()),
    ensures
        final(scope).deep_view() == extended(
            old(scope).deep_view(),
            first_name(
                nodes.deep_view(),
                node as int,
                set as int,
                match value {
                    Some(v) => Some(v as int),
                    None => None,
                },
            ),
        ),
        distinct(final(scope).deep_view()),
        names_in_tree(nodes.deep_view(), final(scope).deep_view()),
{
    let ghost tree = nodes.deep_view();
    let ghost before = scope.deep_view();
    let parts = child_nodes(nodes, node);
    assert(ints(parts@).len() == parts@.len());
    if parts.len() > 0 {
        let key: usize = parts[0];
        assert(ints(parts@)[0] == key);
        assert(tree[key as int] == nodes@[key as int].deep_view());
        if nodes[key].kind == NodeKind::Identifier {
            let bound = Bound { name: nodes[key].token.clone(), key, set, value };
            proof {
                lemma_extended_in_tree(tree, before, seq![bound.deep_view()]);
            }
            bind(scope, bound);
        }
    }
}

/// Adds the names among some nodes.
fn bind_names(scope: &mut Vec<Bound>, nodes: &Vec<Node>, set: usize, parts: &Vec<usize>)
    requires
        in_tree(nodes.deep_view(), ints(parts@)),
        set < nodes@.len(),
        distinct(old(scope).deep_view()),
        names_in_tree(nodes.deep_view(), old(scope).deep_view()),
    ensures
        final(scope).deep_view() == extended(
            old(scope).deep_view(),
            names_among(nodes.deep_view(), set as int, ints(parts@)),
        ),
        distinct(final(scope).deep_view()),
        names_in_tree(nodes.deep_view(), final(scope).deep_view()),
{
    let ghost tree = nodes.deep_view();
    let ghost all = ints(parts@);
    let ghost first = scope.deep_view();
    let mut i: usize = 0;
    assert(all.take(0) =~= seq![]);
    while i < parts.len()
        invariant
            i <= parts@.len(),
            tree == nodes.deep_view(),
            all == ints(parts@),
            in_tree(tree, all),
            set < nodes@.len(),
            distinct(scope.deep_view()),
            names_in_tree(tree, scope.deep_view()),
            scope.deep_view() == extended(first, names_among(tree, set as int, all.take(i as int))),
        decreases parts.len() - i,
    {
        let part: usize = parts[i];
        let ghost before = scope.deep_view();
        let ghost names = names_among(tree, set as int, all.take(i as int));
        proof {
            assert(all[i as int] == part);
            assert(all.take(i + 1).drop_last() =~= all.take(i as int));
            assert(tree[part as int] == nodes@[part as int].deep_view());
        }
        if nodes[part].kind == NodeKind::Identifier {
            let bound = Bound { name: nodes[part].token.clone(), key: part, set, value: None };
            proof {
                lemma_extended_in_tree(tree, before, seq![bound.deep_view()]);
                lemma_extended_concat(first, names, seq![bound.deep_view()]);
                assert(names + seq![bound.deep_view()] =~= names.push(bound.deep_view()));
            }
            bind(scope, bound);
        }
        i = i + 1;
    }
    assert(all.take(parts@.len() as int) =~= all);
}

/// Adds the names that an entry of a set binds.
fn bind_entry(scope: &mut Vec<Bound>, nodes: &Vec<Node>, set: usize, entry: usize)
    requires
        syntax::nested(nodes.deep_view()),
        set < nodes@.len(),
        entry < nodes@.len(),
        distinct(old(scope).deep_view()),
        names_in_tree(nodes.deep_view(), old(scope).deep_view()),
    ensures
        final(scope).deep_view() == extended(
            old(scope).deep_view(),
            entry_names(nodes.deep_view(), set as int, entry as int),
        ),
        distinct(final(scope).deep_view()),
        names_in_tree(nodes.deep_view(), final(scope).deep_view()),
{
    let ghost tree = nodes.deep_view();
    assert(tree[entry as int] == nodes@[entry as int].deep_view());
    let parts = child_nodes(nodes, entry);
    assert(ints(parts@).len() == parts@.len());
    match nodes[entry].kind {
        NodeKind::KeyValue => {
            if parts.len() > 0 {
                let key: usize = parts[0];
                assert(ints(parts@)[0] == key);
                assert(tree[key as int] == nodes@[key as int].deep_view());
                if nodes[key].kind == NodeKind::Key {
                    let value: Option<usize> = if parts.len() > 1 {
                        assert(ints(parts@)[1] == parts@[1]);
                        Some(parts[1])
                    } else {
                        None
                    };
                    bind_first(scope, nodes, key, set, value);
                }
            }
        },
        NodeKind::Inherit => {
            bind_names(scope, nodes, set, &parts);
        },
        _ => {},
    }
}

/// Adds the names that the entries of a set bind.
fn bind_entries(scope: &mut Vec<Bound>, nodes: &Vec<Node>, set: usize)
    requires
        syntax::nested(nodes.deep_view()),
        set < nodes@.len(),
        distinct(old(scope).deep_view()),
        names_in_tree(nodes.deep_view(), old(scope).deep_view()),
    ensures
        final(scope).deep_view() == extended(
            old(scope).deep_view(),
            entries_names(
                nodes.deep_view(),
                set as int,
                children(nodes.deep_view(), set as int),
            ),
        ),
        distinct(final(scope).deep_view()),
        names_in_tree(nodes.deep_view(), final(scope).deep_view()),
{
    let ghost tree = nodes.deep_view();
    let ghost first = scope.deep_view();
    let entries = child_nodes(nodes, set);
    let ghost all = ints(entries@);
    let mut i: usize = 0;
    assert(all.take(0) =~= seq![]);
    while i < entries.len()
        invariant
            i <= entries@.len(),
            tree == nodes.deep_view(),
            syntax::nested(tree),
            all == ints(entries@),
            in_tree(tree, all),
            set < nodes@.len(),
            distinct(scope.deep_view()),
            names_in_tree(tree, scope.deep_view()),
            scope.deep_view() == extended(
                first,
                entries_names(tree, set as int, all.take(i as int)),
            ),
        decreases entries.len() - i,
    {
        proof {
            assert(all[i as int] == entries@[i as int]);
            assert(all.take(i + 1).drop_last() =~= all.take(i as int));
            lemma_extended_concat(
                first,
                entries_names(tree, set as int, all.take(i as int)),
                entry_names(tree, set as int, all[i as int]),
            );
        }
        bind_entry(scope, nodes, set, entries[i]);
        i = i + 1;
    }
    assert(all.take(entries@.len() as int) =~= all);
}

/// Adds the names in a pattern.
#[verifier::rlimit(30)]
fn bind_pattern(scope: &mut Vec<Bound>, nodes: &Vec<Node>, lambda: usize, pattern: usize)
    requires
        syntax::nested(nodes.deep_view()),
        lambda < nodes@.len(),
        pattern < nodes@.len(),
        distinct(old(scope).deep_view()),
        names_in_tree(nodes.deep_view(), old(scope).deep_view()),
    ensures
        final(scope).deep_view() == extended(
            old(scope).deep_view(),
            pattern_names(
                nodes.deep_view(),
                lambda as int,
                children(nodes.deep_view(), pattern as int),
            ),
        ),
        distinct(final(scope).deep_view()),
        names_in_tree(nodes.deep_view(), final(scope).deep_view()),
{
    let ghost tree = nodes.deep_view();
    let ghost first = scope.deep_view();
    let parts = child_nodes(nodes, pattern);
    let ghost all = ints(parts@);
    let mut i: usize = 0;
    assert(all.take(0) =~= seq![]);
    while i < parts.len()
        invariant
            i <= parts@.len(),
            tree == nodes.deep_view(),
            syntax::nested(tree),
            all == ints(parts@),
            in_tree(tree, all),
            lambda < nodes@.len(),
            distinct(scope.deep_view()),
            names_in_tree(tree, scope.deep_view()),
            scope.deep_view() == extended(
                first,
                pattern_names(tree, lambda as int, all.take(i as int)),
            ),
        decreases parts.len() - i,
    {
        let part: usize = parts[i];
        proof {
            assert(all[i as int] == part);
            assert(all.take(i + 1).drop_last() =~= all.take(i as int));
            assert(tree[part as int] == nodes@[part as int].deep_view());
            lemma_extended_concat(
                first,
                pattern_names(tree, lambda as int, all.take(i as int)),
                first_name(tree, part as int, lambda as int, None),
            );
        }
        if nodes[part].kind == NodeKind::PatEntry || nodes[part].kind == NodeKind::PatBind {
            bind_first(scope, nodes, part, lambda, None);
        }
        i = i + 1;
    }
    assert(all.take(parts@.len() as int) =~= all);
}

/// Adds the names that a node binds for what lies in it.
fn bind_node(scope: &mut Vec<Bound>, nodes: &Vec<Node>, node: usize)
    requires
        syntax::nested(nodes.deep_view()),
        node < nodes@.len(),
        distinct(old(scope).deep_view()),
        names_in_tree(nodes.deep_view(), old(scope).deep_view()),
    ensures
        final(scope).deep_view() == extended(
            old(scope).deep_view(),
            names_bound(nodes.deep_view(), node as int),
        ),
        distinct(final(scope).deep_view()),
        names_in_tree(nodes.deep_view(), final(scope).deep_view()),
{
    let ghost tree = nodes.deep_view();
    let ghost before = scope.deep_view();
    assert(tree[node as int] == nodes@[node as int].deep_view());
    match nodes[node].kind {
        NodeKind::LetIn | NodeKind::LegacyLet => {
            bind_entries(scope, nodes, node);
        },
        NodeKind::AttrSet => {
            if text::same(nodes[node].token.as_str(), "rec") {
                bind_entries(scope, nodes, node);
            }
        },
        NodeKind::Lambda => {
            let parts = child_nodes(nodes, node);
            assert(ints(parts@).len() == parts@.len());
            if parts.len() > 0 {
                let arg: usize = parts[0];
                assert(ints(parts@)[0] == arg);
                assert(tree[arg as int] == nodes@[arg as int].deep_view());
                match nodes[arg].kind {
                    NodeKind::Identifier => {
                        let bound = Bound {
                            name: nodes[arg].token.clone(),
                            key: arg,
                            set: node,
                            value: None,
                        };
                        proof {
                            lemma_extended_in_tree(tree, before, seq![bound.deep_view()]);
                        }
                        bind(scope, bound);
                    },
                    NodeKind::Pattern => {
                        bind_pattern(scope, nodes, node, arg);
                    },
                    _ => {},
                }
            }
        },
        _ => {},
    }
}

/// The names that hold at a node, the innermost first. None occurs twice.
pub fn scope_for(nodes: &Vec<Node>, node: usize) -> (r: Vec<Bound>)
    requires
        syntax::nested(nodes.deep_view()),
        node < nodes@.len(),
    ensures
        r.deep_view() == scope_at(nodes.deep_view(), node as int),
        distinct(r.deep_view()),
        names_in_tree(nodes.deep_view(), r.deep_view()),
{
    let ghost tree = nodes.deep_view();
    let mut scope: Vec<Bound> = Vec::new();
    let mut below: usize = node;
    assert(scope.deep_view() =~= seq![]);
    loop
        invariant_except_break
            below <= node < nodes@.len(),
            tree == nodes.deep_view(),
            syntax::nested(tree),
            distinct(scope.deep_view()),
            names_in_tree(tree, scope.deep_view()),
            scope_from(tree, node as int, below as int, scope.deep_view()) == scope_at(
                tree,
                node as int,
            ),
        ensures
            scope.deep_view() == scope_at(tree, node as int),
            distinct(scope.deep_view()),
            names_in_tree(tree, scope.deep_view()),
        decreases below,
    {
        match find_enclosing(nodes, node, below) {
            Some(above) => {
                bind_node(&mut scope, nodes, above);
                below = above;
            },
            None => {
                break;
            },
        }
    }
    scope
}

/// The attributes that a path leads to, from the names in a scope. None occurs
/// twice, if none does in the scope.
pub fn follow_path(nodes: &Vec<Node>, scope: Vec<Bound>, path: &Vec<String>) -> (r: Option<
    Vec<Bound>,
>)
    requires
        syntax::nested(nodes.deep_view()),
        distinct(scope.deep_view()),
        names_in_tree(nodes.deep_view(), scope.deep_view()),
    ensures
        r.deep_view() == attributes_along(
            nodes.deep_view(),
            scope.deep_view(),
            path.deep_view(),
        ),
        r matches Some(found) ==> distinct(found.deep_view()) && names_in_tree(
            nodes.deep_view(),
            found.deep_view(),
        ),
{
    let ghost tree = nodes.deep_view();
    let ghost first = scope.deep_view();
    let ghost all = path.deep_view();
    let mut current: Vec<Bound> = scope;
    let mut i: usize = 0;
    assert(all.skip(0) =~= all);
    while i < path.len()
        invariant
            i <= path@.len(),
            tree == nodes.deep_view(),
            syntax::nested(tree),
            all == path.deep_view(),
            first == scope.deep_view(),
            distinct(current.deep_view()),
            names_in_tree(tree, current.deep_view()),
            attributes_along(tree, current.deep_view(), all.skip(i as int)) == attributes_along(
                tree,
                first,
                all,
            ),
        decreases path.len() - i,
    {
        proof {
            assert(all.skip(i as int)[0] == path@[i as int]@);
            assert(all.skip(i as int).drop_first() =~= all.skip(i + 1));
        }
        let found: usize = match find_bound(&current, &path[i]) {
            Some(found) => found,
            None => {
                return None;
            },
        };
        assert(current.deep_view()[found as int] == current@[found as int].deep_view());
        let value: usize = match current[found].value {
            Some(value) => value,
            None => {
                return None;
            },
        };
        assert(tree[value as int] == nodes@[value as int].deep_view());
        if nodes[value].kind != NodeKind::AttrSet {
            return None;
        }
        let mut attributes: Vec<Bound> = Vec::new();
        assert(attributes.deep_view() =~= seq![]);
        bind_entries(&mut attributes, nodes, value);
        current = attributes;
        i = i + 1;
    }
    assert(all.skip(path@.len() as int) =~= seq![]);
    Some(current)
}

/// Of the stretches around an offset, each one lies in the next.
pub proof fn law_stretches_widen(nodes: Tree, offset: u32)
    requires
        syntax::nested(nodes),
    ensures
        forall|k: int, l: int|
            0 <= k <= l < around(nodes, offset, 0).len() ==> (#[trigger] around(
                nodes,
                offset,
                0,
            )[l]).start <= (#[trigger] around(nodes, offset, 0)[k]).start && around(
                nodes,
                offset,
                0,
            )[k].end <= around(nodes, offset, 0)[l].end,
{
    lemma_around(nodes, offset, 0);
}

proof fn lemma_around(nodes: Tree, offset: u32, from: int)
    requires
        syntax::nested(nodes),
        0 <= from <= nodes.len(),
    ensures
        ({
            let all = around(nodes, offset, from);
            &&& forall|k: int|
                0 <= k < all.len() ==> exists|i: int|
                    from <= i < nodes.len() && (#[trigger] nodes[i]).range == #[trigger] all[k]
                        && holds_cursor(nodes[i].range, offset)
            &&& forall|k: int, l: int|
                0 <= k <= l < all.len() ==> (#[trigger] all[l]).start <= (#[trigger] all[k]).start
                    && all[k].end <= all[l].end
        }),
    decreases nodes.len() - from,
{
    if from < nodes.len() {
        lemma_around(nodes, offset, from + 1);
        let inner = around(nodes, offset, from + 1);
        let all = around(nodes, offset, from);
        assert forall|k: int| 0 <= k < all.len() implies exists|i: int|
            from <= i < nodes.len() && (#[trigger] nodes[i]).range == #[trigger] all[k]
                && holds_cursor(nodes[i].range, offset) by {
            if k < inner.len() {
                assert(all[k] == inner[k]);
            } else {
                assert(nodes[from].range == all[k]);
            }
        }
        assert forall|k: int, l: int| 0 <= k <= l < all.len() implies (#[trigger] all[l]).start
            <= (#[trigger] all[k]).start && all[k].end <= all[l].end by {
            if l < inner.len() {
                assert(all[k] == inner[k] && all[l] == inner[l]);
            } else if k < inner.len() {
                assert(all[k] == inner[k]);
                let i = choose|i: int|
                    from + 1 <= i < nodes.len() && (#[trigger] nodes[i]).range == inner[k]
                        && holds_cursor(nodes[i].range, offset);
                assert(holds_cursor(nodes[from].range, offset));
                assert(i < from + nodes[from].extent);
            }
        }
    }
}

/// What is bound further inside hides what is bound further outside: a name that
/// is bound stays bound to what it was.
pub proof fn law_inner_names_hide_outer_ones(
    scope: Seq<BoundView>,
    more: Seq<BoundView>,
    name: Seq<char>,
)
    requires
        is_bound(scope, name),
    ensures
        bound_to(extended(scope, more), name) == bound_to(scope, name),
    decreases more.len(),
{
    if more.len() > 0 {
        law_inner_names_hide_outer_ones(scope, more.drop_last(), name);
        let before = extended(scope, more.drop_last());
        lemma_extended_keeps(scope, more.drop_last());
        let i = choose|i: int| 0 <= i < scope.len() && (#[trigger] scope[i]).name == name;
        assert(before[i] == scope[i]);
        if !is_bound(before, more.last().name) {
            lemma_bound_to_push(before, more.last(), name);
        }
    }
}

proof fn lemma_extended_keeps(scope: Seq<BoundView>, more: Seq<BoundView>)
    ensures
        extended(scope, more).len() >= scope.len(),
        extended(scope, more).take(scope.len() as int) == scope,
        forall|i: int| 0 <= i < scope.len() ==> #[trigger] extended(scope, more)[i] == scope[i],
    decreases more.len(),
{
    if more.len() > 0 {
        lemma_extended_keeps(scope, more.drop_last());
    }
    assert(extended(scope, more).take(scope.len() as int) =~= scope);
}

proof fn lemma_bound_to_push(scope: Seq<BoundView>, last: BoundView, name: Seq<char>)
    requires
        is_bound(scope, name),
    ensures
        bound_to(scope.push(last), name) == bound_to(scope, name),
    decreases scope.len(),
{
    assert(scope.push(last)[0] == scope[0]);
    if scope[0].name != name {
        let i = choose|i: int| 0 <= i < scope.len() && (#[trigger] scope[i]).name == name;
        assert(scope.drop_first()[i - 1] == scope[i]);
        lemma_bound_to_push(scope.drop_first(), last, name);
        assert(scope.push(last).drop_first() =~= scope.drop_first().push(last));
    }
}

/// Whether each name is that of the identifier which binds it.
pub open spec fn well_named(nodes: Tree, scope: Seq<BoundView>) -> bool {
    forall|i: int|
        #![trigger scope[i]]
        0 <= i < scope.len() ==> 0 <= scope[i].key < nodes.len() && nodes[scope[i].key].kind
            == NodeKind::Identifier && nodes[scope[i].key].token == scope[i].name
}

proof fn lemma_roots_in_tree(nodes: Tree, from: int, to: int)
    ensures
        in_tree(nodes, roots(nodes, from, to)),
    decreases to - from,
{
    if 0 <= from < to <= nodes.len() && nodes[from].extent != 0 && from + nodes[from].extent <= to {
        lemma_roots_in_tree(nodes, from + nodes[from].extent, to);
    }
}

proof fn lemma_first_name(nodes: Tree, node: int, set: int, value: Option<int>)
    ensures
        well_named(nodes, first_name(nodes, node, set, value)),
{
    lemma_roots_in_tree(nodes, node + 1, node + nodes[node].extent);
}

proof fn lemma_names_among(nodes: Tree, set: int, parts: Seq<int>)
    requires
        in_tree(nodes, parts),
    ensures
        well_named(nodes, names_among(nodes, set, parts)),
    decreases parts.len(),
{
    if parts.len() > 0 {
        lemma_names_among(nodes, set, parts.drop_last());
    }
}

proof fn lemma_entries_names(nodes: Tree, set: int, entries: Seq<int>)
    ensures
        well_named(nodes, entries_names(nodes, set, entries)),
    decreases entries.len(),
{
    if entries.len() > 0 {
        let entry = entries.last();
        let parts = children(nodes, entry);
        lemma_entries_names(nodes, set, entries.drop_last());
        lemma_roots_in_tree(nodes, entry + 1, entry + nodes[entry].extent);
        lemma_names_among(nodes, set, parts);
        lemma_first_name(
            nodes,
            parts[0],
            set,
            if parts.len() > 1 {
                Some(parts[1])
            } else {
                None
            },
        );
        assert(well_named(nodes, entry_names(nodes, set, entry)));
    }
}

proof fn lemma_pattern_names(nodes: Tree, lambda: int, parts: Seq<int>)
    ensures
        well_named(nodes, pattern_names(nodes, lambda, parts)),
    decreases parts.len(),
{
    if parts.len() > 0 {
        lemma_pattern_names(nodes, lambda, parts.drop_last());
        lemma_first_name(nodes, parts.last(), lambda, None);
    }
}

proof fn lemma_names_bound(nodes: Tree, node: int)
    ensures
        well_named(nodes, names_bound(nodes, node)),
{
    let parts = children(nodes, node);
    lemma_roots_in_tree(nodes, node + 1, node + nodes[node].extent);
    lemma_entries_names(nodes, node, parts);
    lemma_pattern_names(nodes, node, children(nodes, parts[0]));
}

proof fn lemma_extended_names(nodes: Tree, scope: Seq<BoundView>, more: Seq<BoundView>)
    requires
        well_named(nodes, scope),
        well_named(nodes, more),
    ensures
        well_named(nodes, extended(scope, more)),
    decreases more.len(),
{
    if more.len() > 0 {
        assert(well_named(nodes, more.drop_last()));
        lemma_extended_names(nodes, scope, more.drop_last());
    }
}

proof fn lemma_scope_names(nodes: Tree, node: int, below: int, scope: Seq<BoundView>)
    requires
        well_named(nodes, scope),
    ensures
        well_named(nodes, scope_from(nodes, node, below, scope)),
    decreases below,
{
    if let Some(a) = enclosing(nodes, node, below) {
        if 0 <= a < below {
            lemma_names_bound(nodes, a);
            lemma_extended_names(nodes, scope, names_bound(nodes, a));
            lemma_scope_names(nodes, node, a, extended(scope, names_bound(nodes, a)));
        }
    }
}

/// Every name in a scope, and every attribute that a path leads to from there,
/// is the name of the identifier that binds it.
pub proof fn law_names_are_those_of_their_bindings(
    nodes: Tree,
    node: int,
    scope: Seq<BoundView>,
    path: Seq<Seq<char>>,
)
    requires
        well_named(nodes, scope),
    ensures
        well_named(nodes, scope_at(nodes, node)),
        attributes_along(nodes, scope, path) matches Some(found) ==> well_named(nodes, found),
    decreases path.len(),
{
    lemma_scope_names(nodes, node, node, seq![]);
    if path.len() > 0 {
        if let Some(bound) = bound_to(scope, path[0]) {
            if let Some(v) = bound.value {
                let entries = entries_names(nodes, v, children(nodes, v));
                lemma_entries_names(nodes, v, children(nodes, v));
                lemma_extended_names(nodes, seq![], entries);
                law_names_are_those_of_their_bindings(
                    nodes,
                    node,
                    extended(seq![], entries),
                    path.drop_first(),
                );
            }
        }
    }
}

} // verus!
