//! Which names are bound where, said of the tree itself: a let, a recursive set
//! or a function binds names for all that lies in it, and what is bound further
//! inside hides what is bound further outside.

use vstd::prelude::*;

use crate::syntax;
use crate::syntax::NodeKind;
use crate::tree;

verus! {

/// Whether a node lies in another one.
pub open spec fn lies_in(nodes: tree::Tree, outer: int, node: int) -> bool {
    outer < node < outer + nodes[outer].extent
}

/// Whether a node is a child of another one: it lies in that one, and in none
/// that lies between the two.
pub open spec fn is_child(nodes: tree::Tree, parent: int, node: int) -> bool {
    lies_in(nodes, parent, node) && forall|q: int|
        parent < q < node ==> !#[trigger] lies_in(nodes, q, node)
}

/// Whether a node names an entry of a set: it is the first part of the path
/// that a value is bound to, or one of the names that are inherited.
pub open spec fn names_entry(nodes: tree::Tree, entry: int, key: int) -> bool {
    ||| nodes[entry].kind == NodeKind::KeyValue && lies_in(nodes, entry, entry + 1)
        && nodes[entry + 1].kind == NodeKind::Key && lies_in(nodes, entry + 1, entry + 2) && key
        == entry + 2
    ||| nodes[entry].kind == NodeKind::Inherit && is_child(nodes, entry, key)
}

/// Whether an identifier is the name of an attribute of a set, or of a variable
/// of a let.
pub open spec fn has_name(nodes: tree::Tree, set: int, key: int) -> bool {
    nodes[key].kind == NodeKind::Identifier && exists|entry: int| #[trigger]
        is_child(nodes, set, entry) && names_entry(nodes, entry, key)
}

/// Whether a node is the value that a name is bound to in a set or a let: what
/// stands behind the path that begins with the name.
pub open spec fn has_value(nodes: tree::Tree, set: int, key: int, value: int) -> bool {
    exists|entry: int| #[trigger]
        is_child(nodes, set, entry) && nodes[entry].kind == NodeKind::KeyValue && nodes[entry
            + 1].kind == NodeKind::Key && key == entry + 2 && lies_in(nodes, entry + 1, key)
            && value == entry + 1 + nodes[entry + 1].extent && lies_in(nodes, entry, value)
}

/// Whether an identifier is a parameter of a function: all of it, or a name in
/// its pattern.
pub open spec fn has_parameter(nodes: tree::Tree, lambda: int, key: int) -> bool {
    nodes[key].kind == NodeKind::Identifier && lies_in(nodes, lambda, lambda + 1) && {
        ||| key == lambda + 1
        ||| nodes[lambda + 1].kind == NodeKind::Pattern && exists|entry: int| #[trigger]
            is_child(nodes, lambda + 1, entry) && (nodes[entry].kind == NodeKind::PatEntry
                || nodes[entry].kind == NodeKind::PatBind) && lies_in(nodes, entry, entry + 1)
                && key == entry + 1
    }
}

/// Whether a node is a let or a recursive set, whose names hold in all of it.
pub open spec fn is_recursive(node: syntax::NodeView) -> bool {
    ||| node.kind == NodeKind::LetIn
    ||| node.kind == NodeKind::LegacyLet
    ||| node.kind == NodeKind::AttrSet && node.token == "rec"@
}

/// Whether a node binds the name that an identifier spells, for what lies in the
/// node.
pub open spec fn binds(nodes: tree::Tree, binder: int, key: int) -> bool {
    ||| is_recursive(nodes[binder]) && has_name(nodes, binder, key)
    ||| nodes[binder].kind == NodeKind::Lambda && has_parameter(nodes, binder, key)
}

/// Whether a node binds a name around a node that lies in it.
pub open spec fn binds_around(
    nodes: tree::Tree,
    binder: int,
    node: int,
    name: Seq<char>,
    key: int,
) -> bool {
    0 <= binder && lies_in(nodes, binder, node) && binds(nodes, binder, key) && nodes[key].token
        == name
}

/// Whether a name is bound around a node.
pub open spec fn is_bound_around(nodes: tree::Tree, node: int, name: Seq<char>) -> bool {
    exists|binder: int, key: int| #[trigger] binds_around(nodes, binder, node, name, key)
}

/// Whether what a name means at a node is decided by a binder and an identifier
/// in it: no binder further inside has the name, and in this one the identifier
/// is the first to have it.
pub open spec fn is_decided(
    nodes: tree::Tree,
    binder: int,
    node: int,
    name: Seq<char>,
    key: int,
) -> bool {
    &&& binds_around(nodes, binder, node, name, key)
    &&& forall|b: int, k: int| #[trigger]
        binds_around(nodes, b, node, name, k) ==> b < binder || b == binder && key <= k
}

/// The tree is one in preorder.
#[verifier::opaque]
spec fn is_nested(nodes: tree::Tree) -> bool {
    syntax::nested(nodes)
}

proof fn lemma_roots(nodes: tree::Tree, from: int, to: int)
    requires
        syntax::nested(nodes),
        0 <= from <= to <= nodes.len(),
        forall|i: int| from <= i < to ==> i + (#[trigger] nodes[i]).extent <= to,
    ensures
        ({
            let all = tree::roots(nodes, from, to);
            &&& from < to ==> all.len() > 0 && all[0] == from
            &&& forall|k: int| 0 <= k < all.len() ==> from <= #[trigger] all[k] < to
            &&& forall|k: int, l: int|
                0 <= k < l < all.len() ==> #[trigger] all[k] < #[trigger] all[l]
            &&& forall|c: int| #[trigger]
                all.contains(c) <==> from <= c < to && forall|q: int|
                    from <= q < c ==> !#[trigger] lies_in(nodes, q, c)
        }),
    decreases to - from,
{
    let all = tree::roots(nodes, from, to);
    if from < to {
        let next = from + nodes[from].extent;
        let rest = tree::roots(nodes, next, to);
        lemma_roots(nodes, next, to);
        assert(all =~= seq![from] + rest);
        assert forall|k: int| 0 <= k < all.len() implies from <= #[trigger] all[k] < to by {
            if k > 0 {
                assert(all[k] == rest[k - 1]);
            }
        }
        assert forall|k: int, l: int| 0 <= k < l < all.len() implies #[trigger] all[k]
            < #[trigger] all[l] by {
            assert(all[l] == rest[l - 1]);
            if k > 0 {
                assert(all[k] == rest[k - 1]);
            }
        }
        assert forall|c: int| #[trigger]
            all.contains(c) <==> from <= c < to && forall|q: int|
                from <= q < c ==> !#[trigger] lies_in(nodes, q, c) by {
            let free = from <= c < to && forall|q: int|
                from <= q < c ==> !#[trigger] lies_in(nodes, q, c);
            if all.contains(c) {
                let k = choose|k: int| 0 <= k < all.len() && all[k] == c;
                if k > 0 {
                    assert(rest[k - 1] == c);
                    assert(rest.contains(c));
                    assert forall|q: int| from <= q < c implies !#[trigger] lies_in(
                        nodes,
                        q,
                        c,
                    ) by {
                        if q < next {
                            assert(q + nodes[q].extent <= next);
                        }
                    }
                }
            }
            if free {
                if c == from {
                    assert(all[0] == c);
                } else {
                    assert(!lies_in(nodes, from, c));
                    assert(c >= next);
                    assert(rest.contains(c));
                    let k = choose|k: int| 0 <= k < rest.len() && rest[k] == c;
                    assert(all[k + 1] == c);
                }
            }
        }
    }
}

/// The children of a node, in order.
pub(crate) proof fn lemma_children(nodes: tree::Tree, parent: int)
    requires
        syntax::nested(nodes),
        0 <= parent < nodes.len(),
    ensures
        ({
            let all = tree::children(nodes, parent);
            &&& nodes[parent].extent > 1 <==> all.len() > 0
            &&& all.len() > 0 ==> all[0] == parent + 1
            &&& all.len() > 1 <==> nodes[parent].extent > 1 && lies_in(
                nodes,
                parent,
                parent + 1 + nodes[parent + 1].extent,
            )
            &&& all.len() > 1 ==> all[1] == parent + 1 + nodes[parent + 1].extent
            &&& forall|k: int|
                0 <= k < all.len() ==> parent < #[trigger] all[k] < nodes.len()
                    && all[k] < parent + nodes[parent].extent
            &&& forall|k: int, l: int|
                0 <= k < l < all.len() ==> #[trigger] all[k] < #[trigger] all[l]
            &&& forall|c: int| #[trigger] all.contains(c) <==> is_child(nodes, parent, c)
        }),
{
    let to = parent + nodes[parent].extent;
    assert(nodes[parent].extent <= nodes.len() - parent);
    assert forall|i: int| parent + 1 <= i < to implies i + (#[trigger] nodes[i]).extent
        <= to by {
        assert(nodes[parent].extent >= 1);
    }
    lemma_roots(nodes, parent + 1, to);
    let all = tree::children(nodes, parent);
    if parent + 1 < to {
        let next = parent + 1 + nodes[parent + 1].extent;
        lemma_roots(nodes, next, to);
        assert(all =~= seq![parent + 1] + tree::roots(nodes, next, to));
    }
    assert forall|c: int| #[trigger] all.contains(c) <==> is_child(nodes, parent, c) by {
        if is_child(nodes, parent, c) {
            assert forall|q: int| parent + 1 <= q < c implies !#[trigger] lies_in(nodes, q, c) by {
            }
        }
    }
}

/// A list of names: in the order of their identifiers, each with the name that
/// its identifier spells, all bound by one node.
pub open spec fn is_list(nodes: tree::Tree, names: Seq<tree::BoundView>, set: int) -> bool {
    &&& forall|k: int|
        #![trigger names[k]]
        0 <= k < names.len() ==> names[k].set == set && 0 <= names[k].key < nodes.len()
            && nodes[names[k].key].kind == NodeKind::Identifier && names[k].name
            == nodes[names[k].key].token
    &&& forall|k: int, l: int|
        0 <= k < l < names.len() ==> (#[trigger] names[k]).key < (#[trigger] names[l]).key
}

/// Whether an identifier is among some names.
pub open spec fn holds_key(names: Seq<tree::BoundView>, key: int) -> bool {
    exists|k: int| 0 <= k < names.len() && (#[trigger] names[k]).key == key
}

/// The identifiers among some nodes, as names without values.
proof fn lemma_names_among(nodes: tree::Tree, set: int, parts: Seq<int>)
    requires
        tree::in_tree(nodes, parts),
        forall|k: int, l: int|
            0 <= k < l < parts.len() ==> #[trigger] parts[k] < #[trigger] parts[l],
    ensures
        ({
            let names = tree::names_among(nodes, set, parts);
            &&& is_list(nodes, names, set)
            &&& forall|k: int|
                0 <= k < names.len() ==> (#[trigger] names[k]).value is None
                    && parts.contains(names[k].key)
            &&& forall|i: int|
                0 <= i < parts.len() && nodes[#[trigger] parts[i]].kind == NodeKind::Identifier
                    ==> holds_key(names, parts[i])
        }),
    decreases parts.len(),
{
    if parts.len() > 0 {
        let fewer = parts.drop_last();
        let last = parts.last();
        lemma_names_among(nodes, set, fewer);
        let before = tree::names_among(nodes, set, fewer);
        let names = tree::names_among(nodes, set, parts);
        assert(parts[parts.len() - 1] == last);
        assert forall|k: int| 0 <= k < before.len() implies (#[trigger] before[k]).key < last
            && parts.contains(before[k].key) by {
            assert(fewer.contains(before[k].key));
            let i = choose|i: int| 0 <= i < fewer.len() && fewer[i] == before[k].key;
            assert(parts[i] == before[k].key);
            assert(parts[i] < parts[parts.len() - 1]);
        }
        assert forall|i: int|
            0 <= i < parts.len() && nodes[#[trigger] parts[i]].kind
                == NodeKind::Identifier implies holds_key(names, parts[i]) by {
            if i < fewer.len() {
                assert(fewer[i] == parts[i]);
                let k = choose|k: int|
                    0 <= k < before.len() && (#[trigger] before[k]).key == fewer[i];
                assert(names[k].key == parts[i]);
            } else {
                assert(names[before.len() as int].key == parts[i]);
            }
        }
    }
}

/// The names of an entry.
proof fn lemma_entry_names(nodes: tree::Tree, set: int, entry: int)
    requires
        is_nested(nodes),
        0 <= entry < nodes.len(),
    ensures
        ({
            let names = tree::entry_names(nodes, set, entry);
            &&& is_list(nodes, names, set)
            &&& forall|k: int|
                0 <= k < names.len() ==> names_entry(nodes, entry, (#[trigger] names[k]).key)
                    && lies_in(nodes, entry, names[k].key)
            &&& forall|k: int|
                0 <= k < names.len() ==> (#[trigger] names[k]).value == if nodes[entry].kind
                    == NodeKind::KeyValue && lies_in(
                    nodes,
                    entry,
                    entry + 1 + nodes[entry + 1].extent,
                ) {
                    Some(entry + 1 + nodes[entry + 1].extent)
                } else {
                    None::<int>
                }
            &&& forall|key: int|
                nodes[key].kind == NodeKind::Identifier && #[trigger] names_entry(
                    nodes,
                    entry,
                    key,
                ) ==> holds_key(names, key)
        }),
{
    reveal(is_nested);
    let names = tree::entry_names(nodes, set, entry);
    let parts = tree::children(nodes, entry);
    lemma_children(nodes, entry);
    if nodes[entry].kind == NodeKind::KeyValue {
        if parts.len() > 0 && nodes[parts[0]].kind == NodeKind::Key {
            lemma_children(nodes, entry + 1);
            assert(nodes[entry + 1].extent <= nodes[entry].extent - 1);
        }
        assert forall|key: int|
            nodes[key].kind == NodeKind::Identifier && #[trigger] names_entry(
                nodes,
                entry,
                key,
            ) implies holds_key(names, key) by {
            assert(names[0].key == key);
        }
    } else if nodes[entry].kind == NodeKind::Inherit {
        lemma_names_among(nodes, set, parts);
        assert forall|k: int| 0 <= k < names.len() implies names_entry(
            nodes,
            entry,
            (#[trigger] names[k]).key,
        ) && lies_in(nodes, entry, names[k].key) by {
            assert(parts.contains(names[k].key));
        }
        assert forall|key: int|
            nodes[key].kind == NodeKind::Identifier && #[trigger] names_entry(
                nodes,
                entry,
                key,
            ) implies holds_key(names, key) by {
            assert(parts.contains(key));
            let i = choose|i: int| 0 <= i < parts.len() && parts[i] == key;
            assert(nodes[parts[i]].kind == NodeKind::Identifier);
        }
    }
}

/// Whether a name is one that an entry binds, with the value that the entry has.
spec fn comes_from(nodes: tree::Tree, entry: int, bound: tree::BoundView) -> bool {
    &&& names_entry(nodes, entry, bound.key)
    &&& lies_in(nodes, entry, bound.key)
    &&& bound.value == if nodes[entry].kind == NodeKind::KeyValue && lies_in(
        nodes,
        entry,
        entry + 1 + nodes[entry + 1].extent,
    ) {
        Some(entry + 1 + nodes[entry + 1].extent)
    } else {
        None::<int>
    }
}

spec fn comes_from_some(nodes: tree::Tree, entries: Seq<int>, bound: tree::BoundView) -> bool {
    exists|i: int| 0 <= i < entries.len() && comes_from(nodes, #[trigger] entries[i], bound)
}

proof fn lemma_entries_names(nodes: tree::Tree, set: int, entries: Seq<int>)
    requires
        is_nested(nodes),
        tree::in_tree(nodes, entries),
        forall|k: int, l: int|
            0 <= k < l < entries.len() ==> (#[trigger] entries[k]) + nodes[entries[k]].extent
                <= #[trigger] entries[l],
    ensures
        ({
            let names = tree::entries_names(nodes, set, entries);
            &&& is_list(nodes, names, set)
            &&& forall|k: int|
                0 <= k < names.len() ==> comes_from_some(nodes, entries, #[trigger] names[k])
            &&& forall|i: int, key: int|
                0 <= i < entries.len() && nodes[key].kind == NodeKind::Identifier
                    && #[trigger] names_entry(nodes, entries[i], key) ==> holds_key(names, key)
        }),
    decreases entries.len(),
{
    if entries.len() > 0 {
        let fewer = entries.drop_last();
        let last = entries.last();
        let n = entries.len() - 1;
        assert(entries[n] == last);
        assert forall|k: int, l: int| 0 <= k < l < fewer.len() implies (#[trigger] fewer[k])
            + nodes[fewer[k]].extent <= #[trigger] fewer[l] by {
            assert(fewer[k] == entries[k] && fewer[l] == entries[l]);
        }
        lemma_entries_names(nodes, set, fewer);
        lemma_entry_names(nodes, set, last);
        let before = tree::entries_names(nodes, set, fewer);
        let own = tree::entry_names(nodes, set, last);
        let names = tree::entries_names(nodes, set, entries);
        assert(names =~= before + own);
        assert forall|k: int| 0 <= k < before.len() implies comes_from_some(
            nodes,
            entries,
            #[trigger] before[k],
        ) && before[k].key < last by {
            assert(comes_from_some(nodes, fewer, before[k]));
            let i = choose|i: int|
                0 <= i < fewer.len() && comes_from(nodes, #[trigger] fewer[i], before[k]);
            assert(entries[i] == fewer[i]);
            assert(entries[i] + nodes[entries[i]].extent <= entries[n]);
        }
        assert forall|k: int| 0 <= k < names.len() implies comes_from_some(
            nodes,
            entries,
            #[trigger] names[k],
        ) by {
            if k < before.len() {
                assert(names[k] == before[k]);
            } else {
                assert(names[k] == own[k - before.len()]);
                assert(comes_from(nodes, entries[n], names[k]));
            }
        }
        assert forall|k: int, l: int| 0 <= k < l < names.len() implies (#[trigger] names[k]).key
            < (#[trigger] names[l]).key by {
            if l < before.len() {
                assert(names[k] == before[k] && names[l] == before[l]);
            } else {
                assert(names[l] == own[l - before.len()]);
                if k < before.len() {
                    assert(names[k] == before[k]);
                } else {
                    assert(names[k] == own[k - before.len()]);
                }
            }
        }
        assert forall|k: int|
            #![trigger names[k]]
            0 <= k < names.len() implies names[k].set == set && 0 <= names[k].key < nodes.len()
            && nodes[names[k].key].kind == NodeKind::Identifier && names[k].name
            == nodes[names[k].key].token by {
            if k < before.len() {
                assert(names[k] == before[k]);
            } else {
                assert(names[k] == own[k - before.len()]);
            }
        }
        assert forall|i: int, key: int|
            0 <= i < entries.len() && nodes[key].kind == NodeKind::Identifier
                && #[trigger] names_entry(nodes, entries[i], key) implies holds_key(
            names,
            key,
        ) by {
            if i < n {
                assert(names_entry(nodes, fewer[i], key));
                let k = choose|k: int| 0 <= k < before.len() && (#[trigger] before[k]).key == key;
                assert(names[k].key == key);
            } else {
                let k = choose|k: int| 0 <= k < own.len() && (#[trigger] own[k]).key == key;
                assert(names[before.len() + k].key == key);
            }
        }
    }
}

/// Two children of a node have no node in common.
proof fn lemma_children_apart(nodes: tree::Tree, parent: int, a: int, b: int)
    requires
        syntax::nested(nodes),
        is_child(nodes, parent, a),
        is_child(nodes, parent, b),
        a < b,
    ensures
        a + nodes[a].extent <= b,
{
    assert(!lies_in(nodes, a, b));
}

/// The names of a set, or of a let.
pub(crate) proof fn lemma_set_names(nodes: tree::Tree, set: int)
    requires
        syntax::nested(nodes),
        0 <= set < nodes.len(),
    ensures
        ({
            let names = tree::entries_names(nodes, set, tree::children(nodes, set));
            &&& is_list(nodes, names, set)
            &&& forall|k: int|
                0 <= k < names.len() ==> has_name(nodes, set, (#[trigger] names[k]).key)
            &&& forall|key: int| #[trigger] has_name(nodes, set, key) ==> holds_key(names, key)
            &&& forall|k: int, v: int|
                0 <= k < names.len() ==> ((#[trigger] names[k]).value == Some(v)
                    <==> #[trigger] has_value(nodes, set, names[k].key, v))
        }),
{
    let entries = tree::children(nodes, set);
    let names = tree::entries_names(nodes, set, entries);
    lemma_children(nodes, set);
    assert forall|k: int, l: int| 0 <= k < l < entries.len() implies (#[trigger] entries[k])
        + nodes[entries[k]].extent <= #[trigger] entries[l] by {
        assert(entries.contains(entries[k]) && entries.contains(entries[l]));
        lemma_children_apart(nodes, set, entries[k], entries[l]);
    }
    assert(is_nested(nodes)) by {
        reveal(is_nested);
    }
    lemma_entries_names(nodes, set, entries);
    assert forall|k: int| 0 <= k < names.len() implies has_name(
        nodes,
        set,
        (#[trigger] names[k]).key,
    ) by {
        assert(comes_from_some(nodes, entries, names[k]));
        let i = choose|i: int|
            0 <= i < entries.len() && comes_from(nodes, #[trigger] entries[i], names[k]);
        assert(entries.contains(entries[i]));
        assert(is_child(nodes, set, entries[i]));
    }
    assert forall|key: int| #[trigger] has_name(nodes, set, key) implies holds_key(names, key) by {
        let entry = choose|entry: int| #[trigger]
            is_child(nodes, set, entry) && names_entry(nodes, entry, key);
        assert(entries.contains(entry));
        let i = choose|i: int| 0 <= i < entries.len() && entries[i] == entry;
        assert(names_entry(nodes, entries[i], key));
    }
    assert forall|k: int, v: int| 0 <= k < names.len() implies ((#[trigger] names[k]).value
        == Some(v) <==> #[trigger] has_value(nodes, set, names[k].key, v)) by {
        assert(comes_from_some(nodes, entries, names[k]));
        let i = choose|i: int|
            0 <= i < entries.len() && comes_from(nodes, #[trigger] entries[i], names[k]);
        let entry = entries[i];
        let key = names[k].key;
        assert(entries.contains(entry));
        assert(is_child(nodes, set, entry));
        if has_value(nodes, set, key, v) {
            let other = choose|e: int| #[trigger]
                is_child(nodes, set, e) && nodes[e].kind == NodeKind::KeyValue && nodes[e + 1].kind
                    == NodeKind::Key && key == e + 2 && lies_in(nodes, e + 1, key) && v == e + 1
                    + nodes[e + 1].extent && lies_in(nodes, e, v);
            if other < entry {
                lemma_children_apart(nodes, set, other, entry);
            } else if entry < other {
                lemma_children_apart(nodes, set, entry, other);
            }
        }
    }
}

/// Whether a part of a pattern has a name.
spec fn is_named(nodes: tree::Tree, part: int) -> bool {
    (nodes[part].kind == NodeKind::PatEntry || nodes[part].kind == NodeKind::PatBind)
        && nodes[part].extent > 1 && nodes[part + 1].kind == NodeKind::Identifier
}

/// Whether a name is that of one of the parts of a pattern.
spec fn is_part_name(nodes: tree::Tree, parts: Seq<int>, bound: tree::BoundView) -> bool {
    bound.value is None && parts.contains(bound.key - 1) && is_named(nodes, bound.key - 1)
}

proof fn lemma_first_name(nodes: tree::Tree, part: int, set: int, value: Option<int>)
    requires
        syntax::nested(nodes),
        0 <= part < nodes.len(),
    ensures
        tree::first_name(nodes, part, set, value) == if nodes[part].extent > 1 && nodes[part
            + 1].kind == NodeKind::Identifier {
            seq![tree::BoundView { name: nodes[part + 1].token, key: part + 1, set, value }]
        } else {
            seq![]
        },
        nodes[part].extent > 1 ==> part + 1 < nodes.len(),
{
    lemma_children(nodes, part);
}

proof fn lemma_pattern_names(nodes: tree::Tree, lambda: int, parts: Seq<int>)
    requires
        is_nested(nodes),
        tree::in_tree(nodes, parts),
        forall|k: int, l: int|
            0 <= k < l < parts.len() ==> (#[trigger] parts[k]) + 1 < #[trigger] parts[l]
                || !is_named(nodes, parts[k]),
    ensures
        ({
            let names = tree::pattern_names(nodes, lambda, parts);
            &&& is_list(nodes, names, lambda)
            &&& forall|k: int|
                0 <= k < names.len() ==> is_part_name(nodes, parts, #[trigger] names[k])
            &&& forall|i: int|
                0 <= i < parts.len() && is_named(nodes, #[trigger] parts[i]) ==> holds_key(
                    names,
                    parts[i] + 1,
                )
        }),
    decreases parts.len(),
{
    if parts.len() > 0 {
        let fewer = parts.drop_last();
        let last = parts.last();
        let n = parts.len() - 1;
        assert(parts[n] == last);
        assert forall|k: int, l: int| 0 <= k < l < fewer.len() implies (#[trigger] fewer[k]) + 1
            < #[trigger] fewer[l] || !is_named(nodes, fewer[k]) by {
            assert(fewer[k] == parts[k] && fewer[l] == parts[l]);
        }
        lemma_pattern_names(nodes, lambda, fewer);
        assert(tree::first_name(nodes, last, lambda, None) == if nodes[last].extent > 1
            && nodes[last + 1].kind == NodeKind::Identifier {
            seq![
                tree::BoundView {
                    name: nodes[last + 1].token,
                    key: last + 1,
                    set: lambda,
                    value: None,
                },
            ]
        } else {
            seq![]
        } && (nodes[last].extent > 1 ==> last + 1 < nodes.len())) by {
            reveal(is_nested);
            lemma_first_name(nodes, last, lambda, None);
        }
        let before = tree::pattern_names(nodes, lambda, fewer);
        let names = tree::pattern_names(nodes, lambda, parts);
        let own = if is_named(nodes, last) {
            seq![
                tree::BoundView {
                    name: nodes[last + 1].token,
                    key: last + 1,
                    set: lambda,
                    value: None,
                },
            ]
        } else {
            seq![]
        };
        assert(names =~= before + own);
        assert forall|k: int| 0 <= k < before.len() implies (#[trigger] before[k]).key < last
            && is_part_name(nodes, parts, before[k]) by {
            assert(is_part_name(nodes, fewer, before[k]));
            let i = choose|i: int| 0 <= i < fewer.len() && fewer[i] == before[k].key - 1;
            assert(parts[i] == before[k].key - 1);
            assert(parts[i] + 1 < parts[n]);
        }
        assert forall|k: int| 0 <= k < names.len() implies is_part_name(
            nodes,
            parts,
            #[trigger] names[k],
        ) by {
            if k < before.len() {
                assert(names[k] == before[k]);
            } else {
                assert(parts.contains(last));
            }
        }
        assert forall|k: int, l: int| 0 <= k < l < names.len() implies (#[trigger] names[k]).key
            < (#[trigger] names[l]).key by {
            assert(names[k] == before[k]);
            if l < before.len() {
                assert(names[l] == before[l]);
            }
        }
        assert forall|k: int|
            #![trigger names[k]]
            0 <= k < names.len() implies names[k].set == lambda && 0 <= names[k].key < nodes.len()
            && nodes[names[k].key].kind == NodeKind::Identifier && names[k].name
            == nodes[names[k].key].token by {
            if k < before.len() {
                assert(names[k] == before[k]);
            }
        }
        assert forall|i: int|
            0 <= i < parts.len() && is_named(nodes, #[trigger] parts[i]) implies holds_key(
            names,
            parts[i] + 1,
        ) by {
            if i < n {
                assert(fewer[i] == parts[i]);
                let k = choose|k: int|
                    0 <= k < before.len() && (#[trigger] before[k]).key == fewer[i] + 1;
                assert(names[k].key == parts[i] + 1);
            } else {
                assert(names[before.len() as int].key == parts[i] + 1);
            }
        }
    }
}

/// Whether the values of names are those that a set gives them.
pub open spec fn is_valued(nodes: tree::Tree, bound: tree::BoundView) -> bool {
    forall|v: int|
        bound.value == Some(v) <==> nodes[bound.set].kind != NodeKind::Lambda
            && #[trigger] has_value(nodes, bound.set, bound.key, v)
}

/// The names in a pattern are the parameters of the function.
proof fn lemma_parameters(nodes: tree::Tree, lambda: int)
    requires
        syntax::nested(nodes),
        0 <= lambda < nodes.len(),
        nodes[lambda].extent > 1,
        nodes[lambda + 1].kind == NodeKind::Pattern,
    ensures
        ({
            let names = tree::pattern_names(nodes, lambda, tree::children(nodes, lambda + 1));
            &&& is_list(nodes, names, lambda)
            &&& forall|k: int|
                0 <= k < names.len() ==> (#[trigger] names[k]).value is None && has_parameter(
                    nodes,
                    lambda,
                    names[k].key,
                )
            &&& forall|key: int| #[trigger]
                has_parameter(nodes, lambda, key) ==> holds_key(names, key)
        }),
{
    let inner = tree::children(nodes, lambda + 1);
    let names = tree::pattern_names(nodes, lambda, inner);
    lemma_children(nodes, lambda + 1);
    assert forall|k: int, l: int| 0 <= k < l < inner.len() implies (#[trigger] inner[k]) + 1
        < #[trigger] inner[l] || !is_named(nodes, inner[k]) by {
        assert(inner.contains(inner[k]) && inner.contains(inner[l]));
        lemma_children_apart(nodes, lambda + 1, inner[k], inner[l]);
    }
    reveal(is_nested);
    lemma_pattern_names(nodes, lambda, inner);
    assert forall|k: int| 0 <= k < names.len() implies (#[trigger] names[k]).value is None
        && has_parameter(nodes, lambda, names[k].key) by {
        let entry = names[k].key - 1;
        assert(is_part_name(nodes, inner, names[k]));
        assert(is_child(nodes, lambda + 1, entry));
        assert(lies_in(nodes, entry, entry + 1));
    }
    assert forall|key: int| #[trigger] has_parameter(nodes, lambda, key) implies holds_key(
        names,
        key,
    ) by {
        let entry = key - 1;
        assert(is_child(nodes, lambda + 1, entry));
        assert(inner.contains(entry));
        let i = choose|i: int| 0 <= i < inner.len() && inner[i] == entry;
        assert(is_named(nodes, inner[i]));
    }
}

/// The names that a node binds are listed, and no others, in the order of their
/// identifiers. Those of a let or a set have their values.
pub(crate) proof fn lemma_names_bound(nodes: tree::Tree, binder: int)
    requires
        syntax::nested(nodes),
        0 <= binder < nodes.len(),
    ensures
        ({
            let names = tree::names_bound(nodes, binder);
            &&& is_list(nodes, names, binder)
            &&& forall|k: int|
                0 <= k < names.len() ==> binds(nodes, binder, (#[trigger] names[k]).key)
                    && is_valued(nodes, names[k])
            &&& forall|key: int| #[trigger] binds(nodes, binder, key) ==> holds_key(names, key)
        }),
{
    let names = tree::names_bound(nodes, binder);
    let parts = tree::children(nodes, binder);
    lemma_children(nodes, binder);
    if is_recursive(nodes[binder]) {
        lemma_set_names(nodes, binder);
        assert forall|k: int| 0 <= k < names.len() implies binds(
            nodes,
            binder,
            (#[trigger] names[k]).key,
        ) && is_valued(nodes, names[k]) by {
            assert(has_name(nodes, binder, names[k].key));
        }
        assert forall|key: int| #[trigger] binds(nodes, binder, key) implies holds_key(
            names,
            key,
        ) by {
            assert(has_name(nodes, binder, key));
        }
    } else if nodes[binder].kind == NodeKind::Lambda && parts.len() > 0 {
        if nodes[binder + 1].kind == NodeKind::Pattern {
            lemma_parameters(nodes, binder);
            assert forall|key: int| #[trigger] binds(nodes, binder, key) implies holds_key(
                names,
                key,
            ) by {
                assert(has_parameter(nodes, binder, key));
            }
        } else if nodes[binder + 1].kind == NodeKind::Identifier {
            assert(binds(nodes, binder, binder + 1));
            assert(names =~= seq![names[0]]);
            assert forall|key: int| #[trigger] binds(nodes, binder, key) implies holds_key(
                names,
                key,
            ) by {
                assert(names[0].key == key);
            }
        }
    }
}

/// What the list of the names of a node says of one name.
proof fn lemma_names_of(nodes: tree::Tree, binder: int, node: int, name: Seq<char>)
    requires
        is_nested(nodes),
        0 <= binder < nodes.len(),
        lies_in(nodes, binder, node),
    ensures
        ({
            let names = tree::names_bound(nodes, binder);
            match tree::bound_to(names, name) {
                Some(bound) => tree::is_bound(names, name) && bound.name == name && bound.set
                    == binder && binds_around(nodes, binder, node, name, bound.key) && (forall|
                    k: int,
                | #[trigger]
                    binds_around(nodes, binder, node, name, k) ==> bound.key <= k) && is_valued(
                    nodes,
                    bound,
                ),
                None => !tree::is_bound(names, name) && forall|k: int| !#[trigger] binds_around(
                    nodes,
                    binder,
                    node,
                    name,
                    k,
                ),
            }
        }),
{
    reveal(is_nested);
    let names = tree::names_bound(nodes, binder);
    lemma_names_bound(nodes, binder);
    lemma_bound_to(names, name);
    if let Some(bound) = tree::bound_to(names, name) {
        let i = choose|i: int|
            0 <= i < names.len() && #[trigger] names[i] == bound && bound.name == name && forall|
                j: int,
            |
                0 <= j < i ==> (#[trigger] names[j]).name != name;
        assert forall|k: int| #[trigger] binds_around(nodes, binder, node, name, k) implies bound.key
            <= k by {
            assert(holds_key(names, k));
            let l = choose|l: int| 0 <= l < names.len() && (#[trigger] names[l]).key == k;
            assert(names[l].name == name);
            assert(l >= i);
        }
    } else {
        assert forall|k: int| !#[trigger] binds_around(nodes, binder, node, name, k) by {
            if binds_around(nodes, binder, node, name, k) {
                assert(holds_key(names, k));
                let l = choose|l: int| 0 <= l < names.len() && (#[trigger] names[l]).key == k;
                assert(names[l].name == name);
            }
        }
    }
}

proof fn lemma_enclosing(nodes: tree::Tree, node: int, below: int)
    requires
        0 <= below <= node,
    ensures
        match tree::enclosing(nodes, node, below) {
            Some(a) => 0 <= a < below && lies_in(nodes, a, node) && forall|q: int|
                a < q < below ==> !#[trigger] lies_in(nodes, q, node),
            None => forall|q: int| 0 <= q < below ==> !#[trigger] lies_in(nodes, q, node),
        },
    decreases below,
{
    if below > 0 && node >= below - 1 + nodes[below - 1].extent {
        lemma_enclosing(nodes, node, below - 1);
    }
}

proof fn lemma_extended_first(
    scope: Seq<tree::BoundView>,
    more: Seq<tree::BoundView>,
    name: Seq<char>,
)
    ensures
        tree::is_bound(tree::extended(scope, more), name) <==> tree::is_bound(scope, name)
            || tree::is_bound(more, name),
        !tree::is_bound(scope, name) ==> tree::bound_to(tree::extended(scope, more), name)
            == tree::bound_to(more, name),
    decreases more.len(),
{
    lemma_bound_to(scope, name);
    if more.len() > 0 {
        let fewer = more.drop_last();
        let last = more.last();
        let before = tree::extended(scope, fewer);
        let all = tree::extended(scope, more);
        lemma_extended_first(scope, fewer, name);
        assert(more =~= fewer.push(last));
        lemma_bound_to(fewer, name);
        lemma_bound_to(before, name);
        lemma_bound_to_push(fewer, last, name);
        lemma_bound_to_push(before, last, name);
    }
}

proof fn lemma_bound_to_push(scope: Seq<tree::BoundView>, last: tree::BoundView, name: Seq<char>)
    ensures
        tree::is_bound(scope.push(last), name) <==> tree::is_bound(scope, name) || last.name
            == name,
        tree::bound_to(scope.push(last), name) == if tree::is_bound(scope, name) {
            tree::bound_to(scope, name)
        } else if last.name == name {
            Some(last)
        } else {
            None
        },
    decreases scope.len(),
{
    let all = scope.push(last);
    if tree::is_bound(scope, name) {
        let i = choose|i: int| 0 <= i < scope.len() && (#[trigger] scope[i]).name == name;
        assert(all[i].name == name);
    }
    if last.name == name {
        assert(all[scope.len() as int].name == name);
    }
    if tree::is_bound(all, name) {
        let i = choose|i: int| 0 <= i < all.len() && (#[trigger] all[i]).name == name;
        if i < scope.len() {
            assert(scope[i].name == name);
        }
    }
    if scope.len() == 0 {
        assert(all[0] == last);
        assert(all.drop_first() =~= seq![]);
        assert(tree::bound_to(all.drop_first(), name) is None);
    } else {
        let rest = scope.drop_first();
        assert(all[0] == scope[0]);
        assert(scope[0].name == name ==> tree::is_bound(scope, name));
        assert(all.drop_first() =~= rest.push(last));
        lemma_bound_to_push(rest, last, name);
        if tree::is_bound(rest, name) {
            let i = choose|i: int| 0 <= i < rest.len() && (#[trigger] rest[i]).name == name;
            assert(scope[i + 1].name == name);
        }
        if tree::is_bound(scope, name) && scope[0].name != name {
            let i = choose|i: int| 0 <= i < scope.len() && (#[trigger] scope[i]).name == name;
            assert(rest[i - 1].name == name);
        }
    }
}

/// The first binding of a name in a list.
pub(crate) proof fn lemma_bound_to(scope: Seq<tree::BoundView>, name: Seq<char>)
    ensures
        match tree::bound_to(scope, name) {
            Some(bound) => exists|i: int|
                0 <= i < scope.len() && #[trigger] scope[i] == bound && bound.name == name
                    && forall|j: int| 0 <= j < i ==> (#[trigger] scope[j]).name != name,
            None => !tree::is_bound(scope, name),
        },
        tree::is_bound(scope, name) <==> tree::bound_to(scope, name) is Some,
    decreases scope.len(),
{
    if scope.len() > 0 && scope[0].name != name {
        let rest = scope.drop_first();
        lemma_bound_to(rest, name);
        if tree::is_bound(scope, name) {
            let i = choose|i: int| 0 <= i < scope.len() && (#[trigger] scope[i]).name == name;
            assert(rest[i - 1].name == name);
        }
        if let Some(bound) = tree::bound_to(rest, name) {
            let i = choose|i: int|
                0 <= i < rest.len() && #[trigger] rest[i] == bound && bound.name == name && forall|
                    j: int,
                |
                    0 <= j < i ==> (#[trigger] rest[j]).name != name;
            assert(scope[i + 1] == bound);
            assert forall|j: int| 0 <= j < i + 1 implies (#[trigger] scope[j]).name != name by {
                if j > 0 {
                    assert(rest[j - 1].name != name);
                }
            }
        }
    } else if scope.len() > 0 {
        assert(scope[0].name == name);
    }
}

proof fn lemma_scope_keeps(
    nodes: tree::Tree,
    node: int,
    below: int,
    scope: Seq<tree::BoundView>,
    name: Seq<char>,
)
    requires
        tree::is_bound(scope, name),
    ensures
        tree::bound_to(tree::scope_from(nodes, node, below, scope), name) == tree::bound_to(
            scope,
            name,
        ),
    decreases below,
{
    if let Some(a) = tree::enclosing(nodes, node, below) {
        if 0 <= a < below {
            let more = tree::names_bound(nodes, a);
            tree::law_inner_names_hide_outer_ones(scope, more, name);
            lemma_extended_first(scope, more, name);
            lemma_scope_keeps(nodes, node, a, tree::extended(scope, more), name);
        }
    }
}

/// Whether a name is bound as the first node says that binds it, from the inside
/// to the outside, among those before `below`.
spec fn is_decided_below(
    nodes: tree::Tree,
    node: int,
    below: int,
    name: Seq<char>,
    bound: tree::BoundView,
) -> bool {
    &&& bound.name == name
    &&& binds_around(nodes, bound.set, node, name, bound.key)
    &&& forall|b: int, k: int| #[trigger]
        binds_around(nodes, b, node, name, k) ==> b >= below || b < bound.set || b == bound.set
            && bound.key <= k
    &&& is_valued(nodes, bound)
}

proof fn lemma_scope_from(
    nodes: tree::Tree,
    node: int,
    below: int,
    scope: Seq<tree::BoundView>,
    name: Seq<char>,
)
    requires
        is_nested(nodes),
        0 <= below <= node < nodes.len(),
        !tree::is_bound(scope, name),
    ensures
        match tree::bound_to(tree::scope_from(nodes, node, below, scope), name) {
            Some(bound) => is_decided_below(nodes, node, below, name, bound),
            None => forall|b: int, k: int| #[trigger]
                binds_around(nodes, b, node, name, k) ==> b >= below,
        },
    decreases below,
{
    lemma_enclosing(nodes, node, below);
    match tree::enclosing(nodes, node, below) {
        Some(a) => {
            let names = tree::names_bound(nodes, a);
            let more = tree::extended(scope, names);
            lemma_names_of(nodes, a, node, name);
            lemma_extended_first(scope, names, name);
            assert forall|b: int, k: int| #[trigger]
                binds_around(nodes, b, node, name, k) implies b >= below || b <= a by {
                if a < b < below {
                    assert(!lies_in(nodes, b, node));
                }
            }
            if tree::is_bound(names, name) {
                lemma_scope_keeps(nodes, node, a, more, name);
            } else {
                lemma_scope_from(nodes, node, a, more, name);
            }
        },
        None => {
            lemma_bound_to(scope, name);
            assert forall|b: int, k: int| #[trigger]
                binds_around(nodes, b, node, name, k) implies b >= below by {
                if b < below {
                    assert(!lies_in(nodes, b, node));
                }
            }
        },
    }
}

/// A name that is bound anywhere around a node holds at the node, and means what
/// the innermost of the nodes says that bind it. Nothing else holds there.
pub proof fn law_innermost_binding_holds(nodes: tree::Tree, node: int, name: Seq<char>)
    requires
        syntax::nested(nodes),
        0 <= node < nodes.len(),
    ensures
        tree::is_bound(tree::scope_at(nodes, node), name) <==> is_bound_around(nodes, node, name),
        match tree::bound_to(tree::scope_at(nodes, node), name) {
            Some(bound) => bound.name == name && is_decided(
                nodes,
                bound.set,
                node,
                name,
                bound.key,
            ) && is_valued(nodes, bound),
            None => !is_bound_around(nodes, node, name),
        },
{
    let scope = tree::scope_at(nodes, node);
    assert(is_nested(nodes)) by {
        reveal(is_nested);
    }
    lemma_scope_from(nodes, node, node, seq![], name);
    lemma_bound_to(scope, name);
    assert forall|b: int, k: int| #[trigger] binds_around(nodes, b, node, name, k) implies b
        < node by {
        assert(lies_in(nodes, b, node));
    }
}

/// Whether the cursor stands on an identifier: it stands behind one of its
/// characters, or, if that holds of no identifier, before one of them. Of
/// several such identifiers it is the first.
pub open spec fn is_at(nodes: tree::Tree, offset: u32, node: int) -> bool {
    &&& 0 <= node < nodes.len()
    &&& {
        ||| ends_behind(nodes[node], offset) && forall|j: int|
            0 <= j < node ==> !ends_behind(#[trigger] nodes[j], offset)
        ||| begins_before(nodes[node], offset) && (forall|j: int|
            0 <= j < nodes.len() ==> !ends_behind(#[trigger] nodes[j], offset)) && forall|j: int|
            0 <= j < node ==> !begins_before(#[trigger] nodes[j], offset)
    }
}

/// Whether a node is an identifier with a character right before an offset.
pub open spec fn ends_behind(node: syntax::NodeView, offset: u32) -> bool {
    node.kind == NodeKind::Identifier && node.range.start < offset && offset <= node.range.end
}

/// Whether a node is an identifier with a character right behind an offset.
pub open spec fn begins_before(node: syntax::NodeView, offset: u32) -> bool {
    node.kind == NodeKind::Identifier && node.range.start <= offset && offset < node.range.end
}

proof fn lemma_touched(nodes: tree::Tree, offset: u32, left: bool, from: int)
    requires
        0 <= from <= nodes.len(),
    ensures
        match tree::touched(nodes, offset, left, from) {
            Some(i) => from <= i < nodes.len() && (if left {
                ends_behind(nodes[i], offset)
            } else {
                begins_before(nodes[i], offset)
            }) && forall|j: int|
                from <= j < i ==> if left {
                    !ends_behind(#[trigger] nodes[j], offset)
                } else {
                    !begins_before(nodes[j], offset)
                },
            None => forall|j: int|
                from <= j < nodes.len() ==> if left {
                    !ends_behind(#[trigger] nodes[j], offset)
                } else {
                    !begins_before(nodes[j], offset)
                },
        },
    decreases nodes.len() - from,
{
    if from < nodes.len() && !tree::touches(nodes[from], offset, left) {
        lemma_touched(nodes, offset, left, from + 1);
    }
}

/// The identifier at an offset is the one that the cursor stands on, and there
/// is one unless the cursor touches none.
pub proof fn law_identifier_at_the_cursor(nodes: tree::Tree, offset: u32, node: int)
    ensures
        is_at(nodes, offset, node) <==> tree::ident_at(nodes, offset) == Some(node),
        tree::ident_at(nodes, offset) is None <==> forall|j: int|
            0 <= j < nodes.len() ==> !ends_behind(#[trigger] nodes[j], offset) && !begins_before(
                nodes[j],
                offset,
            ),
{
    lemma_touched(nodes, offset, true, 0);
    lemma_touched(nodes, offset, false, 0);
    let left = tree::touched(nodes, offset, true, 0);
    let right = tree::touched(nodes, offset, false, 0);
    if is_at(nodes, offset, node) {
        if left is Some {
            let i = left->0;
            assert(ends_behind(nodes[i], offset));
            assert(ends_behind(nodes[node], offset));
            if i < node {
                assert(!ends_behind(nodes[i], offset));
            } else if node < i {
                assert(!ends_behind(nodes[node], offset));
            }
        } else {
            assert(!ends_behind(nodes[node], offset));
            assert(begins_before(nodes[node], offset));
            let i = right->0;
            if i < node {
                assert(!begins_before(nodes[i], offset));
            }
        }
    }
}

/// Whether an identifier stands for a variable: it is not selected from a set,
/// and not the name of an attribute of an attribute.
pub open spec fn is_variable(nodes: tree::Tree, node: int) -> bool {
    forall|p: int|
        0 <= p && #[trigger] is_child(nodes, p, node) && (nodes[p].kind == NodeKind::Select
            || nodes[p].kind == NodeKind::Key) ==> node == p + 1
}

proof fn lemma_parent(nodes: tree::Tree, node: int)
    requires
        0 <= node,
    ensures
        match tree::enclosing(nodes, node, node) {
            Some(p) => 0 <= p < node && is_child(nodes, p, node) && forall|q: int|
                0 <= q && #[trigger] is_child(nodes, q, node) ==> q == p,
            None => forall|q: int| 0 <= q ==> !#[trigger] is_child(nodes, q, node),
        },
{
    lemma_enclosing(nodes, node, node);
    if let Some(p) = tree::enclosing(nodes, node, node) {
        assert forall|q: int| 0 <= q && #[trigger] is_child(nodes, q, node) implies q == p by {
            assert(lies_in(nodes, q, node));
            if q < p {
                assert(!lies_in(nodes, p, node));
            }
        }
    } else {
        assert forall|q: int| 0 <= q implies !#[trigger] is_child(nodes, q, node) by {
            if is_child(nodes, q, node) {
                assert(lies_in(nodes, q, node));
            }
        }
    }
}

/// What stands for a variable is selected from nothing, and nothing else is.
pub proof fn law_variables_are_selected_from_nothing(nodes: tree::Tree, node: int)
    requires
        syntax::nested(nodes),
        0 <= node < nodes.len(),
    ensures
        is_variable(nodes, node) <==> tree::path_to(nodes, node) == Some(Seq::<Seq<char>>::empty()),
{
    lemma_parent(nodes, node);
    if let Some(p) = tree::enclosing(nodes, node, node) {
        lemma_children(nodes, p);
        let parts = tree::children(nodes, p);
        assert(parts.contains(node));
        if nodes[p].kind == NodeKind::Key || nodes[p].kind == NodeKind::Select {
            assert(is_variable(nodes, node) <==> node == p + 1);
            if node != p + 1 {
                if let Some(names) = tree::path_to(nodes, node) {
                    if nodes[p].kind == NodeKind::Key {
                        let rest = tree::names_before(nodes, parts.drop_first(), node)->0;
                        assert(names == seq![nodes[parts[0]].token] + rest);
                        assert(names.len() > 0);
                    } else {
                        assert(names.len() > 0);
                    }
                }
            } else if nodes[p].kind == NodeKind::Key {
                assert(tree::path_to(nodes, node) == Some(Seq::<Seq<char>>::empty()));
            }
        }
    }
}

/// The path to what stands behind a dot is the path to what stands before it,
/// and then the name that stands before it.
pub proof fn law_paths_follow_the_dots(nodes: tree::Tree, select: int, node: int)
    requires
        syntax::nested(nodes),
        0 <= select < nodes.len(),
        nodes[select].kind == NodeKind::Select,
        is_child(nodes, select, node),
        node != select + 1,
    ensures
        ({
            let before = nodes[select + 1];
            match before.kind {
                NodeKind::Identifier => tree::path_to(nodes, node) == Some(seq![before.token]),
                NodeKind::Select => {
                    let last = select + 2 + nodes[select + 2].extent;
                    if lies_in(nodes, select + 1, last) && nodes[last].kind
                        == NodeKind::Identifier {
                        match tree::path_to(nodes, last) {
                            Some(path) => tree::path_to(nodes, node) == Some(
                                path.push(nodes[last].token),
                            ),
                            None => tree::path_to(nodes, node) is None,
                        }
                    } else {
                        tree::path_to(nodes, node) is None
                    }
                },
                _ => tree::path_to(nodes, node) is None,
            }
        }),
{
    lemma_parent(nodes, node);
    assert(tree::enclosing(nodes, node, node) == Some(select));
    lemma_children(nodes, select);
    let parts = tree::children(nodes, select);
    assert(parts.contains(node));
    assert(parts[0] == select + 1);
    let set = select + 1;
    if nodes[set].kind == NodeKind::Select {
        lemma_children(nodes, set);
        let inner = tree::children(nodes, set);
        if inner.len() >= 2 {
            let last = inner[1];
            assert(inner.contains(last));
            lemma_parent(nodes, last);
            assert(is_child(nodes, set, last));
            assert(tree::enclosing(nodes, last, last) == Some(set));
            assert(tree::path_to(nodes, last) == tree::select_path(nodes, set));
        }
    }
}

proof fn lemma_names_before_next(nodes: tree::Tree, parts: Seq<int>, k: int)
    requires
        0 <= k && k + 1 < parts.len(),
        forall|i: int, j: int|
            0 <= i < j < parts.len() ==> #[trigger] parts[i] < #[trigger] parts[j],
    ensures
        tree::names_before(nodes, parts, parts[k + 1]) == match tree::names_before(
            nodes,
            parts,
            parts[k],
        ) {
            Some(path) => if nodes[parts[k]].kind == NodeKind::Identifier {
                Some(path.push(nodes[parts[k]].token))
            } else {
                None
            },
            None => None,
        },
    decreases k,
{
    let rest = parts.drop_first();
    assert(parts[0] <= parts[k] < parts[k + 1]);
    assert(rest[k] == parts[k + 1]);
    if k == 0 {
        assert(rest[0] == parts[1]);
        assert(seq![nodes[parts[0]].token] + Seq::<Seq<char>>::empty() =~= Seq::<
            Seq<char>,
        >::empty().push(nodes[parts[0]].token));
    } else {
        assert(parts[0] < parts[k]);
        assert(rest[k - 1] == parts[k]);
        lemma_names_before_next(nodes, rest, k - 1);
        if let Some(path) = tree::names_before(nodes, rest, parts[k]) {
            let first = seq![nodes[parts[0]].token];
            let token = nodes[parts[k]].token;
            assert(first + path.push(token) =~= (first + path).push(token));
        }
    }
}

/// In the path that a value is bound to, the path to a part is the path to the
/// part before it, and then the name of that part.
pub proof fn law_paths_follow_the_parts(nodes: tree::Tree, key: int, part: int, next: int)
    requires
        syntax::nested(nodes),
        0 <= key < nodes.len(),
        nodes[key].kind == NodeKind::Key,
        is_child(nodes, key, part),
        is_child(nodes, key, next),
        next == part + nodes[part].extent,
    ensures
        tree::path_to(nodes, next) == match tree::path_to(nodes, part) {
            Some(path) => if nodes[part].kind == NodeKind::Identifier {
                Some(path.push(nodes[part].token))
            } else {
                None
            },
            None => None,
        },
{
    lemma_parent(nodes, part);
    lemma_parent(nodes, next);
    lemma_children(nodes, key);
    let parts = tree::children(nodes, key);
    assert(parts.contains(part) && parts.contains(next));
    let k = choose|k: int| 0 <= k < parts.len() && parts[k] == part;
    let l = choose|l: int| 0 <= l < parts.len() && parts[l] == next;
    assert(k < l) by {
        if l < k {
            assert(parts[l] < parts[k]);
        }
    }
    if k + 1 < l {
        let m = parts[k + 1];
        assert(parts.contains(m));
        assert(parts[k] < parts[k + 1] && parts[k + 1] < parts[l]);
        lemma_children_apart(nodes, key, part, m);
    }
    lemma_names_before_next(nodes, parts, k);
}

/// Whether an identifier is the first in a set to have a name.
pub open spec fn is_first_name(nodes: tree::Tree, set: int, name: Seq<char>, key: int) -> bool {
    &&& has_name(nodes, set, key)
    &&& nodes[key].token == name
    &&& forall|k: int| #[trigger]
        has_name(nodes, set, k) && nodes[k].token == name ==> key <= k
}

/// Whether a path of names leads to a set, from what holds at a node: the first
/// name is bound to a set there, and each further one is, in the set before it.
pub open spec fn path_leads(nodes: tree::Tree, at: int, path: Seq<Seq<char>>, set: int) -> bool
    decreases path.len(),
{
    nodes[set].kind == NodeKind::AttrSet && if path.len() == 0 {
        false
    } else if path.len() == 1 {
        exists|binder: int, key: int| #[trigger]
            is_decided(nodes, binder, at, path[0], key) && nodes[binder].kind != NodeKind::Lambda
                && has_value(nodes, binder, key, set)
    } else {
        exists|outer: int, key: int| #[trigger]
            is_first_name(nodes, outer, path.last(), key) && path_leads(
                nodes,
                at,
                path.drop_last(),
                outer,
            ) && has_value(nodes, outer, key, set)
    }
}

/// Whether names are those of a set.
pub open spec fn lists_set(nodes: tree::Tree, names: Seq<tree::BoundView>, set: int) -> bool {
    forall|name: Seq<char>|
        match #[trigger] tree::bound_to(names, name) {
            Some(bound) => bound.name == name && bound.set == set && is_first_name(
                nodes,
                set,
                name,
                bound.key,
            ) && forall|v: int|
                bound.value == Some(v) <==> #[trigger] has_value(nodes, set, bound.key, v),
            None => forall|k: int| #[trigger]
                has_name(nodes, set, k) ==> nodes[k].token != name,
        }
}

/// The attributes of a set, each once.
pub(crate) proof fn lemma_lists_set(nodes: tree::Tree, set: int)
    requires
        syntax::nested(nodes),
        0 <= set < nodes.len(),
    ensures
        lists_set(
            nodes,
            tree::extended(
                seq![],
                tree::entries_names(nodes, set, tree::children(nodes, set)),
            ),
            set,
        ),
{
    let names = tree::entries_names(nodes, set, tree::children(nodes, set));
    lemma_set_names(nodes, set);
    lemma_lists_names(nodes, names, set);
}

proof fn lemma_lists_names(nodes: tree::Tree, names: Seq<tree::BoundView>, set: int)
    requires
        is_list(nodes, names, set),
        forall|k: int| 0 <= k < names.len() ==> has_name(nodes, set, (#[trigger] names[k]).key),
        forall|key: int| #[trigger] has_name(nodes, set, key) ==> holds_key(names, key),
        forall|k: int, v: int|
            0 <= k < names.len() ==> ((#[trigger] names[k]).value == Some(v)
                <==> #[trigger] has_value(nodes, set, names[k].key, v)),
    ensures
        lists_set(nodes, tree::extended(seq![], names), set),
{
    let all = tree::extended(seq![], names);
    assert forall|name: Seq<char>|
        match #[trigger] tree::bound_to(all, name) {
            Some(bound) => bound.name == name && bound.set == set && is_first_name(
                nodes,
                set,
                name,
                bound.key,
            ) && forall|v: int|
                bound.value == Some(v) <==> #[trigger] has_value(nodes, set, bound.key, v),
            None => forall|k: int| #[trigger]
                has_name(nodes, set, k) ==> nodes[k].token != name,
        } by {
        lemma_extended_first(seq![], names, name);
        lemma_bound_to(names, name);
        if let Some(bound) = tree::bound_to(names, name) {
            let i = choose|i: int|
                0 <= i < names.len() && #[trigger] names[i] == bound && bound.name == name
                    && forall|j: int| 0 <= j < i ==> (#[trigger] names[j]).name != name;
            assert(has_name(nodes, set, names[i].key));
            assert forall|k: int| #[trigger]
                has_name(nodes, set, k) && nodes[k].token == name implies bound.key <= k by {
                assert(holds_key(names, k));
                let l = choose|l: int| 0 <= l < names.len() && (#[trigger] names[l]).key == k;
                assert(names[l].name == name);
                assert(l >= i);
            }
            assert forall|v: int|
                bound.value == Some(v) <==> #[trigger] has_value(nodes, set, bound.key, v) by {
                assert(names[i].value == Some(v) <==> has_value(nodes, set, names[i].key, v));
            }
        } else {
            assert forall|k: int| #[trigger] has_name(nodes, set, k) implies nodes[k].token
                != name by {
                assert(holds_key(names, k));
                let l = choose|l: int| 0 <= l < names.len() && (#[trigger] names[l]).key == k;
                assert(names[l].name != name);
            }
        }
    }
}

proof fn lemma_along_push(
    nodes: tree::Tree,
    scope: Seq<tree::BoundView>,
    path: Seq<Seq<char>>,
    name: Seq<char>,
)
    ensures
        tree::attributes_along(nodes, scope, path.push(name)) == match tree::attributes_along(
            nodes,
            scope,
            path,
        ) {
            Some(found) => tree::attributes_along(nodes, found, seq![name]),
            None => None,
        },
    decreases path.len(),
{
    if path.len() == 0 {
        assert(path.push(name) =~= seq![name]);
    } else {
        let rest = path.drop_first();
        assert(path.push(name)[0] == path[0]);
        assert(path.push(name).drop_first() =~= rest.push(name));
        if let Some(bound) = tree::bound_to(scope, path[0]) {
            if let Some(v) = bound.value {
                lemma_along_push(
                    nodes,
                    tree::extended(
                        seq![],
                        tree::entries_names(nodes, v, tree::children(nodes, v)),
                    ),
                    rest,
                    name,
                );
            }
        }
    }
}

proof fn lemma_value_in_tree(nodes: tree::Tree, set: int, key: int, value: int)
    requires
        syntax::nested(nodes),
        0 <= set < nodes.len(),
        has_value(nodes, set, key, value),
    ensures
        0 <= value < nodes.len(),
{
    let entry = choose|entry: int| #[trigger]
        is_child(nodes, set, entry) && nodes[entry].kind == NodeKind::KeyValue && nodes[entry
            + 1].kind == NodeKind::Key && key == entry + 2 && lies_in(nodes, entry + 1, key)
            && value == entry + 1 + nodes[entry + 1].extent && lies_in(nodes, entry, value);
    assert(nodes[set].extent <= nodes.len() - set);
    assert(entry + nodes[entry].extent <= set + nodes[set].extent);
}

/// What one step along a path leads to.
proof fn lemma_step(nodes: tree::Tree, scope: Seq<tree::BoundView>, name: Seq<char>)
    ensures
        tree::attributes_along(nodes, scope, seq![name]) == match tree::bound_to(scope, name) {
            Some(bound) => match bound.value {
                Some(v) => if nodes[v].kind == NodeKind::AttrSet {
                    Some(
                        tree::extended(
                            seq![],
                            tree::entries_names(nodes, v, tree::children(nodes, v)),
                        ),
                    )
                } else {
                    None
                },
                None => None,
            },
            None => None,
        },
{
    let path = seq![name];
    reveal_with_fuel(tree::attributes_along, 2);
    assert(path[0] == name);
    assert(path.drop_first() =~= Seq::<Seq<char>>::empty());
}

/// Two sets that one path leads to are the same.
pub(crate) proof fn lemma_path_leads_to_one(
    nodes: tree::Tree,
    at: int,
    path: Seq<Seq<char>>,
    a: int,
    b: int,
)
    requires
        path_leads(nodes, at, path, a),
        path_leads(nodes, at, path, b),
    ensures
        a == b,
    decreases path.len(),
{
    if path.len() == 1 {
        let (b1, k1) = choose|binder: int, key: int| #[trigger]
            is_decided(nodes, binder, at, path[0], key) && nodes[binder].kind != NodeKind::Lambda
                && has_value(nodes, binder, key, a);
        let (b2, k2) = choose|binder: int, key: int| #[trigger]
            is_decided(nodes, binder, at, path[0], key) && nodes[binder].kind != NodeKind::Lambda
                && has_value(nodes, binder, key, b);
        assert(binds_around(nodes, b1, at, path[0], k1));
        assert(binds_around(nodes, b2, at, path[0], k2));
        assert(k1 == k2);
    } else {
        let (o1, k1) = choose|outer: int, key: int| #[trigger]
            is_first_name(nodes, outer, path.last(), key) && path_leads(
                nodes,
                at,
                path.drop_last(),
                outer,
            ) && has_value(nodes, outer, key, a);
        let (o2, k2) = choose|outer: int, key: int| #[trigger]
            is_first_name(nodes, outer, path.last(), key) && path_leads(
                nodes,
                at,
                path.drop_last(),
                outer,
            ) && has_value(nodes, outer, key, b);
        lemma_path_leads_to_one(nodes, at, path.drop_last(), o1, o2);
        assert(has_name(nodes, o1, k1) && has_name(nodes, o1, k2));
    }
}

/// Whether names are those of the set that a path leads to.
pub open spec fn lists_end(
    nodes: tree::Tree,
    at: int,
    path: Seq<Seq<char>>,
    names: Seq<tree::BoundView>,
) -> bool {
    exists|set: int|
        0 <= set < nodes.len() && #[trigger] path_leads(nodes, at, path, set) && lists_set(
            nodes,
            names,
            set,
        )
}

/// The first step of a path.
proof fn lemma_first_step(nodes: tree::Tree, at: int, path: Seq<Seq<char>>)
    requires
        is_nested(nodes),
        0 <= at < nodes.len(),
        path.len() == 1,
    ensures
        match tree::attributes_along(nodes, tree::scope_at(nodes, at), path) {
            Some(found) => lists_end(nodes, at, path, found),
            None => forall|set: int| !#[trigger] path_leads(nodes, at, path, set),
        },
{
    let scope = tree::scope_at(nodes, at);
    let name = path[0];
    assert(path =~= seq![name]);
    lemma_step(nodes, scope, name);
    assert(match tree::bound_to(scope, name) {
        Some(bound) => bound.name == name && is_decided(nodes, bound.set, at, name, bound.key)
            && is_valued(nodes, bound),
        None => !is_bound_around(nodes, at, name),
    }) by {
        reveal(is_nested);
        law_innermost_binding_holds(nodes, at, name);
    }
    if let Some(bound) = tree::bound_to(scope, name) {
        if let Some(v) = bound.value {
            assert(has_value(nodes, bound.set, bound.key, v));
            if nodes[v].kind == NodeKind::AttrSet {
                let found = tree::attributes_along(nodes, scope, path)->0;
                assert(0 <= v < nodes.len() && lists_set(nodes, found, v)) by {
                    reveal(is_nested);
                    assert(binds_around(nodes, bound.set, at, name, bound.key));
                    assert(lies_in(nodes, bound.set, at));
                    lemma_value_in_tree(nodes, bound.set, bound.key, v);
                    lemma_lists_set(nodes, v);
                }
                assert(path_leads(nodes, at, path, v));
            }
        }
    }
    assert forall|set: int| #[trigger] path_leads(nodes, at, path, set) implies tree::bound_to(
        scope,
        name,
    ) is Some && tree::bound_to(scope, name)->0.value == Some(set) by {
        let (b, k) = choose|binder: int, key: int| #[trigger]
            is_decided(nodes, binder, at, path[0], key) && nodes[binder].kind != NodeKind::Lambda
                && has_value(nodes, binder, key, set);
        assert(binds_around(nodes, b, at, name, k));
        let bound = tree::bound_to(scope, name)->0;
        assert(binds_around(nodes, bound.set, at, name, bound.key));
        assert(has_value(nodes, bound.set, bound.key, set));
    }
}

/// A further step of a path.
proof fn lemma_next_step(
    nodes: tree::Tree,
    at: int,
    path: Seq<Seq<char>>,
    found: Seq<tree::BoundView>,
)
    requires
        is_nested(nodes),
        path.len() > 1,
        lists_end(nodes, at, path.drop_last(), found),
    ensures
        match tree::attributes_along(nodes, found, seq![path.last()]) {
            Some(more) => lists_end(nodes, at, path, more),
            None => forall|set: int| !#[trigger] path_leads(nodes, at, path, set),
        },
{
    let name = path.last();
    let outer = choose|set: int|
        0 <= set < nodes.len() && #[trigger] path_leads(nodes, at, path.drop_last(), set)
            && lists_set(nodes, found, set);
    lemma_step(nodes, found, name);
    if let Some(bound) = tree::bound_to(found, name) {
        assert(is_first_name(nodes, outer, name, bound.key));
        if let Some(v) = bound.value {
            assert(has_value(nodes, outer, bound.key, v));
            if nodes[v].kind == NodeKind::AttrSet {
                let more = tree::attributes_along(nodes, found, seq![name])->0;
                assert(0 <= v < nodes.len() && lists_set(nodes, more, v)) by {
                    reveal(is_nested);
                    lemma_value_in_tree(nodes, outer, bound.key, v);
                    lemma_lists_set(nodes, v);
                }
                assert(path_leads(nodes, at, path, v));
            }
        }
    }
    assert forall|set: int| #[trigger] path_leads(nodes, at, path, set) implies tree::bound_to(
        found,
        name,
    ) is Some && tree::bound_to(found, name)->0.value == Some(set) by {
        let (o, k) = choose|outer: int, key: int| #[trigger]
            is_first_name(nodes, outer, path.last(), key) && path_leads(
                nodes,
                at,
                path.drop_last(),
                outer,
            ) && has_value(nodes, outer, key, set);
        lemma_path_leads_to_one(nodes, at, path.drop_last(), o, outer);
        assert(has_name(nodes, outer, k));
        assert(tree::bound_to(found, name) is Some);
        let bound = tree::bound_to(found, name)->0;
        assert(is_first_name(nodes, outer, name, bound.key));
        assert(has_name(nodes, outer, bound.key));
        assert(bound.key == k);
        assert(has_value(nodes, outer, bound.key, set));
    }
}

proof fn lemma_along(nodes: tree::Tree, at: int, path: Seq<Seq<char>>)
    requires
        is_nested(nodes),
        0 <= at < nodes.len(),
        path.len() > 0,
    ensures
        match tree::attributes_along(nodes, tree::scope_at(nodes, at), path) {
            Some(found) => lists_end(nodes, at, path, found),
            None => forall|set: int| !#[trigger] path_leads(nodes, at, path, set),
        },
    decreases path.len(),
{
    if path.len() == 1 {
        lemma_first_step(nodes, at, path);
    } else {
        let scope = tree::scope_at(nodes, at);
        let fewer = path.drop_last();
        assert(path =~= fewer.push(path.last()));
        lemma_along_push(nodes, scope, fewer, path.last());
        lemma_along(nodes, at, fewer);
        if let Some(found) = tree::attributes_along(nodes, scope, fewer) {
            lemma_next_step(nodes, at, path, found);
        } else {
            assert forall|set: int| !#[trigger] path_leads(nodes, at, path, set) by {
                if path_leads(nodes, at, path, set) {
                    let (o, k) = choose|outer: int, key: int| #[trigger]
                        is_first_name(nodes, outer, path.last(), key) && path_leads(
                            nodes,
                            at,
                            path.drop_last(),
                            outer,
                        ) && has_value(nodes, outer, key, set);
                    assert(path_leads(nodes, at, fewer, o));
                }
            }
        }
    }
}

/// The attributes at the end of a path are those of the set that the path leads
/// to. There are none to speak of if it leads to no set.
pub proof fn law_paths_lead_to_their_sets(nodes: tree::Tree, at: int, path: Seq<Seq<char>>)
    requires
        syntax::nested(nodes),
        0 <= at < nodes.len(),
        path.len() > 0,
    ensures
        match tree::attributes_along(nodes, tree::scope_at(nodes, at), path) {
            Some(found) => lists_end(nodes, at, path, found),
            None => forall|set: int| !#[trigger] path_leads(nodes, at, path, set),
        },
{
    assert(is_nested(nodes)) by {
        reveal(is_nested);
    }
    lemma_along(nodes, at, path);
}

} // verus!
