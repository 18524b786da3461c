//! Renaming a variable.

use vstd::prelude::*;

use crate::change;
use crate::position;
use crate::position::{Range, TextRange};
use crate::syntax;
use crate::syntax::{Node, NodeKind};
use crate::text;

verus! {

/// New text for a stretch of a document.
#[derive(Debug, PartialEq, Eq)]
pub struct TextEdit {
    pub range: Range,
    pub new_text: String,
}

/// What an edit holds.
pub struct TextEditView {
    pub range: Range,
    pub new_text: Seq<char>,
}

impl DeepView for TextEdit {
    type V = TextEditView;

    open spec fn deep_view(&self) -> TextEditView {
        TextEditView { range: self.range, new_text: self.new_text@ }
    }
}

/// The edit that puts a new text at a stretch of bytes.
pub fn edit_at(code: &str, place: TextRange, new_text: String) -> (r: TextEdit)
    requires
        text::measurable(code@),
    ensures
        r.range == position::range_at(code@, place),
        r.new_text == new_text,
{
    TextEdit { range: position::range(code, place), new_text }
}

/// Where a variable occurs in a run of neighbouring subtrees, those whose nodes
/// stand from `from` up to `to`. An identifier occurs where it is spelt so. Of
/// a selection only the set can hold a variable, of an attribute path only the
/// first component. A run that is cut off inside a subtree ends before it.
pub open spec fn occurrences(
    nodes: Seq<syntax::NodeView>,
    from: int,
    to: int,
    name: Seq<char>,
) -> Seq<TextRange>
    decreases to - from,
{
    if !(0 <= from < to <= nodes.len()) || nodes[from].extent == 0 || from + nodes[from].extent
        > to {
        seq![]
    } else {
        let next = from + nodes[from].extent;
        let own = match nodes[from].kind {
            NodeKind::Identifier => if nodes[from].token == name {
                seq![nodes[from].range]
            } else {
                seq![]
            },
            NodeKind::Select | NodeKind::Key => if from + 1 < next && from + 1 + nodes[from
                + 1].extent <= next {
                occurrences(nodes, from + 1, from + 1 + nodes[from + 1].extent, name)
            } else {
                seq![]
            },
            _ => occurrences(nodes, from + 1, next, name),
        };
        own + occurrences(nodes, next, to, name)
    }
}

/// Where a variable occurs below a node.
pub open spec fn occurrences_below(
    nodes: Seq<syntax::NodeView>,
    node: int,
    name: Seq<char>,
) -> Seq<TextRange> {
    occurrences(nodes, node, node + nodes[node].extent, name)
}

/// Adds the places at which a variable occurs in a run of subtrees.
fn rename_in_nodes(
    nodes: &Vec<Node>,
    from: usize,
    to: usize,
    name: &String,
    found: &mut Vec<TextRange>,
)
    requires
        from <= to <= nodes@.len(),
    ensures
        final(found)@ == old(found)@ + occurrences(
            nodes.deep_view(),
            from as int,
            to as int,
            name@,
        ),
    decreases to - from,
{
    let ghost tree = nodes.deep_view();
    let mut i: usize = from;
    while i < to
        invariant_except_break
            from <= i <= to <= nodes@.len(),
            tree == nodes.deep_view(),
            found@ + occurrences(tree, i as int, to as int, name@) == old(found)@ + occurrences(
                tree,
                from as int,
                to as int,
                name@,
            ),
        ensures
            found@ == old(found)@ + occurrences(tree, from as int, to as int, name@),
        decreases to - i,
    {
        let node = &nodes[i];
        let ghost before = found@;
        assert(tree[i as int] == node.deep_view());
        if node.extent == 0 || node.extent > to - i {
            assert(found@ + seq![] =~= found@);
            break;
        }
        let next: usize = i + node.extent;
        match node.kind {
            NodeKind::Identifier => {
                if node.token == *name {
                    found.push(node.range);
                    assert(found@ =~= before + seq![node.range]);
                } else {
                    assert(found@ =~= before + seq![]);
                }
            },
            NodeKind::Select | NodeKind::Key => {
                if i + 1 < next && nodes[i + 1].extent <= next - i - 1 {
                    rename_in_nodes(nodes, i + 1, i + 1 + nodes[i + 1].extent, name, found);
                } else {
                    assert(found@ =~= before + seq![]);
                }
            },
            _ => {
                rename_in_nodes(nodes, i + 1, next, name, found);
            },
        }
        proof {
            let own = found@.skip(before.len() as int);
            assert(found@ =~= before + own);
            assert(occurrences(tree, i as int, to as int, name@) =~= own + occurrences(
                tree,
                next as int,
                to as int,
                name@,
            ));
            assert(found@ + occurrences(tree, next as int, to as int, name@) =~= before
                + occurrences(tree, i as int, to as int, name@));
        }
        i = next;
        if i == to {
            assert(found@ + seq![] =~= found@);
        }
    }
}

/// The edits that give a variable a new name, everywhere below a node. Below
/// an index that is no node's there is nothing.
pub fn rename_below(
    code: &str,
    nodes: &Vec<Node>,
    node: usize,
    old_name: &String,
    new_name: &String,
) -> (r: Vec<TextEdit>)
    requires
        text::measurable(code@),
    ensures
        r.deep_view() == renamings(
            code@,
            occurrences_below(nodes.deep_view(), node as int, old_name@),
            new_name@,
        ),
{
    let mut found: Vec<TextRange> = Vec::new();
    if node < nodes.len() && nodes[node].extent <= nodes.len() - node {
        rename_in_nodes(nodes, node, node + nodes[node].extent, old_name, &mut found);
    }
    let ghost places = occurrences_below(nodes.deep_view(), node as int, old_name@);
    assert(found@ =~= places);
    let mut edits: Vec<TextEdit> = Vec::new();
    let mut i: usize = 0;
    while i < found.len()
        invariant
            i <= found@.len(),
            found@ == places,
            text::measurable(code@),
            edits@.len() == i,
            forall|j: int|
                0 <= j < i ==> (#[trigger] edits@[j]).deep_view() == renamings(
                    code@,
                    places,
                    new_name@,
                )[j],
        decreases found.len() - i,
    {
        edits.push(edit_at(code, found[i], new_name.clone()));
        i = i + 1;
    }
    assert(edits.deep_view() =~= renamings(code@, places, new_name@));
    edits
}

/// The edits that put a new name in the given places.
pub open spec fn renamings(
    code: Seq<char>,
    places: Seq<TextRange>,
    new_name: Seq<char>,
) -> Seq<TextEditView> {
    places.map_values(
        |place: TextRange|
            TextEditView { range: position::range_at(code, place), new_text: new_name },
    )
}

/// Whether a place is that of an identifier of the given name in the given run.
pub open spec fn is_occurrence(
    nodes: Seq<syntax::NodeView>,
    from: int,
    to: int,
    name: Seq<char>,
    place: TextRange,
) -> bool {
    exists|i: int|
        from <= i < to && 0 <= i < nodes.len() && (#[trigger] nodes[i]).kind == NodeKind::Identifier
            && nodes[i].token == name && nodes[i].range == place
}

/// Only identifiers of the given name are found, and only in the given run.
pub proof fn law_only_the_name_is_found(
    nodes: Seq<syntax::NodeView>,
    from: int,
    to: int,
    name: Seq<char>,
)
    ensures
        forall|k: int|
            0 <= k < occurrences(nodes, from, to, name).len() ==> is_occurrence(
                nodes,
                from,
                to,
                name,
                #[trigger] occurrences(nodes, from, to, name)[k],
            ),
    decreases to - from,
{
    let all = occurrences(nodes, from, to, name);
    if 0 <= from < to <= nodes.len() && nodes[from].extent != 0 && from + nodes[from].extent <= to {
        let next = from + nodes[from].extent;
        let rest = occurrences(nodes, next, to, name);
        let inner_end = match nodes[from].kind {
            NodeKind::Select | NodeKind::Key => from + 1 + nodes[from + 1].extent,
            _ => next,
        };
        let inner = occurrences(nodes, from + 1, inner_end, name);
        let n = all.len() - rest.len();
        law_only_the_name_is_found(nodes, next, to, name);
        if inner_end <= next {
            law_only_the_name_is_found(nodes, from + 1, inner_end, name);
        }
        assert forall|k: int| 0 <= k < all.len() implies is_occurrence(
            nodes,
            from,
            to,
            name,
            #[trigger] all[k],
        ) by {
            if k >= n {
                assert(all[k] == rest[k - n]);
                assert(is_occurrence(nodes, next, to, name, rest[k - n]));
            } else if nodes[from].kind == NodeKind::Identifier {
                assert(all[k] == nodes[from].range);
            } else {
                assert(all[k] == inner[k]);
                assert(is_occurrence(nodes, from + 1, inner_end, name, inner[k]));
            }
        }
    }
}

/// No place is found twice, and none overlaps another: each ends before the next
/// one begins.
pub proof fn law_occurrences_do_not_overlap(
    nodes: Seq<syntax::NodeView>,
    from: int,
    to: int,
    name: Seq<char>,
)
    requires
        syntax::nested(nodes),
    ensures
        forall|k: int, l: int|
            0 <= k < l < occurrences(nodes, from, to, name).len() ==> (#[trigger] occurrences(
                nodes,
                from,
                to,
                name,
            )[k]).end <= (#[trigger] occurrences(nodes, from, to, name)[l]).start,
    decreases to - from,
{
    let all = occurrences(nodes, from, to, name);
    if 0 <= from < to <= nodes.len() && from + nodes[from].extent <= to {
        let next = from + nodes[from].extent;
        let rest = occurrences(nodes, next, to, name);
        let inner_end = match nodes[from].kind {
            NodeKind::Select | NodeKind::Key => from + 1 + nodes[from + 1].extent,
            _ => next,
        };
        let inner = occurrences(nodes, from + 1, inner_end, name);
        let n = all.len() - rest.len();
        law_occurrences_do_not_overlap(nodes, next, to, name);
        law_only_the_name_is_found(nodes, next, to, name);
        if inner_end <= next {
            law_occurrences_do_not_overlap(nodes, from + 1, inner_end, name);
            law_only_the_name_is_found(nodes, from + 1, inner_end, name);
        }
        assert forall|k: int, l: int| 0 <= k < l < all.len() implies (#[trigger] all[k]).end <= (
        #[trigger] all[l]).start by {
            if k >= n {
                assert(all[k] == rest[k - n] && all[l] == rest[l - n]);
            } else if l < n {
                assert(all[k] == inner[k] && all[l] == inner[l]);
            } else {
                assert(all[l] == rest[l - n]);
                assert(is_occurrence(nodes, next, to, name, rest[l - n]));
                if nodes[from].kind == NodeKind::Identifier {
                    assert(all[k] == nodes[from].range);
                } else {
                    assert(all[k] == inner[k]);
                    assert(is_occurrence(nodes, from + 1, inner_end, name, inner[k]));
                }
            }
        }
    }
}

/// Whether a node stands below another one.
pub open spec fn is_below(nodes: Seq<syntax::NodeView>, node: int, above: int) -> bool {
    above < node < above + nodes[above].extent
}

/// Whether the node at an index can be a variable: it stands behind no dot, and
/// below no other identifier.
pub open spec fn is_free(nodes: Seq<syntax::NodeView>, from: int, index: int) -> bool {
    forall|i: int|
        from <= i && #[trigger] is_below(nodes, index, i) ==> match nodes[i].kind {
            NodeKind::Identifier => false,
            NodeKind::Select | NodeKind::Key => index < i + 1 + nodes[i + 1].extent,
            _ => true,
        }
}

/// No occurrence is missed: every identifier of the name below a node is found,
/// but for those behind a dot.
pub proof fn law_every_variable_is_found(
    nodes: Seq<syntax::NodeView>,
    node: int,
    name: Seq<char>,
    index: int,
)
    requires
        syntax::nested(nodes),
        0 <= node <= index < nodes.len(),
        index < node + nodes[node].extent,
        nodes[index].kind == NodeKind::Identifier,
        nodes[index].token == name,
        is_free(nodes, node, index),
    ensures
        occurrences_below(nodes, node, name).contains(nodes[index].range),
{
    let to = node + nodes[node].extent;
    assert forall|i: int| node <= i < to implies i + (#[trigger] nodes[i]).extent <= to by {
        assert(nodes[node].extent <= nodes.len() - node);
    }
    lemma_found_in_run(nodes, node, to, name, index);
}

proof fn lemma_found_in_run(
    nodes: Seq<syntax::NodeView>,
    from: int,
    to: int,
    name: Seq<char>,
    index: int,
)
    requires
        syntax::nested(nodes),
        0 <= from <= index < to <= nodes.len(),
        forall|i: int| from <= i < to ==> i + (#[trigger] nodes[i]).extent <= to,
        nodes[index].kind == NodeKind::Identifier,
        nodes[index].token == name,
        is_free(nodes, from, index),
    ensures
        occurrences(nodes, from, to, name).contains(nodes[index].range),
    decreases to - from,
{
    let all = occurrences(nodes, from, to, name);
    let next = from + nodes[from].extent;
    let rest = occurrences(nodes, next, to, name);
    let n = all.len() - rest.len();
    if index >= next {
        lemma_found_in_run(nodes, next, to, name, index);
        let k = choose|k: int| 0 <= k < rest.len() && rest[k] == nodes[index].range;
        assert(all[n + k] == rest[k]);
    } else if index == from {
        assert(all[0] == nodes[index].range);
    } else {
        assert(is_below(nodes, index, from));
        let inner_end = match nodes[from].kind {
            NodeKind::Select | NodeKind::Key => from + 1 + nodes[from + 1].extent,
            _ => next,
        };
        let inner = occurrences(nodes, from + 1, inner_end, name);
        lemma_found_in_run(nodes, from + 1, inner_end, name, index);
        let k = choose|k: int| 0 <= k < inner.len() && inner[k] == nodes[index].range;
        assert(all[k] == inner[k]);
    }
}

/// Whether a place is that of an identifier of a name that can be a variable, in
/// a run of subtrees.
pub open spec fn is_variable_at(
    nodes: Seq<syntax::NodeView>,
    from: int,
    to: int,
    name: Seq<char>,
    place: TextRange,
) -> bool {
    exists|i: int|
        from <= i < to && 0 <= i < nodes.len() && (#[trigger] nodes[i]).kind == NodeKind::Identifier
            && nodes[i].token == name && nodes[i].range == place && is_free(nodes, from, i)
}

/// Nothing behind a dot is found.
pub proof fn law_only_variables_are_found(
    nodes: Seq<syntax::NodeView>,
    from: int,
    to: int,
    name: Seq<char>,
)
    requires
        syntax::nested(nodes),
    ensures
        forall|k: int|
            0 <= k < occurrences(nodes, from, to, name).len() ==> is_variable_at(
                nodes,
                from,
                to,
                name,
                #[trigger] occurrences(nodes, from, to, name)[k],
            ),
    decreases to - from,
{
    let all = occurrences(nodes, from, to, name);
    if 0 <= from < to <= nodes.len() && nodes[from].extent != 0 && from + nodes[from].extent <= to {
        let next = from + nodes[from].extent;
        let rest = occurrences(nodes, next, to, name);
        let inner_end = match nodes[from].kind {
            NodeKind::Select | NodeKind::Key => from + 1 + nodes[from + 1].extent,
            _ => next,
        };
        let inner = occurrences(nodes, from + 1, inner_end, name);
        let n = all.len() - rest.len();
        law_only_variables_are_found(nodes, next, to, name);
        if inner_end <= next {
            law_only_variables_are_found(nodes, from + 1, inner_end, name);
        }
        assert forall|k: int| 0 <= k < all.len() implies is_variable_at(
            nodes,
            from,
            to,
            name,
            #[trigger] all[k],
        ) by {
            if k >= n {
                assert(all[k] == rest[k - n]);
                assert(is_variable_at(nodes, next, to, name, rest[k - n]));
                let j = choose|j: int|
                    next <= j < to && 0 <= j < nodes.len() && (#[trigger] nodes[j]).kind
                        == NodeKind::Identifier && nodes[j].token == name && nodes[j].range
                        == rest[k - n] && is_free(nodes, next, j);
                assert forall|i: int| from <= i && #[trigger] is_below(nodes, j, i) implies i
                    >= next by {
                    if i < next {
                        assert(i + nodes[i].extent <= next);
                    }
                }
                assert(is_free(nodes, from, j));
            } else if nodes[from].kind == NodeKind::Identifier {
                assert(all[k] == nodes[from].range);
                assert(is_free(nodes, from, from));
            } else {
                assert(all[k] == inner[k]);
                assert(is_variable_at(nodes, from + 1, inner_end, name, inner[k]));
                let j = choose|j: int|
                    from + 1 <= j < inner_end && 0 <= j < nodes.len() && (#[trigger] nodes[j]).kind
                        == NodeKind::Identifier && nodes[j].token == name && nodes[j].range
                        == inner[k] && is_free(nodes, from + 1, j);
                assert forall|i: int| from <= i && #[trigger] is_below(nodes, j, i) implies i
                    == from || i >= from + 1 by {
                }
                assert(is_free(nodes, from, j));
            }
        }
    }
}

/// Of a selection, and of an attribute path, only the first part is renamed.
/// The attributes behind the dots stay as they are.
pub proof fn law_attributes_stay(nodes: Seq<syntax::NodeView>, node: int, name: Seq<char>)
    requires
        0 <= node,
        node + nodes[node].extent <= nodes.len(),
        nodes[node].extent >= 2,
        1 + nodes[node + 1].extent <= nodes[node].extent,
        nodes[node].kind == NodeKind::Select || nodes[node].kind == NodeKind::Key,
    ensures
        occurrences_below(nodes, node, name) == occurrences_below(nodes, node + 1, name),
{
    let next = node + nodes[node].extent;
    assert(occurrences(nodes, next, next, name) =~= seq![]);
    assert(occurrences_below(nodes, node + 1, name) + seq![] =~= occurrences_below(
        nodes,
        node + 1,
        name,
    ));
}

/// Whether an edit of a text puts a new name where an old one stands, and
/// leaves everything else as it is.
pub open spec fn puts_name(
    code: Seq<char>,
    edit: TextEditView,
    old_name: Seq<char>,
    new_name: Seq<char>,
) -> bool {
    exists|i: int|
        #![trigger code.take(i)]
        0 <= i && i + old_name.len() <= code.len() && code.subrange(i, i + old_name.len())
            == old_name && change::has_range(code, edit.range) && change::replaced(
            code,
            edit.range,
            edit.new_text,
        ) == code.take(i) + new_name + code.skip(i + old_name.len())
}

pub(crate) proof fn lemma_edit_puts_name(
    code: Seq<char>,
    place: TextRange,
    old_name: Seq<char>,
    new_name: Seq<char>,
)
    requires
        text::measurable(code),
        syntax::stands_at(code, place, old_name),
    ensures
        puts_name(
            code,
            (TextEditView { range: position::range_at(code, place), new_text: new_name }),
            old_name,
            new_name,
        ),
{
    let i = choose|i: int|
        #![trigger code.take(i)]
        0 <= i && i + old_name.len() <= code.len() && code.subrange(i, i + old_name.len())
            == old_name && place.start == text::byte_len(code.take(i)) && place.end
            == text::byte_len(code.take(i + old_name.len()));
    change::law_reported_range_is_replaced(code, i, i + old_name.len(), new_name);
    assert(code.take(i) == code.take(i));
}

/// Each edit of a renaming puts the new name where the old one stands, provided
/// the identifiers in the tree stand in the text.
pub proof fn law_renaming_puts_the_new_name(
    code: Seq<char>,
    nodes: Seq<syntax::NodeView>,
    node: int,
    old_name: Seq<char>,
    new_name: Seq<char>,
)
    requires
        text::measurable(code),
        syntax::spelt_out(code, nodes),
    ensures
        ({
            let edits = renamings(code, occurrences_below(nodes, node, old_name), new_name);
            forall|k: int|
                0 <= k < edits.len() ==> puts_name(code, #[trigger] edits[k], old_name, new_name)
        }),
{
    let places = occurrences_below(nodes, node, old_name);
    let edits = renamings(code, places, new_name);
    law_only_the_name_is_found(nodes, node, node + nodes[node].extent, old_name);
    assert forall|k: int| 0 <= k < edits.len() implies puts_name(
        code,
        #[trigger] edits[k],
        old_name,
        new_name,
    ) by {
        let place = places[k];
        assert(is_occurrence(nodes, node, node + nodes[node].extent, old_name, place));
        lemma_edit_puts_name(code, place, old_name, new_name);
    }
}

/// Whether edits stand in the order of the text, and none overlaps another.
pub open spec fn in_order(edits: Seq<TextEditView>) -> bool {
    forall|k: int, l: int|
        0 <= k < l < edits.len() ==> position::precedes(
            (#[trigger] edits[k]).range.end,
            (#[trigger] edits[l]).range.start,
        )
}

/// The edits of a renaming stand in the order of the text, and none overlaps
/// another.
pub proof fn law_renaming_is_in_order(
    code: Seq<char>,
    nodes: Seq<syntax::NodeView>,
    node: int,
    old_name: Seq<char>,
    new_name: Seq<char>,
)
    requires
        text::measurable(code),
        syntax::nested(nodes),
    ensures
        in_order(renamings(code, occurrences_below(nodes, node, old_name), new_name)),
{
    let places = occurrences_below(nodes, node, old_name);
    let edits = renamings(code, places, new_name);
    law_occurrences_do_not_overlap(nodes, node, node + nodes[node].extent, old_name);
    assert forall|k: int, l: int| 0 <= k < l < edits.len() implies position::precedes(
        (#[trigger] edits[k]).range.end,
        (#[trigger] edits[l]).range.start,
    ) by {
        assert(places[k].end <= places[l].start);
        position::law_positions_keep_order(code, places[k].end as int, places[l].start as int);
    }
}

} // verus!
