//! What the answers of the server mean: each is tied to the text, to the tree
//! and to the place that the editor asks about.

use lsp_server::RequestId;
use vstd::prelude::*;

use crate::binding;
use crate::change;
use crate::change::ContentChange;
use crate::document;
use crate::layout;
use crate::links;
use crate::position;
use crate::position::{Position, Range, TextRange};
use crate::rename;
use crate::scope;
use crate::server;
use crate::server::{Notification, Payload, Request, Response, TextDocumentPosition};
use crate::syntax;
use crate::syntax::NodeKind;
use crate::text;
use crate::tree;

verus! {

/// Whether the cursor stands on an identifier of an open document.
pub open spec fn stands_on(
    texts: server::Texts,
    at: TextDocumentPosition,
    offset: u32,
    ident: int,
) -> bool {
    &&& texts.contains_key(at.uri@)
    &&& document::is_parsed(texts[at.uri@])
    &&& position::offset_at(texts[at.uri@], at.position) == Some(offset as nat)
    &&& binding::is_at(syntax::nodes_of(texts[at.uri@]), offset, ident)
}

/// Whether a name, in the place of an identifier, stands for what another
/// identifier names in a let, a set or a function: for a variable it is that of
/// the innermost binding, and for an attribute that of the set which the path
/// to it leads to.
pub open spec fn means(
    nodes: tree::Tree,
    ident: int,
    name: Seq<char>,
    set: int,
    key: int,
) -> bool {
    if binding::is_variable(nodes, ident) {
        binding::is_decided(nodes, set, ident, name, key)
    } else {
        match tree::path_to(nodes, ident) {
            Some(path) => binding::path_leads(nodes, ident, path, set) && binding::is_first_name(
                nodes,
                set,
                name,
                key,
            ),
            None => false,
        }
    }
}

/// Whether a name, in the place of an identifier, stands for anything in the
/// file.
pub open spec fn has_meaning(nodes: tree::Tree, ident: int, name: Seq<char>) -> bool {
    exists|set: int, key: int| #[trigger] means(nodes, ident, name, set, key)
}

/// The names that could stand in the place of an identifier.
spec fn are_found(nodes: tree::Tree, ident: int, found: Seq<tree::BoundView>) -> bool {
    forall|name: Seq<char>|
        match #[trigger] tree::bound_to(found, name) {
            Some(bound) => bound.name == name && means(nodes, ident, name, bound.set, bound.key),
            None => !has_meaning(nodes, ident, name),
        }
}

proof fn lemma_found(nodes: tree::Tree, ident: int)
    requires
        syntax::nested(nodes),
        0 <= ident < nodes.len(),
    ensures
        match tree::path_to(nodes, ident) {
            Some(path) => match tree::attributes_along(
                nodes,
                tree::scope_at(nodes, ident),
                path,
            ) {
                Some(found) => are_found(nodes, ident, found),
                None => forall|name: Seq<char>| !#[trigger] has_meaning(nodes, ident, name),
            },
            None => forall|name: Seq<char>| !#[trigger] has_meaning(nodes, ident, name),
        },
        binding::is_variable(nodes, ident) <==> tree::path_to(nodes, ident) == Some(
            Seq::<Seq<char>>::empty(),
        ),
{
    let scope = tree::scope_at(nodes, ident);
    binding::law_variables_are_selected_from_nothing(nodes, ident);
    if binding::is_variable(nodes, ident) {
        assert(tree::attributes_along(nodes, scope, Seq::<Seq<char>>::empty()) == Some(scope));
        assert forall|name: Seq<char>|
            match #[trigger] tree::bound_to(scope, name) {
                Some(bound) => bound.name == name && means(
                    nodes,
                    ident,
                    name,
                    bound.set,
                    bound.key,
                ),
                None => !has_meaning(nodes, ident, name),
            } by {
            binding::law_innermost_binding_holds(nodes, ident, name);
            if tree::bound_to(scope, name) is None && has_meaning(nodes, ident, name) {
                let (set, key) = choose|set: int, key: int| #[trigger]
                    means(nodes, ident, name, set, key);
                assert(binding::binds_around(nodes, set, ident, name, key));
            }
        }
    } else if let Some(path) = tree::path_to(nodes, ident) {
        assert(path.len() > 0) by {
            if path.len() == 0 {
                assert(path =~= Seq::<Seq<char>>::empty());
            }
        }
        binding::law_paths_lead_to_their_sets(nodes, ident, path);
        if let Some(found) = tree::attributes_along(nodes, scope, path) {
            let set = choose|set: int|
                0 <= set < nodes.len() && #[trigger] binding::path_leads(nodes, ident, path, set)
                    && binding::lists_set(nodes, found, set);
            assert forall|name: Seq<char>|
                match #[trigger] tree::bound_to(found, name) {
                    Some(bound) => bound.name == name && means(
                        nodes,
                        ident,
                        name,
                        bound.set,
                        bound.key,
                    ),
                    None => !has_meaning(nodes, ident, name),
                } by {
                if tree::bound_to(found, name) is None && has_meaning(nodes, ident, name) {
                    let (s, k) = choose|s: int, k: int| #[trigger] means(nodes, ident, name, s, k);
                    binding::lemma_path_leads_to_one(nodes, ident, path, s, set);
                    assert(binding::has_name(nodes, set, k));
                }
            }
        } else {
            assert forall|name: Seq<char>| !#[trigger] has_meaning(nodes, ident, name) by {
                if has_meaning(nodes, ident, name) {
                    let (s, k) = choose|s: int, k: int| #[trigger] means(nodes, ident, name, s, k);
                    assert(binding::path_leads(nodes, ident, path, s));
                }
            }
        }
    } else {
        assert forall|name: Seq<char>| !#[trigger] has_meaning(nodes, ident, name) by {
            if has_meaning(nodes, ident, name) {
                let (s, k) = choose|s: int, k: int| #[trigger] means(nodes, ident, name, s, k);
            }
        }
    }
}

/// A name stands for one thing.
pub proof fn law_meanings_are_unique(
    nodes: tree::Tree,
    ident: int,
    name: Seq<char>,
    set: int,
    key: int,
    other_set: int,
    other_key: int,
)
    requires
        means(nodes, ident, name, set, key),
        means(nodes, ident, name, other_set, other_key),
    ensures
        set == other_set,
        key == other_key,
{
    if binding::is_variable(nodes, ident) {
        assert(binding::binds_around(nodes, set, ident, name, key));
        assert(binding::binds_around(nodes, other_set, ident, name, other_key));
    } else {
        let path = tree::path_to(nodes, ident)->0;
        binding::lemma_path_leads_to_one(nodes, ident, path, set, other_set);
        assert(binding::has_name(nodes, set, key));
        assert(binding::has_name(nodes, set, other_key));
    }
}

proof fn lemma_variables_of(
    file: Seq<char>,
    nodes: tree::Tree,
    names: Seq<tree::BoundView>,
    name: Seq<char>,
)
    ensures
        scope::variable_named(scope::variables_of(file, nodes, names), name)
            == match tree::bound_to(names, name) {
            Some(bound) => Some(scope::variable_of(file, nodes, bound)),
            None => None,
        },
    decreases names.len(),
{
    let variables = scope::variables_of(file, nodes, names);
    if names.len() > 0 {
        assert(variables[0] == scope::variable_of(file, nodes, names[0]));
        assert(variables.drop_first() =~= scope::variables_of(file, nodes, names.drop_first()));
        lemma_variables_of(file, nodes, names.drop_first(), name);
    }
}

/// The definition of what the cursor stands on is the identifier that it stands
/// for: of a variable the one in the innermost let, recursive set or function
/// around it that binds the name, and of an attribute the one in the set that it
/// is selected from. What stands for nothing in the file has no definition.
pub proof fn law_definition_is_what_the_name_means(
    texts: server::Texts,
    id: RequestId,
    at: TextDocumentPosition,
    r: Response,
    offset: u32,
    ident: int,
)
    requires
        stands_on(texts, at, offset, ident),
        server::is_answer(texts, id, (Request::GotoDefinition { at }), r),
    ensures
        r.id == id,
        r.result matches Ok(Payload::Definition(found)) && {
            let code = texts[at.uri@];
            let nodes = syntax::nodes_of(code);
            let name = nodes[ident].token;
            &&& forall|set: int, key: int| #[trigger]
                means(nodes, ident, name, set, key) ==> found.deep_view() == Some(
                    scope::LocationView {
                        uri: at.uri@,
                        range: position::range_at(code, nodes[key].range),
                    },
                )
            &&& !has_meaning(nodes, ident, name) ==> found is None
        },
{
    let code = texts[at.uri@];
    let nodes = syntax::nodes_of(code);
    let name = nodes[ident].token;
    binding::law_identifier_at_the_cursor(nodes, offset, ident);
    lemma_found(nodes, ident);
    let cursor = server::cursor_in(texts, at, seq![]);
    let names = tree::scope_at(nodes, ident);
    let found = r.result->Ok_0->Definition_0;
    assert(found.deep_view() == server::definition_of(texts, at, cursor));
    if let Some(path) = tree::path_to(nodes, ident) {
        if let Some(names) = tree::attributes_along(nodes, tree::scope_at(nodes, ident), path) {
            lemma_variables_of(at.uri@, nodes, names, name);
            assert(cursor is Some);
            assert(cursor->0.scope == scope::variables_of(at.uri@, nodes, names));
            if let Some(bound) = tree::bound_to(names, name) {
                assert(means(nodes, ident, name, bound.set, bound.key));
                assert forall|set: int, key: int| #[trigger]
                    means(nodes, ident, name, set, key) implies key == bound.key by {
                    law_meanings_are_unique(
                        nodes,
                        ident,
                        name,
                        set,
                        key,
                        bound.set,
                        bound.key,
                    );
                }
            } else {
                assert forall|set: int, key: int| !#[trigger] means(
                    nodes,
                    ident,
                    name,
                    set,
                    key,
                ) by {
                    assert(!has_meaning(nodes, ident, name));
                }
            }
        } else {
            assert(!has_meaning(nodes, ident, name));
        }
    } else {
        assert(!has_meaning(nodes, ident, name));
    }
}

/// Whether there is nothing at a place to ask about: the document is not open, it
/// has no such line, or the cursor touches no identifier there.
pub open spec fn is_nowhere(texts: server::Texts, at: TextDocumentPosition) -> bool {
    texts.contains_key(at.uri@) ==> match position::offset_at(texts[at.uri@], at.position) {
        Some(n) => {
            let nodes = syntax::nodes_of(texts[at.uri@]);
            forall|j: int|
                0 <= j < nodes.len() ==> !binding::ends_behind(#[trigger] nodes[j], n as u32)
                    && !binding::begins_before(nodes[j], n as u32)
        },
        None => true,
    }
}

/// Where there is nothing to ask about, nothing is defined, completed or renamed.
pub proof fn law_nothing_is_found_nowhere(
    texts: server::Texts,
    id: RequestId,
    at: TextDocumentPosition,
    globals: Vec<scope::Variable>,
    new_name: String,
    r: Response,
)
    requires
        is_nowhere(texts, at),
    ensures
        server::is_answer(texts, id, (Request::GotoDefinition { at }), r) ==> (
        r.result matches Ok(Payload::Definition(found)) && found is None),
        server::is_answer(texts, id, (Request::Completion { at, globals }), r) ==> (
        r.result matches Ok(Payload::Completions(found)) && found@.len() == 0),
        server::is_answer(texts, id, (Request::Rename { at, new_name }), r) ==> (
        r.result matches Ok(Payload::Changes(found)) && found is None),
{
    if server::is_place(texts, at) {
        let n = position::offset_at(texts[at.uri@], at.position)->0;
        binding::law_identifier_at_the_cursor(syntax::nodes_of(texts[at.uri@]), n as u32, 0);
    }
    if server::is_answer(texts, id, (Request::Completion { at, globals }), r) {
        let found = r.result->Ok_0->Completions_0;
        assert(found.deep_view().len() == found@.len());
    }
}

/// Every request is answered, but for that to format a document which cannot be
/// formatted.
pub proof fn law_requests_can_be_answered(texts: server::Texts, request: Request, uri: String)
    ensures
        request !is Formatting ==> server::can_answer(texts, request),
        server::can_answer(texts, (Request::Formatting { uri })) <==> !texts.contains_key(uri@)
            || layout::formattable(texts[uri@]),
{
}

/// Whether a variable is the first of its name.
pub open spec fn is_first_variable(variables: Seq<scope::VariableView>, i: int) -> bool {
    0 <= i < variables.len() && forall|j: int|
        0 <= j < i ==> (#[trigger] variables[j]).name != variables[i].name
}

proof fn lemma_joined(
    variables: Seq<scope::VariableView>,
    more: Seq<scope::VariableView>,
)
    ensures
        ({
            let all = scope::joined(variables, more);
            &&& variables.len() <= all.len()
            &&& forall|i: int| 0 <= i < variables.len() ==> #[trigger] all[i] == variables[i]
            &&& forall|i: int|
                variables.len() <= i < all.len() ==> !scope::has_variable(
                    variables,
                    (#[trigger] all[i]).name,
                ) && exists|g: int| #[trigger]
                    is_first_variable(more, g) && more[g] == all[i]
            &&& forall|name: Seq<char>| #[trigger]
                scope::has_variable(all, name) <==> scope::has_variable(variables, name)
                    || scope::has_variable(more, name)
            &&& scope::distinct(variables) ==> scope::distinct(all)
        }),
    decreases more.len(),
{
    let all = scope::joined(variables, more);
    if more.len() > 0 {
        let fewer = more.drop_last();
        let last = more.last();
        let n = more.len() - 1;
        let before = scope::joined(variables, fewer);
        lemma_joined(variables, fewer);
        assert(more[n] == last);
        assert forall|name: Seq<char>| #[trigger]
            scope::has_variable(all, name) <==> scope::has_variable(variables, name)
                || scope::has_variable(more, name) by {
            assert(scope::has_variable(before, name) <==> scope::has_variable(variables, name)
                || scope::has_variable(fewer, name));
            if scope::has_variable(fewer, name) {
                let i = choose|i: int| 0 <= i < fewer.len() && (#[trigger] fewer[i]).name == name;
                assert(more[i].name == name);
            }
            if scope::has_variable(more, name) {
                let i = choose|i: int| 0 <= i < more.len() && (#[trigger] more[i]).name == name;
                if i < n {
                    assert(fewer[i].name == name);
                }
            }
            if scope::has_variable(before, name) {
                let i = choose|i: int| 0 <= i < before.len() && (#[trigger] before[i]).name == name;
                assert(all[i].name == name);
            }
            if scope::has_variable(all, name) {
                let i = choose|i: int| 0 <= i < all.len() && (#[trigger] all[i]).name == name;
                if i < before.len() {
                    assert(before[i].name == name);
                }
            }
            if last.name == name && !scope::has_variable(before, name) {
                assert(all[before.len() as int].name == name);
            }
        }
        assert forall|i: int| variables.len() <= i < all.len() implies !scope::has_variable(
            variables,
            (#[trigger] all[i]).name,
        ) && exists|g: int| #[trigger] is_first_variable(more, g) && more[g] == all[i] by {
            if i < before.len() {
                assert(all[i] == before[i]);
                let g = choose|g: int| #[trigger]
                    is_first_variable(fewer, g) && fewer[g] == before[i];
                assert forall|j: int| 0 <= j < g implies (#[trigger] more[j]).name
                    != more[g].name by {
                    assert(fewer[j].name != fewer[g].name);
                }
                assert(is_first_variable(more, g));
            } else {
                assert(!scope::has_variable(before, last.name));
                assert(!scope::has_variable(fewer, last.name));
                assert forall|j: int| 0 <= j < n implies (#[trigger] more[j]).name != last.name by {
                    assert(fewer[j] == more[j]);
                }
                assert(is_first_variable(more, n));
            }
        }
        if scope::distinct(variables) {
            assert forall|i: int, j: int| 0 <= i < j < all.len() implies (#[trigger] all[i]).name
                != (#[trigger] all[j]).name by {
                assert(all[i] == before[i]);
                if j < before.len() {
                    assert(all[j] == before[j]);
                } else {
                    assert(before[i].name != last.name);
                }
            }
        }
    }
}

/// Whether a completion is the one that a variable of a scope makes: it is
/// labelled with the name, describes it as the variable is described, and puts
/// it at a stretch of the text.
pub open spec fn completes(
    code: Seq<char>,
    place: TextRange,
    variable: scope::VariableView,
    item: scope::CompletionItemView,
) -> bool {
    &&& item.label == variable.name
    &&& item.new_text == variable.name
    &&& item.documentation == variable.documentation
    &&& item.deprecated == variable.deprecated
    &&& item.detail == variable.detail
    &&& item.range == position::range_at(code, place)
}

/// The completions of what has been typed, given what the cursor stands on, are
/// those of the variables whose names begin with it. None is left out, none is
/// added, and they keep their order.
pub proof fn law_completions_are_those_of_the_scope(
    texts: server::Texts,
    at: TextDocumentPosition,
    cursor: scope::CursorView,
)
    requires
        server::is_place(texts, at),
    ensures
        ({
            let items = server::completions_at(texts, at, Some(cursor))->0;
            let code = texts[at.uri@];
            &&& server::completions_at(texts, at, Some(cursor)) is Some
            &&& are_completions(code, cursor, items)
        }),
{
    lemma_completions(texts[at.uri@], cursor, cursor.scope.len() as int);
    assert(cursor.scope.take(cursor.scope.len() as int) =~= cursor.scope);
}

/// Whether completions are those of the variables of a scope whose names begin
/// with what has been typed, in their order.
pub open spec fn are_completions(
    code: Seq<char>,
    cursor: scope::CursorView,
    items: Seq<scope::CompletionItemView>,
) -> bool {
    exists|order: Seq<int>| #[trigger] is_selection(code, cursor, items, order)
}

/// Whether completions are those of chosen variables of a scope, in order.
pub open spec fn is_selection(
    code: Seq<char>,
    cursor: scope::CursorView,
    items: Seq<scope::CompletionItemView>,
    order: Seq<int>,
) -> bool {
    &&& order.len() == items.len()
    &&& forall|k: int|
        0 <= k < order.len() ==> 0 <= #[trigger] order[k] < cursor.scope.len()
            && cursor.typed.is_prefix_of(cursor.scope[order[k]].name) && completes(
            code,
            cursor.ident_range,
            cursor.scope[order[k]],
            items[k],
        )
    &&& forall|k: int, l: int| 0 <= k < l < order.len() ==> #[trigger] order[k] < #[trigger] order[l]
    &&& forall|i: int|
        0 <= i < cursor.scope.len() && cursor.typed.is_prefix_of(
            (#[trigger] cursor.scope[i]).name,
        ) ==> order.contains(i)
}

proof fn lemma_completions(code: Seq<char>, cursor: scope::CursorView, n: int)
    requires
        0 <= n <= cursor.scope.len(),
    ensures
        ({
            let items = scope::completions_of(
                code,
                cursor.ident_range,
                cursor.scope.take(n),
                cursor.typed,
            );
            are_completions(
                code,
                (scope::CursorView { scope: cursor.scope.take(n), ..cursor }),
                items,
            )
        }),
    decreases n,
{
    let part = scope::CursorView { scope: cursor.scope.take(n), ..cursor };
    let items = scope::completions_of(code, cursor.ident_range, part.scope, cursor.typed);
    if n == 0 {
        assert(is_selection(code, part, items, seq![]));
    } else {
        lemma_completions(code, cursor, n - 1);
        let fewer = scope::CursorView { scope: cursor.scope.take(n - 1), ..cursor };
        let before = scope::completions_of(code, cursor.ident_range, fewer.scope, cursor.typed);
        assert(part.scope.drop_last() =~= fewer.scope);
        assert(forall|i: int| 0 <= i < n - 1 ==> part.scope[i] == fewer.scope[i]);
        let order = choose|order: Seq<int>| #[trigger] is_selection(code, fewer, before, order);
        if cursor.typed.is_prefix_of(part.scope.last().name) {
            let more = order.push(n - 1);
            assert forall|i: int|
                0 <= i < part.scope.len() && part.typed.is_prefix_of(
                    (#[trigger] part.scope[i]).name,
                ) implies more.contains(i) by {
                if i < n - 1 {
                    assert(part.scope[i] == fewer.scope[i]);
                    assert(order.contains(i));
                    let k = choose|k: int| 0 <= k < order.len() && order[k] == i;
                    assert(more[k] == i);
                } else {
                    assert(more[order.len() as int] == i);
                }
            }
            assert forall|k: int| 0 <= k < more.len() implies 0 <= #[trigger] more[k]
                < part.scope.len() && part.typed.is_prefix_of(part.scope[more[k]].name)
                && completes(code, part.ident_range, part.scope[more[k]], items[k]) by {
                if k < order.len() {
                    assert(more[k] == order[k]);
                    assert(items[k] == before[k]);
                }
            }
            assert(is_selection(code, part, items, more));
        } else {
            assert forall|i: int|
                0 <= i < part.scope.len() && part.typed.is_prefix_of(
                    (#[trigger] part.scope[i]).name,
                ) implies order.contains(i) by {
                assert(i < n - 1);
                assert(part.scope[i] == fewer.scope[i]);
            }
            assert(is_selection(code, part, items, order));
        }
    }
}

/// Whether a completion describes what a name stands for in a file: by the kind
/// of the node that binds it.
pub open spec fn describes(nodes: tree::Tree, set: int, item: scope::CompletionItemView) -> bool {
    &&& item.documentation is None
    &&& !item.deprecated
    &&& item.detail == match nodes[set].kind {
        NodeKind::Lambda => "Parameter"@,
        NodeKind::AttrSet => "Attribute"@,
        _ => "Variable"@,
    }
}

/// Whether a completion describes a variable as the variable itself is
/// described.
pub open spec fn repeats(variable: scope::VariableView, item: scope::CompletionItemView) -> bool {
    &&& item.label == variable.name
    &&& item.documentation == variable.documentation
    &&& item.deprecated == variable.deprecated
    &&& item.detail == variable.detail
}

/// Whether a name could complete what stands at the cursor: it stands for
/// something there, or it is that of a global variable and a variable is
/// completed.
pub open spec fn could_stand(
    nodes: tree::Tree,
    ident: int,
    globals: Seq<scope::VariableView>,
    name: Seq<char>,
) -> bool {
    has_meaning(nodes, ident, name) || binding::is_variable(nodes, ident) && scope::has_variable(
        globals,
        name,
    )
}

/// Whether a completion is one of the identifier at the cursor: to make its edit
/// replaces exactly the identifier, its name continues the identifier and could
/// stand there, and it is described as what it stands for.
pub open spec fn is_completion(
    code: Seq<char>,
    nodes: tree::Tree,
    ident: int,
    globals: Seq<scope::VariableView>,
    item: scope::CompletionItemView,
) -> bool {
    &&& rename::puts_name(
        code,
        (rename::TextEditView { range: item.range, new_text: item.new_text }),
        nodes[ident].token,
        item.label,
    )
    &&& nodes[ident].token.is_prefix_of(item.label)
    &&& could_stand(nodes, ident, globals, item.label)
    &&& forall|set: int, key: int| #[trigger]
        means(nodes, ident, item.label, set, key) ==> describes(nodes, set, item)
    &&& !has_meaning(nodes, ident, item.label) ==> exists|g: int| #[trigger]
        is_first_variable(globals, g) && repeats(globals[g], item)
}

proof fn lemma_extended_distinct(scope: Seq<tree::BoundView>, more: Seq<tree::BoundView>)
    requires
        tree::distinct(scope),
    ensures
        tree::distinct(tree::extended(scope, more)),
    decreases more.len(),
{
    if more.len() > 0 {
        lemma_extended_distinct(scope, more.drop_last());
    }
}

proof fn lemma_scope_distinct(
    nodes: tree::Tree,
    node: int,
    below: int,
    scope: Seq<tree::BoundView>,
)
    requires
        tree::distinct(scope),
    ensures
        tree::distinct(tree::scope_from(nodes, node, below, scope)),
    decreases below,
{
    if let Some(a) = tree::enclosing(nodes, node, below) {
        if 0 <= a < below {
            let more = tree::names_bound(nodes, a);
            lemma_extended_distinct(scope, more);
            lemma_scope_distinct(nodes, node, a, tree::extended(scope, more));
        }
    }
}

proof fn lemma_along_distinct(
    nodes: tree::Tree,
    scope: Seq<tree::BoundView>,
    path: Seq<Seq<char>>,
)
    requires
        tree::distinct(scope),
    ensures
        tree::attributes_along(nodes, scope, path) matches Some(found) ==> tree::distinct(found),
    decreases path.len(),
{
    if path.len() > 0 {
        if let Some(bound) = tree::bound_to(scope, path[0]) {
            if let Some(v) = bound.value {
                let names = tree::entries_names(nodes, v, tree::children(nodes, v));
                lemma_extended_distinct(seq![], names);
                lemma_along_distinct(nodes, tree::extended(seq![], names), path.drop_first());
            }
        }
    }
}

/// What the variables of a file say of one name.
proof fn lemma_known(
    file: Seq<char>,
    nodes: tree::Tree,
    ident: int,
    names: Seq<tree::BoundView>,
)
    requires
        are_found(nodes, ident, names),
        tree::distinct(names),
    ensures
        ({
            let known = scope::variables_of(file, nodes, names);
            &&& scope::distinct(known)
            &&& forall|name: Seq<char>| #[trigger]
                scope::has_variable(known, name) <==> has_meaning(nodes, ident, name)
            &&& forall|i: int, set: int, key: int|
                0 <= i < known.len() && #[trigger] means(
                    nodes,
                    ident,
                    (#[trigger] known[i]).name,
                    set,
                    key,
                ) ==> known[i].documentation is None && !known[i].deprecated && known[i].detail
                    == match nodes[set].kind {
                    NodeKind::Lambda => "Parameter"@,
                    NodeKind::AttrSet => "Attribute"@,
                    _ => "Variable"@,
                }
        }),
{
    let known = scope::variables_of(file, nodes, names);
    assert(forall|i: int|
        0 <= i < known.len() ==> #[trigger] known[i] == scope::variable_of(file, nodes, names[i]));
    assert forall|i: int, j: int| 0 <= i < j < known.len() implies (#[trigger] known[i]).name != (
    #[trigger] known[j]).name by {
        assert(names[i].name != names[j].name);
    }
    assert forall|name: Seq<char>| #[trigger]
        scope::has_variable(known, name) <==> has_meaning(nodes, ident, name) by {
        binding::lemma_bound_to(names, name);
        if scope::has_variable(known, name) {
            let i = choose|i: int| 0 <= i < known.len() && (#[trigger] known[i]).name == name;
            assert(names[i].name == name);
            let bound = tree::bound_to(names, name)->0;
            assert(means(nodes, ident, name, bound.set, bound.key));
        }
        if has_meaning(nodes, ident, name) {
            assert(tree::is_bound(names, name));
            let i = choose|i: int| 0 <= i < names.len() && (#[trigger] names[i]).name == name;
            assert(known[i].name == name);
        }
    }
    assert forall|i: int, set: int, key: int|
        0 <= i < known.len() && #[trigger] means(
            nodes,
            ident,
            (#[trigger] known[i]).name,
            set,
            key,
        ) implies known[i].documentation is None && !known[i].deprecated && known[i].detail
        == match nodes[set].kind {
        NodeKind::Lambda => "Parameter"@,
        NodeKind::AttrSet => "Attribute"@,
        _ => "Variable"@,
    } by {
        let name = names[i].name;
        assert(known[i].name == name);
        binding::lemma_bound_to(names, name);
        let bound = tree::bound_to(names, name)->0;
        let j = choose|j: int|
            0 <= j < names.len() && #[trigger] names[j] == bound && bound.name == name && forall|
                l: int,
            |
                0 <= l < j ==> (#[trigger] names[l]).name != name;
        assert(j == i) by {
            if j < i {
                assert(names[j].name != names[i].name);
            } else if i < j {
                assert(names[i].name != names[j].name);
            }
        }
        law_meanings_are_unique(nodes, ident, name, set, key, bound.set, bound.key);
    }
}

proof fn lemma_completed(
    code: Seq<char>,
    file: Seq<char>,
    nodes: tree::Tree,
    ident: int,
    names: Seq<tree::BoundView>,
    globals: Seq<scope::VariableView>,
    cursor: scope::CursorView,
    items: Seq<scope::CompletionItemView>,
    order: Seq<int>,
)
    requires
        text::measurable(code),
        syntax::stands_at(code, nodes[ident].range, nodes[ident].token),
        are_found(nodes, ident, names),
        tree::distinct(names),
        cursor.ident_range == nodes[ident].range,
        cursor.typed == nodes[ident].token,
        cursor.scope == scope::joined(
            scope::variables_of(file, nodes, names),
            if binding::is_variable(nodes, ident) {
                globals
            } else {
                seq![]
            },
        ),
        is_selection(code, cursor, items, order),
    ensures
        forall|k: int|
            0 <= k < items.len() ==> is_completion(
                code,
                nodes,
                ident,
                globals,
                #[trigger] items[k],
            ),
        forall|name: Seq<char>|
            nodes[ident].token.is_prefix_of(name) && #[trigger] could_stand(
                nodes,
                ident,
                globals,
                name,
            ) ==> exists|k: int| 0 <= k < items.len() && (#[trigger] items[k]).label == name,
        forall|k: int, l: int|
            0 <= k < l < items.len() ==> (#[trigger] items[k]).label != (
            #[trigger] items[l]).label,
{
    let known = scope::variables_of(file, nodes, names);
    let extra = if binding::is_variable(nodes, ident) {
        globals
    } else {
        seq![]
    };
    lemma_known(file, nodes, ident, names);
    lemma_joined(known, extra);
    assert forall|k: int| 0 <= k < items.len() implies is_completion(
        code,
        nodes,
        ident,
        globals,
        #[trigger] items[k],
    ) by {
        let item = items[k];
        let i = order[k];
        let v = cursor.scope[i];
        assert(completes(code, cursor.ident_range, v, item));
        rename::lemma_edit_puts_name(code, nodes[ident].range, nodes[ident].token, item.label);
        if i < known.len() {
            assert(cursor.scope[i] == known[i]);
            assert(scope::has_variable(known, item.label));
            assert(has_meaning(nodes, ident, item.label));
            assert forall|set: int, key: int| #[trigger]
                means(nodes, ident, item.label, set, key) implies describes(nodes, set, item) by {
                assert(means(nodes, ident, known[i].name, set, key));
            }
        } else {
            assert(!scope::has_variable(known, v.name));
            assert(!has_meaning(nodes, ident, item.label));
            let g = choose|g: int| #[trigger] is_first_variable(extra, g) && extra[g] == v;
            assert(binding::is_variable(nodes, ident));
            assert(globals[g].name == item.label);
            assert(scope::has_variable(globals, item.label));
            assert(is_first_variable(globals, g) && repeats(globals[g], item));
            assert forall|set: int, key: int| #[trigger]
                means(nodes, ident, item.label, set, key) implies describes(nodes, set, item) by {
                assert(has_meaning(nodes, ident, item.label));
            }
        }
    }
    assert forall|name: Seq<char>|
        nodes[ident].token.is_prefix_of(name) && #[trigger] could_stand(
            nodes,
            ident,
            globals,
            name,
        ) implies exists|k: int| 0 <= k < items.len() && (#[trigger] items[k]).label == name by {
        assert(scope::has_variable(known, name) <==> has_meaning(nodes, ident, name));
        assert(scope::has_variable(cursor.scope, name));
        let i = choose|i: int|
            0 <= i < cursor.scope.len() && (#[trigger] cursor.scope[i]).name == name;
        assert(order.contains(i));
        let k = choose|k: int| 0 <= k < order.len() && order[k] == i;
        assert(completes(code, cursor.ident_range, cursor.scope[order[k]], items[k]));
        assert(items[k].label == name);
    }
    assert forall|k: int, l: int| 0 <= k < l < items.len() implies (#[trigger] items[k]).label != (
    #[trigger] items[l]).label by {
        assert(order[k] < order[l]);
        assert(completes(code, cursor.ident_range, cursor.scope[order[k]], items[k]));
        assert(completes(code, cursor.ident_range, cursor.scope[order[l]], items[l]));
        assert(cursor.scope[order[k]].name != cursor.scope[order[l]].name);
    }
}

/// A completion replaces exactly the identifier at the cursor, by a name that
/// continues it and that could stand there. Every such name is offered, and none
/// twice.
pub proof fn law_completions_replace_the_identifier(
    texts: server::Texts,
    id: RequestId,
    at: TextDocumentPosition,
    globals: Vec<scope::Variable>,
    r: Response,
    offset: u32,
    ident: int,
)
    requires
        stands_on(texts, at, offset, ident),
        server::is_answer(texts, id, (Request::Completion { at, globals }), r),
    ensures
        r.id == id,
        r.result matches Ok(Payload::Completions(found)) && {
            let code = texts[at.uri@];
            let nodes = syntax::nodes_of(code);
            let items = found.deep_view();
            &&& forall|k: int|
                0 <= k < items.len() ==> is_completion(
                    code,
                    nodes,
                    ident,
                    globals.deep_view(),
                    #[trigger] items[k],
                )
            &&& forall|name: Seq<char>|
                nodes[ident].token.is_prefix_of(name) && #[trigger] could_stand(
                    nodes,
                    ident,
                    globals.deep_view(),
                    name,
                ) ==> exists|k: int| 0 <= k < items.len() && (#[trigger] items[k]).label == name
            &&& forall|k: int, l: int|
                0 <= k < l < items.len() ==> (#[trigger] items[k]).label != (
                #[trigger] items[l]).label
        },
{
    let code = texts[at.uri@];
    let nodes = syntax::nodes_of(code);
    let token = nodes[ident].token;
    let all = globals.deep_view();
    let items = r.result->Ok_0->Completions_0.deep_view();
    binding::law_identifier_at_the_cursor(nodes, offset, ident);
    lemma_found(nodes, ident);
    lemma_scope_distinct(nodes, ident, ident, seq![]);
    assert(syntax::stands_at(code, nodes[ident].range, token));
    let cursor = server::cursor_in(texts, at, all);
    assert(items == server::or_empty(server::completions_at(texts, at, cursor)));
    if let Some(path) = tree::path_to(nodes, ident) {
        if let Some(names) = tree::attributes_along(nodes, tree::scope_at(nodes, ident), path) {
            assert(path.len() == 0 <==> binding::is_variable(nodes, ident)) by {
                if path.len() == 0 {
                    assert(path =~= Seq::<Seq<char>>::empty());
                }
            }
            lemma_along_distinct(nodes, tree::scope_at(nodes, ident), path);
            law_completions_are_those_of_the_scope(texts, at, cursor->0);
            let known = scope::variables_of(at.uri@, nodes, names);
            let extra = if path.len() == 0 {
                all
            } else {
                seq![]
            };
            assert(cursor->0.scope == scope::joined(known, extra));
            let order = choose|order: Seq<int>| #[trigger]
                is_selection(code, cursor->0, items, order);
            lemma_completed(code, at.uri@, nodes, ident, names, all, cursor->0, items, order);
        } else {
            assert(items =~= seq![]);
        }
    } else {
        assert(items =~= seq![]);
    }
}

/// Whether a node is an identifier of a name, in the subtree of another node,
/// and can be a variable: it stands behind no dot there.
pub open spec fn is_use(
    nodes: tree::Tree,
    binder: int,
    name: Seq<char>,
    node: int,
) -> bool {
    &&& binder <= node < binder + nodes[binder].extent
    &&& nodes[node].kind == NodeKind::Identifier
    &&& nodes[node].token == name
    &&& rename::is_free(nodes, binder, node)
}

/// The edit that gives an identifier a new name.
pub open spec fn renames(
    code: Seq<char>,
    nodes: tree::Tree,
    node: int,
    new_name: Seq<char>,
    edit: rename::TextEditView,
) -> bool {
    edit.range == position::range_at(code, nodes[node].range) && edit.new_text == new_name
}

/// A variable gets its new name everywhere in the let, recursive set or function
/// that binds it, the innermost around the cursor: there is an edit for each
/// identifier of the name in there, the one at the cursor and the one that binds
/// the name included, but for what stands behind a dot. Each edit replaces
/// exactly such an identifier, and no other edits are made. What is bound
/// nowhere, and what is selected from a set, is not renamed.
pub proof fn law_renaming_reaches_every_use(
    texts: server::Texts,
    id: RequestId,
    at: TextDocumentPosition,
    new_name: String,
    r: Response,
    offset: u32,
    ident: int,
)
    requires
        stands_on(texts, at, offset, ident),
        server::is_answer(texts, id, (Request::Rename { at, new_name }), r),
    ensures
        r.id == id,
        r.result matches Ok(Payload::Changes(found)) && {
            let code = texts[at.uri@];
            let nodes = syntax::nodes_of(code);
            let name = nodes[ident].token;
            &&& forall|binder: int, key: int|
                binding::is_variable(nodes, ident) && #[trigger] binding::is_decided(
                    nodes,
                    binder,
                    ident,
                    name,
                    key,
                ) ==> found is Some && is_renaming(
                    code,
                    nodes,
                    binder,
                    name,
                    new_name@,
                    found->0.edits.deep_view(),
                ) && found->0.uri@ == at.uri@
            &&& !binding::is_variable(nodes, ident) || !binding::is_bound_around(
                nodes,
                ident,
                name,
            ) ==> found is None
        },
{
    let code = texts[at.uri@];
    let nodes = syntax::nodes_of(code);
    let name = nodes[ident].token;
    let found = r.result->Ok_0->Changes_0;
    binding::law_identifier_at_the_cursor(nodes, offset, ident);
    binding::law_variables_are_selected_from_nothing(nodes, ident);
    binding::law_innermost_binding_holds(nodes, ident, name);
    let scope = tree::scope_at(nodes, ident);
    assert(found.deep_view() == server::renaming_at(texts, at, new_name@));
    assert forall|binder: int, key: int|
        binding::is_variable(nodes, ident) && #[trigger] binding::is_decided(
            nodes,
            binder,
            ident,
            name,
            key,
        ) implies found is Some && is_renaming(
        code,
        nodes,
        binder,
        name,
        new_name@,
        found->0.edits.deep_view(),
    ) && found->0.uri@ == at.uri@ by {
        assert(binding::binds_around(nodes, binder, ident, name, key));
        let bound = tree::bound_to(scope, name)->0;
        assert(binding::binds_around(nodes, bound.set, ident, name, bound.key));
        assert(bound.set == binder);
        assert(0 <= binder < nodes.len());
        lemma_renaming(code, nodes, binder, name, new_name@);
        assert(found.deep_view() is Some);
    }
}

/// Whether edits rename a variable in the subtree of a node: one for each use,
/// each one that of a use, in the order of the text.
pub open spec fn is_renaming(
    code: Seq<char>,
    nodes: tree::Tree,
    binder: int,
    name: Seq<char>,
    new_name: Seq<char>,
    edits: Seq<rename::TextEditView>,
) -> bool {
    &&& forall|node: int| #[trigger]
        is_use(nodes, binder, name, node) ==> exists|k: int|
            0 <= k < edits.len() && renames(code, nodes, node, new_name, #[trigger] edits[k])
    &&& forall|k: int|
        0 <= k < edits.len() ==> (exists|node: int| #[trigger]
            is_use(nodes, binder, name, node) && renames(
                code,
                nodes,
                node,
                new_name,
                #[trigger] edits[k],
            )) && rename::puts_name(code, edits[k], name, new_name)
    &&& rename::in_order(edits)
}

proof fn lemma_renaming(
    code: Seq<char>,
    nodes: tree::Tree,
    binder: int,
    name: Seq<char>,
    new_name: Seq<char>,
)
    requires
        text::measurable(code),
        syntax::nested(nodes),
        syntax::spelt_out(code, nodes),
        0 <= binder < nodes.len(),
    ensures
        is_renaming(
            code,
            nodes,
            binder,
            name,
            new_name,
            rename::renamings(code, rename::occurrences_below(nodes, binder, name), new_name),
        ),
{
    let places = rename::occurrences_below(nodes, binder, name);
    let edits = rename::renamings(code, places, new_name);
    let to = binder + nodes[binder].extent;
    assert(nodes[binder].extent <= nodes.len() - binder);
    rename::law_renaming_puts_the_new_name(code, nodes, binder, name, new_name);
    rename::law_renaming_is_in_order(code, nodes, binder, name, new_name);
    rename::law_only_variables_are_found(nodes, binder, to, name);
    assert forall|node: int| #[trigger] is_use(nodes, binder, name, node) implies exists|k: int|
        0 <= k < edits.len() && renames(code, nodes, node, new_name, #[trigger] edits[k]) by {
        rename::law_every_variable_is_found(nodes, binder, name, node);
        let k = choose|k: int| 0 <= k < places.len() && places[k] == nodes[node].range;
        assert(renames(code, nodes, node, new_name, edits[k]));
    }
    assert forall|k: int| 0 <= k < edits.len() implies (exists|node: int| #[trigger]
        is_use(nodes, binder, name, node) && renames(
            code,
            nodes,
            node,
            new_name,
            #[trigger] edits[k],
        )) && rename::puts_name(code, edits[k], name, new_name) by {
        assert(rename::is_variable_at(nodes, binder, to, name, places[k]));
        let j = choose|j: int|
            binder <= j < to && 0 <= j < nodes.len() && (#[trigger] nodes[j]).kind
                == NodeKind::Identifier && nodes[j].token == name && nodes[j].range == places[k]
                && rename::is_free(nodes, binder, j);
        assert(is_use(nodes, binder, name, j) && renames(code, nodes, j, new_name, edits[k]));
    }
}

/// Whether a stretch of bytes lies around an offset: it begins before it and
/// ends at it or behind it, or it begins where the text does and so does the
/// offset.
pub open spec fn surrounds(range: TextRange, offset: u32) -> bool {
    range.end > 0 && offset <= range.end && (range.start < offset || offset == 0 && range.start
        == 0)
}

/// Whether stretches are those of the nodes around an offset, in the order of
/// the tree from the inside to the outside: none is left out, and none is told
/// twice.
pub open spec fn are_around(
    code: Seq<char>,
    nodes: tree::Tree,
    offset: u32,
    ranges: Seq<Range>,
) -> bool {
    exists|order: Seq<int>| #[trigger] is_nesting(code, nodes, offset, ranges, order)
}

/// Whether stretches are those of given nodes, all of them around an offset.
pub open spec fn is_nesting(
    code: Seq<char>,
    nodes: tree::Tree,
    offset: u32,
    ranges: Seq<Range>,
    order: Seq<int>,
) -> bool {
    &&& order.len() == ranges.len()
    &&& forall|k: int|
        0 <= k < order.len() ==> 0 <= #[trigger] order[k] < nodes.len() && surrounds(
            nodes[order[k]].range,
            offset,
        ) && ranges[k] == position::range_at(code, nodes[order[k]].range)
    &&& forall|k: int, l: int| 0 <= k < l < order.len() ==> #[trigger] order[k] > #[trigger] order[l]
    &&& forall|i: int|
        0 <= i < nodes.len() && surrounds((#[trigger] nodes[i]).range, offset) ==> order.contains(i)
}

proof fn lemma_around(nodes: tree::Tree, offset: u32, from: int) -> (order: Seq<int>)
    requires
        0 <= from <= nodes.len(),
    ensures
        ({
            let all = tree::around(nodes, offset, from);
            &&& order.len() == all.len()
            &&& forall|k: int|
                0 <= k < order.len() ==> from <= #[trigger] order[k] < nodes.len() && surrounds(
                    nodes[order[k]].range,
                    offset,
                ) && all[k] == nodes[order[k]].range
            &&& forall|k: int, l: int|
                0 <= k < l < order.len() ==> #[trigger] order[k] > #[trigger] order[l]
            &&& forall|i: int|
                from <= i < nodes.len() && surrounds((#[trigger] nodes[i]).range, offset)
                    ==> order.contains(i)
        }),
    decreases nodes.len() - from,
{
    if from == nodes.len() {
        seq![]
    } else {
        let inner = lemma_around(nodes, offset, from + 1);
        if tree::holds_cursor(nodes[from].range, offset) {
            let order = inner.push(from);
            assert forall|i: int|
                from <= i < nodes.len() && surrounds(
                    (#[trigger] nodes[i]).range,
                    offset,
                ) implies order.contains(i) by {
                if i > from {
                    assert(inner.contains(i));
                    let k = choose|k: int| 0 <= k < inner.len() && inner[k] == i;
                    assert(order[k] == i);
                } else {
                    assert(order[inner.len() as int] == from);
                }
            }
            order
        } else {
            inner
        }
    }
}

/// The stretches told for a position are those of the nodes around it, all of
/// them, from the inside to the outside. There is nothing to tell for a place
/// that the text has not got, or that no node is around.
pub proof fn law_selections_are_those_of_the_nodes(
    texts: server::Texts,
    id: RequestId,
    uri: String,
    positions: Vec<Position>,
    r: Response,
)
    requires
        server::is_answer(texts, id, (Request::SelectionRange { uri, positions }), r),
    ensures
        r.id == id,
        r.result matches Ok(Payload::Selections(found)) && {
            let code = texts[uri@];
            let nodes = syntax::nodes_of(code);
            &&& !texts.contains_key(uri@) ==> found@.len() == 0
            &&& texts.contains_key(uri@) ==> found@.len() == positions@.len() && forall|m: int|
                0 <= m < positions@.len() ==> match position::offset_at(
                    code,
                    #[trigger] positions@[m],
                ) {
                    Some(n) => match found@[m].deep_view() {
                        Some(ranges) => ranges.len() > 0 && are_around(
                            code,
                            nodes,
                            n as u32,
                            ranges,
                        ),
                        None => forall|i: int|
                            0 <= i < nodes.len() ==> !surrounds(
                                (#[trigger] nodes[i]).range,
                                n as u32,
                            ),
                    },
                    None => found@[m] is None,
                }
        },
{
    let code = texts[uri@];
    let nodes = syntax::nodes_of(code);
    let found = r.result->Ok_0->Selections_0;
    assert(found.deep_view() == server::selections_in(texts, uri@, positions@));
    assert(found.deep_view().len() == found@.len());
    if texts.contains_key(uri@) {
        assert forall|m: int| 0 <= m < positions@.len() implies match position::offset_at(
            code,
            #[trigger] positions@[m],
        ) {
            Some(n) => match found@[m].deep_view() {
                Some(ranges) => ranges.len() > 0 && are_around(code, nodes, n as u32, ranges),
                None => forall|i: int|
                    0 <= i < nodes.len() ==> !surrounds((#[trigger] nodes[i]).range, n as u32),
            },
            None => found@[m] is None,
        } by {
            assert(found.deep_view()[m] == found@[m].deep_view());
            assert(found@[m].deep_view() == server::selection_at(code, nodes, positions@[m]));
            if let Some(n) = position::offset_at(code, positions@[m]) {
                let order = lemma_around(nodes, n as u32, 0);
                if let Some(ranges) = found@[m].deep_view() {
                    assert(is_nesting(code, nodes, n as u32, ranges, order));
                } else {
                    assert(order.len() == 0);
                    assert forall|i: int| 0 <= i < nodes.len() implies !surrounds(
                        (#[trigger] nodes[i]).range,
                        n as u32,
                    ) by {
                        if surrounds(nodes[i].range, n as u32) {
                            assert(order.contains(i));
                        }
                    }
                }
            }
        }
    }
}

/// The stretches told for the position behind a number of whole characters lie
/// around that position: each begins at it or before it, and ends at it or
/// behind it. Each lies in the next one.
pub proof fn law_selections_lie_around_their_position(code: Seq<char>, k: int)
    requires
        document::is_parsed(code),
        0 <= k <= code.len(),
    ensures
        ({
            let nodes = syntax::nodes_of(code);
            let pos = position::position_at(code, text::byte_len(code.take(k)) as int);
            server::selection_at(code, nodes, pos) matches Some(ranges) ==> {
                &&& forall|m: int|
                    0 <= m < ranges.len() ==> position::precedes(
                        (#[trigger] ranges[m]).start,
                        pos,
                    ) && position::precedes(pos, ranges[m].end)
                &&& forall|m: int, n: int|
                    0 <= m <= n < ranges.len() ==> position::precedes(
                        (#[trigger] ranges[n]).start,
                        (#[trigger] ranges[m]).start,
                    ) && position::precedes(ranges[m].end, ranges[n].end)
            }
        }),
        ({
            let nodes = syntax::nodes_of(code);
            let offset = text::byte_len(code.take(k)) as u32;
            let pos = position::position_at(code, text::byte_len(code.take(k)) as int);
            forall|i: int|
                0 <= i < nodes.len() && surrounds((#[trigger] nodes[i]).range, offset)
                    ==> server::selection_at(code, nodes, pos) is Some && server::selection_at(
                    code,
                    nodes,
                    pos,
                )->0.contains(position::range_at(code, nodes[i].range))
        }),
{
    let nodes = syntax::nodes_of(code);
    let n = text::byte_len(code.take(k));
    let offset = n as u32;
    let pos = position::position_at(code, n as int);
    text::lemma_byte_len_take(code, k);
    position::law_offset_survives(code, k);
    let order = lemma_around(nodes, offset, 0);
    let all = tree::around(nodes, offset, 0);
    tree::law_stretches_widen(nodes, offset);
    if let Some(ranges) = server::selection_at(code, nodes, pos) {
        assert(ranges.len() == all.len());
        assert forall|m: int| 0 <= m < ranges.len() implies position::precedes(
            (#[trigger] ranges[m]).start,
            pos,
        ) && position::precedes(pos, ranges[m].end) by {
            let range = nodes[order[m]].range;
            position::law_positions_keep_order(code, range.start as int, n as int);
            position::law_positions_keep_order(code, n as int, range.end as int);
        }
        assert forall|m: int, l: int| 0 <= m <= l < ranges.len() implies position::precedes(
            (#[trigger] ranges[l]).start,
            (#[trigger] ranges[m]).start,
        ) && position::precedes(ranges[m].end, ranges[l].end) by {
            assert(all[l].start <= all[m].start && all[m].end <= all[l].end);
            position::law_positions_keep_order(code, all[l].start as int, all[m].start as int);
            position::law_positions_keep_order(code, all[m].end as int, all[l].end as int);
        }
    }
    assert forall|i: int| 0 <= i < nodes.len() && surrounds(
        (#[trigger] nodes[i]).range,
        offset,
    ) implies server::selection_at(code, nodes, pos) is Some && server::selection_at(
        code,
        nodes,
        pos,
    )->0.contains(position::range_at(code, nodes[i].range)) by {
        assert(order.contains(i));
        let m = choose|m: int| 0 <= m < order.len() && order[m] == i;
        let ranges = server::selection_at(code, nodes, pos)->0;
        assert(ranges[m] == position::range_at(code, nodes[i].range));
    }
}

/// A text after edits, each made to what the one before it left.
pub open spec fn edited(s: Seq<char>, edits: Seq<rename::TextEditView>) -> Seq<char>
    decreases edits.len(),
{
    if edits.len() == 0 {
        s
    } else {
        edited(change::replaced(s, edits[0].range, edits[0].new_text), edits.drop_first())
    }
}

/// An editor that makes the edits of an answer is left with the formatted text,
/// whatever the document holds. There is one edit, over a place that the text
/// has. A document that is not open is not edited.
pub proof fn law_formatting_leaves_the_formatted_text(
    texts: server::Texts,
    id: RequestId,
    uri: String,
    r: Response,
)
    requires
        server::is_answer(texts, id, (Request::Formatting { uri }), r),
    ensures
        r.id == id,
        r.result matches Ok(Payload::Edits(edits)) && {
            &&& !texts.contains_key(uri@) ==> edits@.len() == 0
            &&& texts.contains_key(uri@) && text::measurable(texts[uri@]) ==> {
                &&& edits@.len() == 1
                &&& change::has_range(texts[uri@], edits@[0].range)
                &&& edited(texts[uri@], edits.deep_view()) == syntax::formatted(texts[uri@])
            }
        },
{
    let edits = r.result->Ok_0->Edits_0;
    assert(edits.deep_view() == server::formatting_of(texts, uri@));
    assert(edits.deep_view().len() == edits@.len());
    if texts.contains_key(uri@) && text::measurable(texts[uri@]) {
        server::law_formatting_replaces_everything(texts[uri@]);
        assert(edits.deep_view()[0] == edits@[0].deep_view());
        assert(edits.deep_view().drop_first() =~= seq![]);
        reveal_with_fuel(edited, 2);
    }
}

/// The links of a document are those of its paths: one for each path that leads
/// to a file with a URL, over the bytes of the path and leading there, but for
/// those behind the last newline.
pub proof fn law_linked_are_the_paths_of_the_document(
    texts: server::Texts,
    id: RequestId,
    uri: String,
    has_parent: bool,
    has_home: bool,
    probes: Vec<links::Probe>,
    r: Response,
)
    requires
        server::is_answer(
            texts,
            id,
            (Request::DocumentLink { uri, has_parent, has_home, probes }),
            r,
        ),
    ensures
        r.id == id,
        r.result matches Ok(Payload::Links(found)) && {
            let code = texts[uri@];
            let nodes = syntax::nodes_of(code);
            &&& !texts.contains_key(uri@) ==> found@.len() == 0
            &&& texts.contains_key(uri@) && document::is_parsed(code) && links::plain_paths(nodes)
                ==> links::are_links(
                code,
                links::candidates(nodes, has_parent, has_home),
                probes.deep_view(),
                found.deep_view(),
            )
        },
{
    let code = texts[uri@];
    let nodes = syntax::nodes_of(code);
    let found = r.result->Ok_0->Links_0;
    let paths = links::candidates(nodes, has_parent, has_home);
    let made = links::links_of(paths, probes.deep_view());
    assert(found.deep_view().len() == found@.len());
    if texts.contains_key(uri@) && document::is_parsed(code) && links::plain_paths(nodes) {
        links::law_links_lead_to_their_files(
            code,
            nodes,
            has_parent,
            has_home,
            probes.deep_view(),
        );
        assert(found.deep_view() =~= links::placed(code, made, 0));
    }
}

/// A request of an unknown method is refused with the code for that, and every
/// other request is answered.
pub proof fn law_only_unknown_methods_are_refused(
    texts: server::Texts,
    id: RequestId,
    request: Request,
    r: Response,
)
    requires
        server::is_answer(texts, id, request, r),
    ensures
        r.id == id,
        request is Unhandled <==> r.result is Err,
        r.result matches Err(e) ==> e.code == -32601 && "Unhandled method "@.is_prefix_of(
            e.message@,
        ),
{
    if let Request::Unhandled { method } = request {
        let e = r.result->Err_0;
        let n = "Unhandled method "@.len() as int;
        assert(e.message@.subrange(0, n) =~= "Unhandled method "@);
    }
}

/// The definition, given what the cursor stands on, is where the first variable
/// of the name is bound, in whatever open document that is. A variable that is
/// bound nowhere, or in a document that is not open, has none, and neither has a
/// name that is that of no variable.
pub proof fn law_definition_is_the_binding(
    texts: server::Texts,
    at: TextDocumentPosition,
    cursor: scope::CursorView,
    i: int,
)
    requires
        server::is_place(texts, at),
    ensures
        is_first_variable(cursor.scope, i) && cursor.scope[i].name == cursor.ident
            ==> server::definition_of(texts, at, Some(cursor)) == match cursor.scope[i].binding {
            Some((file, key)) => if texts.contains_key(file) {
                Some(
                    scope::LocationView {
                        uri: file,
                        range: position::range_at(texts[file], key),
                    },
                )
            } else {
                None
            },
            None => None,
        },
        !scope::has_variable(cursor.scope, cursor.ident) ==> server::definition_of(
            texts,
            at,
            Some(cursor),
        ) is None,
{
    if is_first_variable(cursor.scope, i) && cursor.scope[i].name == cursor.ident {
        lemma_first_variable(cursor.scope, i);
    }
    scope::lemma_variable_named(cursor.scope, cursor.ident);
    if let Some(v) = scope::variable_named(cursor.scope, cursor.ident) {
        let j = choose|j: int| 0 <= j < cursor.scope.len() && cursor.scope[j] == v;
        assert(cursor.scope[j].name == cursor.ident);
    }
}

proof fn lemma_first_variable(variables: Seq<scope::VariableView>, i: int)
    requires
        is_first_variable(variables, i),
    ensures
        scope::variable_named(variables, variables[i].name) == Some(variables[i]),
    decreases i,
{
    if i > 0 {
        let rest = variables.drop_first();
        assert(variables[0].name != variables[i].name);
        assert forall|j: int| 0 <= j < i - 1 implies (#[trigger] rest[j]).name != rest[i
            - 1].name by {
            assert(variables[j + 1].name != variables[i].name);
        }
        lemma_first_variable(rest, i - 1);
    }
}

/// A change of some characters of a document leaves the others as they are. The
/// change can be followed unless the document grows too long.
pub proof fn law_reported_change_is_made(
    texts: server::Texts,
    uri: String,
    changes: Vec<ContentChange>,
    i: int,
    j: int,
)
    requires
        ({
            let s = server::text_of(texts, uri@);
            &&& text::measurable(s)
            &&& 0 <= i <= j <= s.len()
            &&& changes@.len() == 1
            &&& changes@[0].range == Some(
                position::range_at(
                    s,
                    TextRange {
                        start: text::byte_len(s.take(i)) as u32,
                        end: text::byte_len(s.take(j)) as u32,
                    },
                ),
            )
        }),
    ensures
        ({
            let s = server::text_of(texts, uri@);
            let new = s.take(i) + changes@[0].text@ + s.skip(j);
            let notification = Notification::DidChange { uri, changes };
            &&& server::texts_after(texts, notification) == texts.insert(uri@, new)
            &&& server::can_follow(texts, notification) <==> text::measurable(new)
        }),
{
    let s = server::text_of(texts, uri@);
    change::law_reported_range_is_replaced(s, i, j, changes@[0].text@);
    reveal_with_fuel(change::changed_by_all, 2);
    reveal_with_fuel(change::changes_fit, 2);
    assert(changes@.drop_first() =~= seq![]);
}

/// A change without a range leaves its own text, whatever stood there.
pub proof fn law_whole_text_is_replaced(
    texts: server::Texts,
    uri: String,
    changes: Vec<ContentChange>,
)
    requires
        changes@.len() == 1,
        changes@[0].range is None,
    ensures
        ({
            let notification = Notification::DidChange { uri, changes };
            &&& server::texts_after(texts, notification) == texts.insert(uri@, changes@[0].text@)
            &&& server::can_follow(texts, notification) <==> text::measurable(changes@[0].text@)
        }),
{
    reveal_with_fuel(change::changed_by_all, 2);
    reveal_with_fuel(change::changes_fit, 2);
    assert(changes@.drop_first() =~= seq![]);
}

/// A document that is opened reads as it was opened, and one that is not open
/// reads as empty when it is first changed. Without changes a document stays as
/// it is, and other notifications change nothing.
pub proof fn law_documents_read_as_they_were_told(
    texts: server::Texts,
    uri: String,
    text: String,
    changes: Vec<ContentChange>,
)
    requires
        changes@.len() == 0,
    ensures
        server::texts_after(texts, (Notification::DidOpen { uri, text })) == texts.insert(
            uri@,
            text@,
        ),
        server::can_follow(texts, (Notification::DidOpen { uri, text })) <==> text::measurable(
            text@,
        ),
        server::texts_after(texts, (Notification::DidChange { uri, changes })) == texts.insert(
            uri@,
            if texts.contains_key(uri@) {
                texts[uri@]
            } else {
                Seq::<char>::empty()
            },
        ),
        server::texts_after(texts, Notification::Ignored) == texts,
        server::can_follow(texts, Notification::Ignored),
{
    assert(text::byte_len(seq![]) == 0);
}

/// Whether a variable that the cursor knows of is one of the file, bound where
/// its name says, or else one that holds everywhere.
pub open spec fn is_known(
    uri: Seq<char>,
    nodes: tree::Tree,
    ident: int,
    globals: Seq<scope::VariableView>,
    variable: scope::VariableView,
) -> bool {
    &&& forall|set: int, key: int| #[trigger]
        means(nodes, ident, variable.name, set, key) ==> variable.binding == Some(
            (uri, nodes[key].range),
        )
    &&& !has_meaning(nodes, ident, variable.name) ==> binding::is_variable(nodes, ident)
        && exists|g: int| #[trigger] is_first_variable(globals, g) && globals[g] == variable
}

/// The cursor knows the identifier that it stands on, and the variables that
/// could stand there: each one in the file, bound where it is, and each global
/// one, all of them once. It knows nothing if the identifier is selected from
/// what is not known to be a set.
pub proof fn law_cursor_knows_what_could_stand_there(
    texts: server::Texts,
    at: TextDocumentPosition,
    globals: Seq<scope::VariableView>,
    offset: u32,
    ident: int,
)
    requires
        stands_on(texts, at, offset, ident),
    ensures
        ({
            let nodes = syntax::nodes_of(texts[at.uri@]);
            match server::cursor_in(texts, at, globals) {
                Some(cursor) => {
                    &&& cursor.ident == nodes[ident].token
                    &&& cursor.ident_range == nodes[ident].range
                    &&& cursor.typed == nodes[ident].token
                    &&& forall|i: int|
                        0 <= i < cursor.scope.len() ==> is_known(
                            at.uri@,
                            nodes,
                            ident,
                            globals,
                            #[trigger] cursor.scope[i],
                        )
                    &&& forall|name: Seq<char>| #[trigger]
                        could_stand(nodes, ident, globals, name) <==> scope::has_variable(
                            cursor.scope,
                            name,
                        )
                    &&& scope::distinct(cursor.scope)
                },
                None => !binding::is_variable(nodes, ident) && forall|name: Seq<char>|
                    !#[trigger] has_meaning(nodes, ident, name),
            }
        }),
{
    let nodes = syntax::nodes_of(texts[at.uri@]);
    binding::law_identifier_at_the_cursor(nodes, offset, ident);
    lemma_found(nodes, ident);
    lemma_scope_distinct(nodes, ident, ident, seq![]);
    if let Some(path) = tree::path_to(nodes, ident) {
        lemma_along_distinct(nodes, tree::scope_at(nodes, ident), path);
        if path.len() == 0 {
            assert(path =~= Seq::<Seq<char>>::empty());
        }
        if let Some(names) = tree::attributes_along(nodes, tree::scope_at(nodes, ident), path) {
            let cursor = server::cursor_in(texts, at, globals)->0;
            lemma_cursor(at.uri@, nodes, ident, names, globals, cursor.scope);
        }
    }
}

proof fn lemma_cursor(
    file: Seq<char>,
    nodes: tree::Tree,
    ident: int,
    names: Seq<tree::BoundView>,
    globals: Seq<scope::VariableView>,
    variables: Seq<scope::VariableView>,
)
    requires
        are_found(nodes, ident, names),
        tree::distinct(names),
        variables == scope::joined(
            scope::variables_of(file, nodes, names),
            if binding::is_variable(nodes, ident) {
                globals
            } else {
                seq![]
            },
        ),
    ensures
        forall|i: int|
            0 <= i < variables.len() ==> is_known(
                file,
                nodes,
                ident,
                globals,
                #[trigger] variables[i],
            ),
        forall|name: Seq<char>| #[trigger]
            could_stand(nodes, ident, globals, name) <==> scope::has_variable(variables, name),
        scope::distinct(variables),
{
    let known = scope::variables_of(file, nodes, names);
    let extra = if binding::is_variable(nodes, ident) {
        globals
    } else {
        seq![]
    };
    lemma_known(file, nodes, ident, names);
    lemma_joined(known, extra);
    assert forall|i: int| 0 <= i < variables.len() implies is_known(
        file,
        nodes,
        ident,
        globals,
        #[trigger] variables[i],
    ) by {
        let v = variables[i];
        if i < known.len() {
            assert(v == known[i]);
            assert(v == scope::variable_of(file, nodes, names[i]));
            assert(scope::has_variable(known, v.name));
            binding::lemma_bound_to(names, v.name);
            let bound = tree::bound_to(names, v.name)->0;
            assert(names[i].name == v.name);
            let j = choose|j: int|
                0 <= j < names.len() && #[trigger] names[j] == bound && bound.name == v.name
                    && forall|l: int| 0 <= l < j ==> (#[trigger] names[l]).name != v.name;
            assert(j == i) by {
                if j < i {
                    assert(names[j].name != names[i].name);
                } else if i < j {
                    assert(names[i].name != names[j].name);
                }
            }
            assert forall|set: int, key: int| #[trigger]
                means(nodes, ident, v.name, set, key) implies v.binding == Some(
                (file, nodes[key].range),
            ) by {
                law_meanings_are_unique(nodes, ident, v.name, set, key, bound.set, bound.key);
            }
        } else {
            assert(!scope::has_variable(known, v.name));
            assert(!has_meaning(nodes, ident, v.name));
            let g = choose|g: int| #[trigger] is_first_variable(extra, g) && extra[g] == v;
            assert(is_first_variable(globals, g) && globals[g] == v);
            assert forall|set: int, key: int| !#[trigger] means(
                nodes,
                ident,
                v.name,
                set,
                key,
            ) by {
                assert(!has_meaning(nodes, ident, v.name));
            }
        }
    }
    assert forall|name: Seq<char>| #[trigger]
        could_stand(nodes, ident, globals, name) <==> scope::has_variable(variables, name) by {
        assert(scope::has_variable(known, name) <==> has_meaning(nodes, ident, name));
    }
}

} // verus!
