//! The variables in scope at the cursor: where they are defined, and which of
//! them could complete what is being typed.

use vstd::prelude::*;

use crate::position;
use crate::position::{Range, TextRange};
use crate::rename;
use crate::rename::TextEdit;
use crate::syntax;
use crate::syntax::{Node, NodeKind};
use crate::text;
use crate::tree;
use crate::tree::Bound;

verus! {

/// Where a variable is bound: a file, and the bytes of the name there.
#[derive(Debug, PartialEq, Eq)]
pub struct Binding {
    pub file: String,
    pub key: TextRange,
}

/// A variable in scope, and what is known of it. A builtin is bound nowhere.
#[derive(Debug, PartialEq, Eq)]
pub struct Variable {
    pub name: String,
    pub binding: Option<Binding>,
    pub documentation: Option<String>,
    pub deprecated: bool,
    pub detail: String,
}

/// What a variable holds.
pub struct VariableView {
    pub name: Seq<char>,
    pub binding: Option<(Seq<char>, TextRange)>,
    pub documentation: Option<Seq<char>>,
    pub deprecated: bool,
    pub detail: Seq<char>,
}

impl DeepView for Variable {
    type V = VariableView;

    open spec fn deep_view(&self) -> VariableView {
        VariableView {
            name: self.name@,
            binding: match self.binding {
                Some(b) => Some((b.file@, b.key)),
                None => None,
            },
            documentation: match self.documentation {
                Some(d) => Some(d@),
                None => None,
            },
            deprecated: self.deprecated,
            detail: self.detail@,
        }
    }
}

/// What the cursor stands on: an identifier, the variables that are in scope
/// there, and the part of a name that has been typed.
#[derive(Debug, PartialEq, Eq)]
pub struct Cursor {
    pub ident: String,
    pub ident_range: TextRange,
    pub scope: Vec<Variable>,
    pub typed: String,
}

/// What a cursor holds.
pub struct CursorView {
    pub ident: Seq<char>,
    pub ident_range: TextRange,
    pub scope: Seq<VariableView>,
    pub typed: Seq<char>,
}

impl DeepView for Cursor {
    type V = CursorView;

    open spec fn deep_view(&self) -> CursorView {
        CursorView {
            ident: self.ident@,
            ident_range: self.ident_range,
            scope: self.scope.deep_view(),
            typed: self.typed@,
        }
    }
}

/// A stretch of a document.
#[derive(Debug, PartialEq, Eq)]
pub struct Location {
    pub uri: String,
    pub range: Range,
}

/// What a location holds.
pub struct LocationView {
    pub uri: Seq<char>,
    pub range: Range,
}

impl DeepView for Location {
    type V = LocationView;

    open spec fn deep_view(&self) -> LocationView {
        LocationView { uri: self.uri@, range: self.range }
    }
}

/// A completion that the editor can offer.
#[derive(Debug, PartialEq, Eq)]
pub struct CompletionItem {
    pub label: String,
    pub documentation: Option<String>,
    pub deprecated: bool,
    pub text_edit: TextEdit,
    pub detail: String,
}

/// What a completion holds.
pub struct CompletionItemView {
    pub label: Seq<char>,
    pub documentation: Option<Seq<char>>,
    pub deprecated: bool,
    pub range: Range,
    pub new_text: Seq<char>,
    pub detail: Seq<char>,
}

impl DeepView for CompletionItem {
    type V = CompletionItemView;

    open spec fn deep_view(&self) -> CompletionItemView {
        CompletionItemView {
            label: self.label@,
            documentation: match self.documentation {
                Some(d) => Some(d@),
                None => None,
            },
            deprecated: self.deprecated,
            range: self.text_edit.range,
            new_text: self.text_edit.new_text@,
            detail: self.detail@,
        }
    }
}

/// The first variable of a name.
pub open spec fn variable_named(scope: Seq<VariableView>, name: Seq<char>) -> Option<VariableView>
    decreases scope.len(),
{
    if scope.len() == 0 {
        None
    } else if scope[0].name == name {
        Some(scope[0])
    } else {
        variable_named(scope.drop_first(), name)
    }
}

/// Whether a variable has a name.
pub open spec fn has_variable(scope: Seq<VariableView>, name: Seq<char>) -> bool {
    exists|i: int| 0 <= i < scope.len() && (#[trigger] scope[i]).name == name
}

/// Whether no two variables have the same name.
pub open spec fn distinct(scope: Seq<VariableView>) -> bool {
    forall|i: int, j: int|
        0 <= i < j < scope.len() ==> (#[trigger] scope[i]).name != (#[trigger] scope[j]).name
}

/// A scope with more variables, except those whose name is taken already.
pub open spec fn joined(scope: Seq<VariableView>, more: Seq<VariableView>) -> Seq<VariableView>
    decreases more.len(),
{
    if more.len() == 0 {
        scope
    } else {
        let before = joined(scope, more.drop_last());
        if has_variable(before, more.last().name) {
            before
        } else {
            before.push(more.last())
        }
    }
}

/// How a variable is described, by the kind of the node that binds it.
pub open spec fn detail_of(kind: NodeKind) -> Seq<char> {
    match kind {
        NodeKind::Lambda => "Parameter"@,
        NodeKind::AttrSet => "Attribute"@,
        _ => "Variable"@,
    }
}

/// The variable that a bound name is, in a file.
pub open spec fn variable_of(
    file: Seq<char>,
    nodes: tree::Tree,
    bound: tree::BoundView,
) -> VariableView {
    VariableView {
        name: bound.name,
        binding: Some((file, nodes[bound.key].range)),
        documentation: None,
        deprecated: false,
        detail: detail_of(nodes[bound.set].kind),
    }
}

/// The variables that bound names are.
pub open spec fn variables_of(
    file: Seq<char>,
    nodes: tree::Tree,
    scope: Seq<tree::BoundView>,
) -> Seq<VariableView> {
    scope.map_values(|bound: tree::BoundView| variable_of(file, nodes, bound))
}

/// What stands at an offset in a file: the identifier there, with what could
/// stand for it. That is an attribute of the set that it is selected from, or,
/// if it is selected from none, a variable of the file, or else a global one.
pub open spec fn cursor_at(
    file: Seq<char>,
    nodes: tree::Tree,
    offset: u32,
    globals: Seq<VariableView>,
) -> Option<CursorView> {
    match tree::ident_at(nodes, offset) {
        None => None,
        Some(i) => match tree::path_to(nodes, i) {
            None => None,
            Some(path) => match tree::attributes_along(nodes, tree::scope_at(nodes, i), path) {
                None => None,
                Some(scope) => Some(
                    CursorView {
                        ident: nodes[i].token,
                        ident_range: nodes[i].range,
                        scope: joined(
                            variables_of(file, nodes, scope),
                            if path.len() == 0 {
                                globals
                            } else {
                                seq![]
                            },
                        ),
                        typed: nodes[i].token,
                    },
                ),
            },
        },
    }
}

/// The completion that a variable makes: its name, in place of the bytes of the
/// identifier at the cursor.
pub open spec fn completion_of(
    content: Seq<char>,
    place: TextRange,
    variable: VariableView,
) -> CompletionItemView {
    CompletionItemView {
        label: variable.name,
        documentation: variable.documentation,
        deprecated: variable.deprecated,
        range: position::range_at(content, place),
        new_text: variable.name,
        detail: variable.detail,
    }
}

/// The completions of what has been typed: one for each variable whose name
/// begins with it, in the order of the scope.
pub open spec fn completions_of(
    content: Seq<char>,
    place: TextRange,
    scope: Seq<VariableView>,
    typed: Seq<char>,
) -> Seq<CompletionItemView>
    decreases scope.len(),
{
    if scope.len() == 0 {
        seq![]
    } else {
        let before = completions_of(content, place, scope.drop_last(), typed);
        if typed.is_prefix_of(scope.last().name) {
            before.push(completion_of(content, place, scope.last()))
        } else {
            before
        }
    }
}

/// The index of the first variable of a name.
pub(crate) fn find_variable(scope: &Vec<Variable>, name: &String) -> (r: Option<usize>)
    ensures
        match r {
            Some(i) => i < scope@.len() && variable_named(scope.deep_view(), name@) == Some(
                scope@[i as int].deep_view(),
            ) && has_variable(scope.deep_view(), name@),
            None => variable_named(scope.deep_view(), name@) is None && !has_variable(
                scope.deep_view(),
                name@,
            ),
        },
{
    let ghost all = scope.deep_view();
    let mut i: usize = 0;
    assert(all.skip(0) =~= all);
    while i < scope.len()
        invariant
            i <= scope@.len(),
            all == scope.deep_view(),
            variable_named(all.skip(i as int), name@) == variable_named(all, name@),
            forall|k: int| 0 <= k < i ==> (#[trigger] all[k]).name != name@,
        decreases scope.len() - i,
    {
        proof {
            assert(all[i as int] == scope@[i as int].deep_view());
            assert(all.skip(i as int)[0] == scope@[i as int].deep_view());
            assert(all.skip(i as int).drop_first() =~= all.skip(i + 1));
        }
        if scope[i].name == *name {
            return Some(i);
        }
        i = i + 1;
    }
    None
}

/// A copy of a text that may be missing.
fn copy_optional(s: &Option<String>) -> (r: Option<String>)
    ensures
        r.deep_view() == s.deep_view(),
{
    match s {
        Some(t) => Some(t.clone()),
        None => None,
    }
}

/// A copy of a variable.
fn copy_variable(v: &Variable) -> (r: Variable)
    ensures
        r.deep_view() == v.deep_view(),
{
    Variable {
        name: v.name.clone(),
        binding: match &v.binding {
            Some(b) => Some(Binding { file: b.file.clone(), key: b.key }),
            None => None,
        },
        documentation: copy_optional(&v.documentation),
        deprecated: v.deprecated,
        detail: v.detail.clone(),
    }
}

/// How a variable is described, by the kind of the node that binds it.
fn describe(kind: NodeKind) -> (r: String)
    ensures
        r@ == detail_of(kind),
{
    match kind {
        NodeKind::Lambda => "Parameter".to_owned(),
        NodeKind::AttrSet => "Attribute".to_owned(),
        _ => "Variable".to_owned(),
    }
}

/// The variables that bound names are.
fn to_variables(file: &String, nodes: &Vec<Node>, scope: &Vec<Bound>) -> (r: Vec<Variable>)
    requires
        tree::names_in_tree(nodes.deep_view(), scope.deep_view()),
        tree::distinct(scope.deep_view()),
    ensures
        r.deep_view() == variables_of(file@, nodes.deep_view(), scope.deep_view()),
        distinct(r.deep_view()),
{
    let ghost all = scope.deep_view();
    let ghost tree = nodes.deep_view();
    let mut variables: Vec<Variable> = Vec::new();
    let mut i: usize = 0;
    while i < scope.len()
        invariant
            i <= scope@.len(),
            all == scope.deep_view(),
            tree == nodes.deep_view(),
            tree::names_in_tree(tree, all),
            variables@.len() == i,
            forall|k: int|
                0 <= k < i ==> (#[trigger] variables@[k]).deep_view() == variable_of(
                    file@,
                    tree,
                    all[k],
                ),
        decreases scope.len() - i,
    {
        let bound = &scope[i];
        proof {
            assert(all[i as int] == bound.deep_view());
            assert(tree[bound.key as int] == nodes@[bound.key as int].deep_view());
            assert(tree[bound.set as int] == nodes@[bound.set as int].deep_view());
        }
        variables.push(
            Variable {
                name: bound.name.clone(),
                binding: Some(Binding { file: file.clone(), key: nodes[bound.key].range }),
                documentation: None,
                deprecated: false,
                detail: describe(nodes[bound.set].kind),
            },
        );
        i = i + 1;
    }
    assert(variables.deep_view() =~= variables_of(file@, tree, all));
    variables
}

/// Adds variables to a scope, except those whose name is taken already.
fn join(scope: &mut Vec<Variable>, more: &Vec<Variable>)
    requires
        distinct(old(scope).deep_view()),
    ensures
        final(scope).deep_view() == joined(old(scope).deep_view(), more.deep_view()),
        distinct(final(scope).deep_view()),
{
    let ghost first = scope.deep_view();
    let ghost all = more.deep_view();
    let mut i: usize = 0;
    assert(all.take(0) =~= seq![]);
    while i < more.len()
        invariant
            i <= more@.len(),
            all == more.deep_view(),
            distinct(scope.deep_view()),
            scope.deep_view() == joined(first, all.take(i as int)),
        decreases more.len() - i,
    {
        let ghost before = scope.deep_view();
        proof {
            assert(all.take(i + 1).drop_last() =~= all.take(i as int));
            assert(all.take(i + 1).last() == more@[i as int].deep_view());
        }
        if find_variable(scope, &more[i].name).is_none() {
            let variable = copy_variable(&more[i]);
            scope.push(variable);
            assert(scope.deep_view() =~= before.push(variable.deep_view()));
        }
        i = i + 1;
    }
    assert(all.take(more@.len() as int) =~= all);
}

/// What stands at an offset in a file. No two of the variables have the same
/// name.
pub fn look_up(file: &String, nodes: &Vec<Node>, offset: u32, globals: &Vec<Variable>) -> (r:
    Option<Cursor>)
    requires
        syntax::nested(nodes.deep_view()),
    ensures
        r.deep_view() == cursor_at(file@, nodes.deep_view(), offset, globals.deep_view()),
        r matches Some(cursor) ==> distinct(cursor.scope.deep_view()),
{
    let ghost tree = nodes.deep_view();
    let i: usize = match tree::find_ident(nodes, offset) {
        Some(i) => i,
        None => {
            return None;
        },
    };
    assert(tree[i as int] == nodes@[i as int].deep_view());
    let path = match tree::find_path(nodes, i) {
        Some(path) => path,
        None => {
            return None;
        },
    };
    let scope = tree::scope_for(nodes, i);
    match tree::follow_path(nodes, scope, &path) {
        Some(found) => {
            let mut variables = to_variables(file, nodes, &found);
            assert(path.deep_view().len() == path@.len());
            if path.len() == 0 {
                join(&mut variables, globals);
            }
            Some(
                Cursor {
                    ident: nodes[i].token.clone(),
                    ident_range: nodes[i].range,
                    scope: variables,
                    typed: nodes[i].token.clone(),
                },
            )
        },
        None => None,
    }
}

/// The completions of what has been typed.
pub fn complete(content: &str, cursor: &Cursor) -> (r: Vec<CompletionItem>)
    requires
        text::measurable(content@),
    ensures
        r.deep_view() == completions_of(
            content@,
            cursor.ident_range,
            cursor.scope.deep_view(),
            cursor.typed@,
        ),
{
    let ghost all = cursor.scope.deep_view();
    let mut completions: Vec<CompletionItem> = Vec::new();
    let mut i: usize = 0;
    assert(all.take(0) =~= seq![]);
    assert(completions.deep_view() =~= seq![]);
    while i < cursor.scope.len()
        invariant
            i <= cursor.scope@.len(),
            all == cursor.scope.deep_view(),
            text::measurable(content@),
            completions.deep_view() == completions_of(
                content@,
                cursor.ident_range,
                all.take(i as int),
                cursor.typed@,
            ),
        decreases cursor.scope.len() - i,
    {
        let variable = &cursor.scope[i];
        let ghost before = completions.deep_view();
        proof {
            assert(all.take(i + 1).drop_last() =~= all.take(i as int));
            assert(all.take(i + 1).last() == variable.deep_view());
        }
        if text::starts_with(variable.name.as_str(), cursor.typed.as_str()) {
            let item = CompletionItem {
                label: variable.name.clone(),
                documentation: copy_optional(&variable.documentation),
                deprecated: variable.deprecated,
                text_edit: rename::edit_at(content, cursor.ident_range, variable.name.clone()),
                detail: variable.detail.clone(),
            };
            completions.push(item);
            assert(completions.deep_view() =~= before.push(item.deep_view()));
        }
        i = i + 1;
    }
    assert(all.take(cursor.scope@.len() as int) =~= all);
    completions
}

/// Every completion begins with what has been typed and inserts what it is
/// labelled with.
pub proof fn law_completions_continue_what_is_typed(
    content: Seq<char>,
    place: TextRange,
    scope: Seq<VariableView>,
    typed: Seq<char>,
)
    ensures
        forall|i: int|
            0 <= i < completions_of(content, place, scope, typed).len() ==> {
                let item = #[trigger] completions_of(content, place, scope, typed)[i];
                typed.is_prefix_of(item.label) && item.new_text == item.label
            },
    decreases scope.len(),
{
    if scope.len() > 0 {
        law_completions_continue_what_is_typed(content, place, scope.drop_last(), typed);
    }
}

/// No two completions are labelled alike, provided no two variables have the
/// same name.
pub proof fn law_completions_are_distinct(
    content: Seq<char>,
    place: TextRange,
    scope: Seq<VariableView>,
    typed: Seq<char>,
)
    requires
        distinct(scope),
    ensures
        forall|i: int, j: int|
            0 <= i < j < completions_of(content, place, scope, typed).len() ==> (
            #[trigger] completions_of(content, place, scope, typed)[i]).label != (
            #[trigger] completions_of(content, place, scope, typed)[j]).label,
        forall|i: int|
            0 <= i < completions_of(content, place, scope, typed).len() ==> has_variable(
                scope,
                (#[trigger] completions_of(content, place, scope, typed)[i]).label,
            ),
    decreases scope.len(),
{
    if scope.len() > 0 {
        let fewer = scope.drop_last();
        let before = completions_of(content, place, fewer, typed);
        let all = completions_of(content, place, scope, typed);
        law_completions_are_distinct(content, place, fewer, typed);
        assert forall|i: int| 0 <= i < all.len() implies has_variable(
            scope,
            (#[trigger] all[i]).label,
        ) by {
            if i < before.len() {
                assert(all[i] == before[i]);
                let k = choose|k: int|
                    0 <= k < fewer.len() && (#[trigger] fewer[k]).name == before[i].label;
                assert(scope[k].name == all[i].label);
            } else {
                assert(scope[scope.len() - 1].name == all[i].label);
            }
        }
        assert forall|i: int, j: int| 0 <= i < j < all.len() implies (#[trigger] all[i]).label != (
        #[trigger] all[j]).label by {
            assert(all[i] == before[i]);
            if j < before.len() {
                assert(all[j] == before[j]);
            } else {
                let k = choose|k: int|
                    0 <= k < fewer.len() && (#[trigger] fewer[k]).name == before[i].label;
                assert(scope[k].name != scope[scope.len() - 1].name);
            }
        }
    }
}

/// No variable that begins with what has been typed is left out.
pub proof fn law_completions_are_complete(
    content: Seq<char>,
    place: TextRange,
    scope: Seq<VariableView>,
    typed: Seq<char>,
    i: int,
)
    requires
        0 <= i < scope.len(),
        typed.is_prefix_of(scope[i].name),
    ensures
        completions_of(content, place, scope, typed).contains(
            completion_of(content, place, scope[i]),
        ),
    decreases scope.len(),
{
    let all = completions_of(content, place, scope, typed);
    let item = completion_of(content, place, scope[i]);
    if i == scope.len() - 1 {
        assert(all.last() == item);
    } else {
        let before = completions_of(content, place, scope.drop_last(), typed);
        law_completions_are_complete(content, place, scope.drop_last(), typed, i);
        let k = choose|k: int| 0 <= k < before.len() && before[k] == item;
        assert(all[k] == item);
    }
}

/// The first variable of a name has that name, and is one of the variables.
pub(crate) proof fn lemma_variable_named(scope: Seq<VariableView>, name: Seq<char>)
    ensures
        variable_named(scope, name) matches Some(v) ==> v.name == name && scope.contains(v),
    decreases scope.len(),
{
    if scope.len() > 0 {
        if scope[0].name == name {
            assert(scope.contains(scope[0]));
        } else {
            let rest = scope.drop_first();
            lemma_variable_named(rest, name);
            if let Some(v) = variable_named(rest, name) {
                let i = choose|i: int| 0 <= i < rest.len() && rest[i] == v;
                assert(scope[i + 1] == v);
            }
        }
    }
}

} // verus!
