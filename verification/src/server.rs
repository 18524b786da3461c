//! The state of the server, and its answers.

use lsp_server::RequestId;
use vstd::hash_map::StringHashMap;
use vstd::prelude::*;

use crate::change;
use crate::change::ContentChange;
use crate::diagnostics;
use crate::diagnostics::PublishDiagnostics;
use crate::document;
use crate::document::Document;
use crate::layout;
use crate::links;
use crate::links::{Candidate, DocumentLink, Probe};
use crate::position;
use crate::position::{Position, Range, TextRange};
use crate::protocol;
use crate::rename;
use crate::rename::TextEdit;
use crate::scope;
use crate::scope::{CompletionItem, Cursor, Location, Variable};
use crate::syntax;
use crate::syntax::{NodeKind, TokenKind};
use crate::text;
use crate::tree;

verus! {

/// `lsp_server::RequestId`: what ties an answer to its request.
#[verifier::external_type_specification]
#[verifier::external_body]
pub struct ExRequestId(RequestId);

/// A place in a document.
#[derive(Debug, PartialEq, Eq)]
pub struct TextDocumentPosition {
    pub uri: String,
    pub position: Position,
}

/// The edits that a request asks the editor to make in a document.
#[derive(Debug, PartialEq, Eq)]
pub struct WorkspaceChange {
    pub uri: String,
    pub edits: Vec<TextEdit>,
}

/// What such edits hold.
pub struct WorkspaceChangeView {
    pub uri: Seq<char>,
    pub edits: Seq<rename::TextEditView>,
}

impl DeepView for WorkspaceChange {
    type V = WorkspaceChangeView;

    open spec fn deep_view(&self) -> WorkspaceChangeView {
        WorkspaceChangeView { uri: self.uri@, edits: self.edits.deep_view() }
    }
}

/// A request, with what only the editor or the file system knows for it.
#[derive(Debug, PartialEq, Eq)]
pub enum Request {
    GotoDefinition { at: TextDocumentPosition },
    /// With the variables that hold everywhere.
    Completion { at: TextDocumentPosition, globals: Vec<Variable> },
    Rename { at: TextDocumentPosition, new_name: String },
    /// With whether the document lies in a directory, whether there is a home
    /// directory, and what was found for each candidate, in order.
    DocumentLink { uri: String, has_parent: bool, has_home: bool, probes: Vec<Probe> },
    Formatting { uri: String },
    SelectionRange { uri: String, positions: Vec<Position> },
    Unhandled { method: String },
}

/// What an answer carries.
#[derive(Debug, PartialEq, Eq)]
pub enum Payload {
    Definition(Option<Location>),
    Completions(Vec<CompletionItem>),
    Changes(Option<WorkspaceChange>),
    Links(Vec<DocumentLink>),
    Edits(Vec<TextEdit>),
    /// For each position the stretches around it, the innermost first.
    Selections(Vec<Option<Vec<Range>>>),
}

/// Why a request was refused.
#[derive(Debug, PartialEq, Eq)]
pub struct ResponseError {
    pub code: i32,
    pub message: String,
}

/// The answer to a request.
#[derive(Debug, PartialEq, Eq)]
pub struct Response {
    pub id: RequestId,
    pub result: Result<Payload, ResponseError>,
}

/// A notification of the editor.
#[derive(Debug, PartialEq, Eq)]
pub enum Notification {
    DidOpen { uri: String, text: String },
    DidChange { uri: String, changes: Vec<ContentChange> },
    Ignored,
}

/// The texts of the open documents, by URI.
pub type Texts = Map<Seq<char>, Seq<char>>;

/// The text of a document, which is empty for one that is not open.
pub open spec fn text_of(texts: Texts, uri: Seq<char>) -> Seq<char> {
    if texts.contains_key(uri) {
        texts[uri]
    } else {
        seq![]
    }
}

/// Whether a place lies in an open document.
pub open spec fn is_place(texts: Texts, at: TextDocumentPosition) -> bool {
    texts.contains_key(at.uri@) && position::offset_at(texts[at.uri@], at.position) is Some
}

/// What the cursor stands on at a place.
pub open spec fn cursor_in(
    texts: Texts,
    at: TextDocumentPosition,
    globals: Seq<scope::VariableView>,
) -> Option<scope::CursorView> {
    if is_place(texts, at) {
        scope::cursor_at(
            at.uri@,
            syntax::nodes_of(texts[at.uri@]),
            position::offset_at(texts[at.uri@], at.position)->0 as u32,
            globals,
        )
    } else {
        None
    }
}

/// Where the variable under the cursor is bound.
pub open spec fn cursor_binding(cursor: scope::CursorView) -> Option<(Seq<char>, TextRange)> {
    match scope::variable_named(cursor.scope, cursor.ident) {
        Some(variable) => variable.binding,
        None => None,
    }
}

/// Where the variable at a place is defined: in an open document, at the name
/// in its binding.
pub open spec fn definition_of(
    texts: Texts,
    at: TextDocumentPosition,
    cursor: Option<scope::CursorView>,
) -> Option<scope::LocationView> {
    if !is_place(texts, at) || cursor is None {
        None
    } else {
        match cursor_binding(cursor->0) {
            None => None,
            Some((file, key)) => if texts.contains_key(file) {
                Some(
                    scope::LocationView {
                        uri: file,
                        range: position::range_at(texts[file], key),
                    },
                )
            } else {
                None
            },
        }
    }
}

/// The completions at a place.
pub open spec fn completions_at(
    texts: Texts,
    at: TextDocumentPosition,
    cursor: Option<scope::CursorView>,
) -> Option<Seq<scope::CompletionItemView>> {
    if !is_place(texts, at) || cursor is None {
        None
    } else {
        Some(
            scope::completions_of(
                texts[at.uri@],
                cursor->0.ident_range,
                cursor->0.scope,
                cursor->0.typed,
            ),
        )
    }
}

/// The edits that rename the variable at an offset of a text, everywhere below
/// the node that binds it. An attribute that is selected from a set is not
/// renamed, nor is a name that is bound nowhere.
pub open spec fn renaming_in(
    code: Seq<char>,
    nodes: tree::Tree,
    offset: u32,
    new_name: Seq<char>,
) -> Option<Seq<rename::TextEditView>> {
    match tree::ident_at(nodes, offset) {
        None => None,
        Some(i) => if tree::path_to(nodes, i) != Some(Seq::<Seq<char>>::empty()) {
            None
        } else {
            match tree::bound_to(tree::scope_at(nodes, i), nodes[i].token) {
                None => None,
                Some(bound) => Some(
                    rename::renamings(
                        code,
                        rename::occurrences_below(nodes, bound.set, nodes[i].token),
                        new_name,
                    ),
                ),
            }
        },
    }
}

/// The edits that rename the variable at a place.
pub open spec fn renaming_at(
    texts: Texts,
    at: TextDocumentPosition,
    new_name: Seq<char>,
) -> Option<WorkspaceChangeView> {
    if !is_place(texts, at) {
        None
    } else {
        let code = texts[at.uri@];
        match renaming_in(
            code,
            syntax::nodes_of(code),
            position::offset_at(code, at.position)->0 as u32,
            new_name,
        ) {
            Some(edits) => Some(WorkspaceChangeView { uri: at.uri@, edits }),
            None => None,
        }
    }
}

/// The links of a document, from what was found for each of its candidates.
/// There are none to speak of in one that is not open, or if no candidate makes
/// a link.
pub open spec fn links_in(
    texts: Texts,
    uri: Seq<char>,
    has_parent: bool,
    has_home: bool,
    probes: Seq<links::ProbeView>,
) -> Option<Seq<links::DocumentLinkView>> {
    if !texts.contains_key(uri) {
        None
    } else {
        let found = links::links_of(
            links::candidates(syntax::nodes_of(texts[uri]), has_parent, has_home),
            probes,
        );
        if found.len() == 0 {
            None
        } else {
            Some(links::placed(texts[uri], found, 0))
        }
    }
}

/// The stretches around a position in a text, the innermost first.
pub open spec fn selection_at(code: Seq<char>, nodes: tree::Tree, pos: Position) -> Option<
    Seq<Range>,
> {
    match position::offset_at(code, pos) {
        None => None,
        Some(offset) => {
            let around = tree::around(nodes, offset as u32, 0);
            if around.len() == 0 {
                None
            } else {
                Some(around.map_values(|r: TextRange| position::range_at(code, r)))
            }
        },
    }
}

/// The stretches around positions in a document, for each position in its turn.
pub open spec fn selections_in(texts: Texts, uri: Seq<char>, positions: Seq<Position>) -> Seq<
    Option<Seq<Range>>,
> {
    if texts.contains_key(uri) {
        positions.map_values(
            |pos: Position| selection_at(texts[uri], syntax::nodes_of(texts[uri]), pos),
        )
    } else {
        seq![]
    }
}

/// Whether each of some edits puts a new name where an old one stands.
pub open spec fn puts_names(
    code: Seq<char>,
    edits: Seq<rename::TextEditView>,
    old_name: Seq<char>,
    new_name: Seq<char>,
) -> bool {
    forall|k: int|
        0 <= k < edits.len() ==> rename::puts_name(
            code,
            #[trigger] edits[k],
            old_name,
            new_name,
        )
}

/// The edit that formats a text: the formatted text in place of all of it.
pub open spec fn formatting_edit(code: Seq<char>) -> rename::TextEditView {
    rename::TextEditView {
        range: position::range_at(
            code,
            TextRange { start: 0, end: text::byte_len(code) as u32 },
        ),
        new_text: syntax::formatted(code),
    }
}

/// Whether a document, if it is open, can be formatted.
pub open spec fn formattable_in(texts: Texts, uri: Seq<char>) -> bool {
    texts.contains_key(uri) ==> layout::formattable(texts[uri])
}

/// The edits that format a document.
pub open spec fn formatting_of(texts: Texts, uri: Seq<char>) -> Seq<rename::TextEditView> {
    if texts.contains_key(uri) {
        seq![formatting_edit(texts[uri])]
    } else {
        seq![]
    }
}

/// What is found, or nothing.
pub open spec fn or_empty<T>(found: Option<Seq<T>>) -> Seq<T> {
    match found {
        Some(s) => s,
        None => seq![],
    }
}

/// The text that a notification leaves of the document that it speaks of.
pub open spec fn text_after(texts: Texts, notification: Notification) -> Seq<char> {
    match notification {
        Notification::DidOpen { uri, text } => text@,
        Notification::DidChange { uri, changes } => change::changed_by_all(
            text_of(texts, uri@),
            changes@,
        ),
        Notification::Ignored => seq![],
    }
}

/// Whether a notification can be followed: its changes fit the document, and
/// the document does not grow too long to be parsed.
pub open spec fn can_follow(texts: Texts, notification: Notification) -> bool {
    &&& text::measurable(text_after(texts, notification))
    &&& notification matches Notification::DidChange { uri, changes } ==> change::changes_fit(
        text_of(texts, uri@),
        changes@,
    )
}

/// The texts after a notification.
pub open spec fn texts_after(texts: Texts, notification: Notification) -> Texts {
    match notification {
        Notification::DidOpen { uri, .. } => texts.insert(uri@, text_after(texts, notification)),
        Notification::DidChange { uri, .. } => texts.insert(uri@, text_after(texts, notification)),
        Notification::Ignored => texts,
    }
}

/// Whether a request can be answered: a document that is to be formatted can be.
pub open spec fn can_answer(texts: Texts, request: Request) -> bool {
    request matches Request::Formatting { uri } ==> formattable_in(texts, uri@)
}

/// Whether a response is the answer to a request.
pub open spec fn is_answer(texts: Texts, id: RequestId, request: Request, r: Response) -> bool {
    &&& r.id == id
    &&& match request {
        Request::GotoDefinition { at } => r.result matches Ok(Payload::Definition(p))
            && p.deep_view() == definition_of(texts, at, cursor_in(texts, at, seq![])),
        Request::Completion { at, globals } => r.result matches Ok(Payload::Completions(p))
            && p.deep_view() == or_empty(
            completions_at(texts, at, cursor_in(texts, at, globals.deep_view())),
        ),
        Request::Rename { at, new_name } => r.result matches Ok(Payload::Changes(p))
            && p.deep_view() == renaming_at(texts, at, new_name@),
        Request::DocumentLink { uri, has_parent, has_home, probes } => r.result matches Ok(
            Payload::Links(p),
        ) && p.deep_view() == or_empty(
            links_in(texts, uri@, has_parent, has_home, probes.deep_view()),
        ),
        Request::Formatting { uri } => r.result matches Ok(Payload::Edits(p)) && p.deep_view()
            == formatting_of(texts, uri@),
        Request::SelectionRange { uri, positions } => r.result matches Ok(Payload::Selections(p))
            && p.deep_view() == selections_in(texts, uri@, positions@),
        Request::Unhandled { method } => r.result matches Err(e) && e.code
            == protocol::METHOD_NOT_FOUND && e.message@ == "Unhandled method "@ + method@,
    }
}

/// The server: its open documents.
pub struct App {
    files: StringHashMap<Document>,
}

impl App {
    /// The texts of the open documents.
    pub closed spec fn texts(&self) -> Texts {
        self.files@.map_values(|d: Document| d@)
    }

    /// A server without documents.
    pub fn new() -> (r: App)
        ensures
            r.texts() == Map::<Seq<char>, Seq<char>>::empty(),
    {
        let r = App { files: StringHashMap::new() };
        assert(r.texts() =~= Map::<Seq<char>, Seq<char>>::empty());
        r
    }

    /// The document of a URI.
    fn document(&self, uri: &str) -> (r: Option<&Document>)
        ensures
            match r {
                Some(d) => self.texts().contains_key(uri@) && d@ == self.texts()[uri@],
                None => !self.texts().contains_key(uri@),
            },
    {
        self.files.get(uri)
    }

    /// The text of an open document.
    pub fn text(&self, uri: &str) -> (r: Option<&str>)
        ensures
            match r {
                Some(t) => self.texts().contains_key(uri@) && t@ == self.texts()[uri@]
                    && text::measurable(t@) && document::is_parsed(t@),
                None => !self.texts().contains_key(uri@),
            },
    {
        match self.document(uri) {
            Some(document) => Some(document.text()),
            None => None,
        }
    }

    /// The byte offset of a place, if it lies in an open document.
    pub fn cursor_offset(&self, at: &TextDocumentPosition) -> (r: Option<u32>)
        ensures
            r is Some <==> is_place(self.texts(), *at),
            r matches Some(n) ==> position::offset_at(self.texts()[at.uri@], at.position) == Some(
                n as nat,
            ),
            r is Some ==> text::measurable(self.texts()[at.uri@]),
            r is Some ==> document::is_parsed(self.texts()[at.uri@]),
    {
        match self.document(at.uri.as_str()) {
            Some(document) => position::lookup_pos(document.text(), at.position),
            None => None,
        }
    }

    /// What the cursor stands on at a place. No two of the variables have the
    /// same name.
    pub fn cursor(&self, at: &TextDocumentPosition, globals: &Vec<Variable>) -> (r: Option<Cursor>)
        ensures
            r.deep_view() == cursor_in(self.texts(), *at, globals.deep_view()),
            r matches Some(cursor) ==> scope::distinct(cursor.scope.deep_view()),
    {
        match (self.cursor_offset(at), self.document(at.uri.as_str())) {
            (Some(offset), Some(document)) => {
                scope::look_up(&at.uri, document.nodes(), offset, globals)
            },
            _ => None,
        }
    }

    /// Where the variable at a place is defined, given what the cursor stands on.
    pub fn lookup_definition(&self, at: &TextDocumentPosition, cursor: &Option<Cursor>) -> (r:
        Option<Location>)
        ensures
            r.deep_view() == definition_of(self.texts(), *at, cursor.deep_view()),
    {
        if self.cursor_offset(at).is_none() {
            return None;
        }
        let cursor = match cursor {
            Some(cursor) => cursor,
            None => {
                return None;
            },
        };
        let i = match scope::find_variable(&cursor.scope, &cursor.ident) {
            Some(i) => i,
            None => {
                return None;
            },
        };
        match &cursor.scope[i].binding {
            Some(binding) => match self.document(binding.file.as_str()) {
                Some(document) => Some(
                    Location {
                        uri: binding.file.clone(),
                        range: position::range(document.text(), binding.key),
                    },
                ),
                None => None,
            },
            None => None,
        }
    }

    /// The completions at a place, given what the cursor stands on.
    pub fn completions(&self, at: &TextDocumentPosition, cursor: &Option<Cursor>) -> (r: Option<
        Vec<CompletionItem>,
    >)
        ensures
            r.deep_view() == completions_at(self.texts(), *at, cursor.deep_view()),
    {
        if self.cursor_offset(at).is_none() {
            return None;
        }
        match (cursor, self.document(at.uri.as_str())) {
            (Some(cursor), Some(document)) => Some(scope::complete(document.text(), cursor)),
            _ => None,
        }
    }

    /// The edits that rename the variable at a place. Each puts the new name where
    /// the old one stands, and they do not overlap.
    pub fn rename(&self, at: &TextDocumentPosition, new_name: &String) -> (r: Option<
        WorkspaceChange,
    >)
        ensures
            r.deep_view() == renaming_at(self.texts(), *at, new_name@),
            r matches Some(c) ==> rename::in_order(c.edits.deep_view()),
            r matches Some(c) ==> exists|old_name: Seq<char>| #[trigger]
                puts_names(self.texts()[at.uri@], c.edits.deep_view(), old_name, new_name@),
    {
        match (self.cursor_offset(at), self.document(at.uri.as_str())) {
            (Some(offset), Some(document)) => {
                let code = document.text();
                let nodes = document.nodes();
                let ident: usize = match tree::find_ident(nodes, offset) {
                    Some(ident) => ident,
                    None => {
                        return None;
                    },
                };
                assert(nodes.deep_view()[ident as int] == nodes@[ident as int].deep_view());
                match tree::find_path(nodes, ident) {
                    Some(path) => {
                        assert(path.deep_view().len() == path@.len());
                        if path.len() > 0 {
                            return None;
                        }
                        assert(path.deep_view() =~= Seq::<Seq<char>>::empty());
                    },
                    None => {
                        return None;
                    },
                }
                let names = tree::scope_for(nodes, ident);
                let old_name = &nodes[ident].token;
                match tree::find_bound(&names, old_name) {
                    Some(i) => {
                        let set: usize = names[i].set;
                        let edits = rename::rename_below(code, nodes, set, old_name, new_name);
                        proof {
                            rename::law_renaming_puts_the_new_name(
                                code@,
                                nodes.deep_view(),
                                set as int,
                                old_name@,
                                new_name@,
                            );
                            rename::law_renaming_is_in_order(
                                code@,
                                nodes.deep_view(),
                                set as int,
                                old_name@,
                                new_name@,
                            );
                            assert(puts_names(code@, edits.deep_view(), old_name@, new_name@));
                        }
                        Some(WorkspaceChange { uri: at.uri.clone(), edits })
                    },
                    None => None,
                }
            },
            _ => None,
        }
    }

    /// The paths that a document names and that could be linked to files.
    pub fn link_candidates(
        &self,
        uri: &str,
        has_parent: bool,
        has_home: bool,
    ) -> (r: Vec<Candidate>)
        ensures
            self.texts().contains_key(uri@) ==> r.deep_view() == links::candidates(
                syntax::nodes_of(self.texts()[uri@]),
                has_parent,
                has_home,
            ),
            !self.texts().contains_key(uri@) ==> r@.len() == 0,
    {
        match self.document(uri) {
            Some(document) => links::link_candidates(document.nodes(), has_parent, has_home),
            None => Vec::new(),
        }
    }

    /// The links of a document, from what was found for each of its candidates.
    pub fn document_links(
        &self,
        uri: &str,
        has_parent: bool,
        has_home: bool,
        probes: &Vec<Probe>,
    ) -> (r: Option<Vec<DocumentLink>>)
        ensures
            r.deep_view() == links_in(
                self.texts(),
                uri@,
                has_parent,
                has_home,
                probes.deep_view(),
            ),
    {
        match self.document(uri) {
            Some(document) => {
                let candidates = links::link_candidates(document.nodes(), has_parent, has_home);
                let found = links::resolve_links(&candidates, probes);
                assert(found.deep_view().len() == found@.len());
                if found.len() == 0 {
                    None
                } else {
                    Some(links::place_links(document.text(), &found))
                }
            },
            None => None,
        }
    }

    /// Whether a document, if it is open, can be formatted.
    pub fn can_format(&self, uri: &str) -> (r: bool)
        ensures
            r == formattable_in(self.texts(), uri@),
    {
        match self.document(uri) {
            Some(document) => {
                let tokens = syntax::parse_tokens(document.text());
                layout::can_format(document.text(), document.nodes(), &tokens)
            },
            None => true,
        }
    }

    /// The edits that format a document.
    pub fn formatting(&self, uri: &str) -> (r: Vec<TextEdit>)
        requires
            formattable_in(self.texts(), uri@),
        ensures
            r.deep_view() == formatting_of(self.texts(), uri@),
    {
        let mut edits: Vec<TextEdit> = Vec::new();
        if let Some(document) = self.document(uri) {
            let code = document.text();
            edits.push(rename::edit_at(code, document.root_range(), syntax::reformat(code)));
        }
        assert(edits.deep_view() =~= formatting_of(self.texts(), uri@));
        edits
    }

    /// The stretches around positions in a document, for each position in its
    /// turn.
    pub fn selection_ranges(&self, uri: &str, positions: &Vec<Position>) -> (r: Vec<
        Option<Vec<Range>>,
    >)
        ensures
            r.deep_view() == selections_in(self.texts(), uri@, positions@),
    {
        let mut selections: Vec<Option<Vec<Range>>> = Vec::new();
        if let Some(document) = self.document(uri) {
            let mut i: usize = 0;
            while i < positions.len()
                invariant
                    i <= positions@.len(),
                    self.texts().contains_key(uri@),
                    document@ == self.texts()[uri@],
                    selections@.len() == i,
                    forall|k: int|
                        0 <= k < i ==> (#[trigger] selections@[k]).deep_view() == selection_at(
                            document@,
                            syntax::nodes_of(document@),
                            positions@[k],
                        ),
                decreases positions.len() - i,
            {
                selections.push(select(document, positions[i]));
                i = i + 1;
            }
        }
        assert(selections.deep_view() =~= selections_in(self.texts(), uri@, positions@));
        selections
    }

    /// The answer to a request.
    pub fn handle_request(&self, id: RequestId, request: Request) -> (r: Response)
        requires
            can_answer(self.texts(), request),
        ensures
            is_answer(self.texts(), id, request, r),
    {
        match request {
            Request::GotoDefinition { at } => {
                let globals: Vec<Variable> = Vec::new();
                assert(globals.deep_view() =~= seq![]);
                let cursor = self.cursor(&at, &globals);
                Response {
                    id,
                    result: Ok(Payload::Definition(self.lookup_definition(&at, &cursor))),
                }
            },
            Request::Completion { at, globals } => {
                let cursor = self.cursor(&at, &globals);
                let completions = match self.completions(&at, &cursor) {
                    Some(completions) => completions,
                    None => Vec::new(),
                };
                assert(completions.deep_view() =~= or_empty(
                    completions_at(self.texts(), at, cursor.deep_view()),
                ));
                Response { id, result: Ok(Payload::Completions(completions)) }
            },
            Request::Rename { at, new_name } => Response {
                id,
                result: Ok(Payload::Changes(self.rename(&at, &new_name))),
            },
            Request::DocumentLink { uri, has_parent, has_home, probes } => {
                let document_links = match self.document_links(
                    uri.as_str(),
                    has_parent,
                    has_home,
                    &probes,
                ) {
                    Some(document_links) => document_links,
                    None => Vec::new(),
                };
                assert(document_links.deep_view() =~= or_empty(
                    links_in(self.texts(), uri@, has_parent, has_home, probes.deep_view()),
                ));
                Response { id, result: Ok(Payload::Links(document_links)) }
            },
            Request::Formatting { uri } => Response {
                id,
                result: Ok(Payload::Edits(self.formatting(uri.as_str()))),
            },
            Request::SelectionRange { uri, positions } => Response {
                id,
                result: Ok(
                    Payload::Selections(self.selection_ranges(uri.as_str(), &positions)),
                ),
            },
            Request::Unhandled { method } => {
                let mut message: String = "Unhandled method ".to_owned();
                message.append(method.as_str());
                refuse(id, protocol::METHOD_NOT_FOUND, message)
            },
        }
    }

    /// Whether a request can be answered.
    pub fn answers(&self, request: &Request) -> (r: bool)
        ensures
            r == can_answer(self.texts(), *request),
    {
        match request {
            Request::Formatting { uri } => self.can_format(uri.as_str()),
            _ => true,
        }
    }

    /// The answer to a request, if it can be answered.
    pub fn try_request(&self, id: RequestId, request: Request) -> (r: Option<Response>)
        ensures
            r is Some <==> can_answer(self.texts(), request),
            r matches Some(response) ==> is_answer(self.texts(), id, request, response),
    {
        if self.answers(&request) {
            Some(self.handle_request(id, request))
        } else {
            None
        }
    }

    /// Whether a notification can be followed.
    pub fn follows(&self, notification: &Notification) -> (r: bool)
        ensures
            r == can_follow(self.texts(), *notification),
    {
        match notification {
            Notification::DidOpen { uri: _, text } => text::is_measurable(text.as_str()),
            Notification::DidChange { uri, changes } => {
                let content = match self.text(uri.as_str()) {
                    Some(t) => t,
                    None => "",
                };
                proof {
                    reveal_strlit("");
                    assert(content@ =~= text_of(self.texts(), uri@));
                }
                match change::try_changes(content, changes) {
                    Some(t) => text::is_measurable(t.as_str()),
                    None => false,
                }
            },
            Notification::Ignored => true,
        }
    }

    /// Takes note of a notification, and returns what the editor is told of the
    /// document.
    pub fn handle_notification(&mut self, notification: Notification) -> (r: Option<
        PublishDiagnostics,
    >)
        requires
            can_follow(old(self).texts(), notification),
        ensures
            final(self).texts() == texts_after(old(self).texts(), notification),
            match notification {
                Notification::DidOpen { uri, .. } | Notification::DidChange { uri, .. } => {
                    let code = text_after(old(self).texts(), notification);
                    &&& r matches Some(p)
                    &&& p.uri@ == uri@
                    &&& p.diagnostics.deep_view() == diagnostics::remarks(
                        code,
                        syntax::errors_of(code),
                    )
                    &&& p.version is None
                },
                Notification::Ignored => r is None,
            },
    {
        match notification {
            Notification::DidOpen { uri, text } => Some(self.store(uri, text)),
            Notification::DidChange { uri, changes } => {
                let content = match self.text(uri.as_str()) {
                    Some(t) => change::apply_changes(t, &changes),
                    None => {
                        proof {
                            reveal_strlit("");
                            assert(""@ =~= text_of(self.texts(), uri@));
                        }
                        change::apply_changes("", &changes)
                    },
                };
                Some(self.store(uri, content))
            },
            Notification::Ignored => None,
        }
    }

    /// Keeps a new text of a document, and returns what the editor is told of
    /// its mistakes.
    fn store(&mut self, uri: String, content: String) -> (r: PublishDiagnostics)
        requires
            text::measurable(content@),
        ensures
            final(self).texts() == old(self).texts().insert(uri@, content@),
            r.uri@ == uri@,
            r.diagnostics.deep_view() == diagnostics::remarks(
                content@,
                syntax::errors_of(content@),
            ),
            r.version is None,
    {
        let errors = syntax::parse_errors(content.as_str());
        let published = diagnostics::send_diagnostics(uri.clone(), content.as_str(), &errors);
        let document = Document::new(content);
        self.files.insert(uri, document);
        assert(self.texts() =~= old(self).texts().insert(uri@, content@));
        published
    }
}

/// The stretches around a position in a document.
fn select(document: &Document, pos: Position) -> (r: Option<Vec<Range>>)
    ensures
        r.deep_view() == selection_at(document@, syntax::nodes_of(document@), pos),
{
    let code = document.text();
    match position::lookup_pos(code, pos) {
        Some(offset) => {
            let around = tree::ranges_around(document.nodes(), offset);
            if around.len() == 0 {
                return None;
            }
            let mut ranges: Vec<Range> = Vec::new();
            let mut i: usize = 0;
            while i < around.len()
                invariant
                    i <= around@.len(),
                    text::measurable(code@),
                    ranges@.len() == i,
                    forall|k: int|
                        0 <= k < i ==> #[trigger] ranges@[k] == position::range_at(
                            code@,
                            around@[k],
                        ),
                decreases around.len() - i,
            {
                ranges.push(position::range(code, around[i]));
                i = i + 1;
            }
            assert(ranges.deep_view() =~= around@.map_values(
                |r: TextRange| position::range_at(code@, r),
            ));
            Some(ranges)
        },
        None => None,
    }
}

/// The answer to a request that is refused.
fn refuse(id: RequestId, code: i32, message: String) -> (r: Response)
    ensures
        r.id == id,
        r.result matches Err(e) && e.code == code && e.message == message,
{
    Response { id, result: Err(ResponseError { code, message }) }
}

/// The answer to a request that failed for a reason without a code of its own.
pub fn err(id: RequestId, message: String) -> (r: Response)
    ensures
        r.id == id,
        r.result matches Err(e) && e.code == protocol::UNKNOWN_ERROR_CODE && e.message == message,
{
    refuse(id, protocol::UNKNOWN_ERROR_CODE, message)
}

/// What formatting replaces is the whole document: an editor that makes the
/// edit is left with the formatted text.
pub proof fn law_formatting_replaces_everything(code: Seq<char>)
    requires
        text::measurable(code),
    ensures
        change::has_range(code, formatting_edit(code).range),
        change::replaced(code, formatting_edit(code).range, formatting_edit(code).new_text)
            == syntax::formatted(code),
{
    change::law_reported_range_is_replaced(code, 0, code.len() as int, syntax::formatted(code));
    assert(code.take(0) =~= seq![]);
    assert(code.take(code.len() as int) =~= code);
    assert(code.skip(code.len() as int) =~= seq![]);
    assert(seq![] + syntax::formatted(code) + seq![] =~= syntax::formatted(code));
}

/// A notification changes the document that it speaks of and no other.
pub proof fn law_other_documents_stay(texts: Texts, notification: Notification, other: Seq<char>)
    requires
        notification matches Notification::DidOpen { uri, .. } ==> uri@ != other,
        notification matches Notification::DidChange { uri, .. } ==> uri@ != other,
    ensures
        texts_after(texts, notification).contains_key(other) <==> texts.contains_key(other),
        text_of(texts_after(texts, notification), other) == text_of(texts, other),
{
}

/// A document reads as it was opened, whatever was known of it before.
pub proof fn law_opened_text_is_read(texts: Texts, uri: String, text: String)
    ensures
        ({
            let after = texts_after(texts, Notification::DidOpen { uri, text });
            after.contains_key(uri@) && after[uri@] == text@
        }),
{
}

/// Changes that come in one notification leave the documents as they are left
/// by the same changes in two notifications.
pub proof fn law_changes_may_be_split(
    texts: Texts,
    uri: String,
    a: Vec<ContentChange>,
    b: Vec<ContentChange>,
    both: Vec<ContentChange>,
)
    requires
        both@ == a@ + b@,
    ensures
        ({
            let first = texts_after(texts, Notification::DidChange { uri, changes: a });
            texts_after(first, Notification::DidChange { uri, changes: b }) == texts_after(
                texts,
                Notification::DidChange { uri, changes: both },
            )
        }),
{
    change::law_changes_compose(text_of(texts, uri@), a@, b@);
    let first = texts_after(texts, Notification::DidChange { uri, changes: a });
    assert(texts_after(first, Notification::DidChange { uri, changes: b }) =~= texts_after(
        texts,
        Notification::DidChange { uri, changes: both },
    ));
}

/// Nothing is found in a document that is not open.
pub proof fn law_nothing_in_unknown_documents(
    texts: Texts,
    at: TextDocumentPosition,
    globals: Seq<scope::VariableView>,
    cursor: Option<scope::CursorView>,
    new_name: Seq<char>,
    has_parent: bool,
    has_home: bool,
    probes: Seq<links::ProbeView>,
    positions: Seq<Position>,
)
    requires
        !texts.contains_key(at.uri@),
    ensures
        cursor_in(texts, at, globals) is None,
        definition_of(texts, at, cursor) is None,
        completions_at(texts, at, cursor) is None,
        renaming_at(texts, at, new_name) is None,
        links_in(texts, at.uri@, has_parent, has_home, probes) is None,
        formatting_of(texts, at.uri@) == Seq::<rename::TextEditView>::empty(),
        selections_in(texts, at.uri@, positions) == Seq::<Option<Seq<Range>>>::empty(),
{
}

/// The place of a definition is a place that the server finds: the beginning of
/// the name in the binding.
pub proof fn law_definition_can_be_visited(
    texts: Texts,
    at: TextDocumentPosition,
    cursor: Option<scope::CursorView>,
    k: int,
)
    requires
        definition_of(texts, at, cursor) is Some,
        ({
            let (file, key) = cursor_binding(cursor->0)->0;
            &&& text::measurable(texts[file])
            &&& 0 <= k <= texts[file].len()
            &&& key.start == text::byte_len(texts[file].take(k))
        }),
    ensures
        ({
            let found = definition_of(texts, at, cursor)->0;
            &&& texts.contains_key(found.uri)
            &&& position::offset_at(texts[found.uri], found.range.start) == Some(
                text::byte_len(texts[found.uri].take(k)),
            )
        }),
{
    let found = definition_of(texts, at, cursor)->0;
    position::law_offset_survives(texts[found.uri], k);
}

/// A link covers a path of the document, from its first character to its last:
/// to replace the range of the link is to replace exactly the path.
pub proof fn law_links_cover_their_paths(
    code: Seq<char>,
    nodes: tree::Tree,
    has_parent: bool,
    has_home: bool,
    probes: Seq<links::ProbeView>,
    k: int,
    new_text: Seq<char>,
)
    requires
        text::measurable(code),
        syntax::nested(nodes),
        syntax::spelt_out(code, nodes),
        forall|i: int| 0 <= i < nodes.len() ==> (#[trigger] nodes[i]).range.ordered(),
        0 <= k < links::placed(
            code,
            links::links_of(links::candidates(nodes, has_parent, has_home), probes),
            0,
        ).len(),
    ensures
        ({
            let found = links::links_of(links::candidates(nodes, has_parent, has_home), probes);
            let link = links::placed(code, found, 0)[k];
            exists|i: int|
                0 <= i < nodes.len() && (#[trigger] nodes[i]).kind == NodeKind::Literal
                    && nodes[i].token_kind == TokenKind::Path && link.range == position::range_at(
                    code,
                    nodes[i].range,
                ) && rename::puts_name(
                    code,
                    (rename::TextEditView { range: link.range, new_text }),
                    nodes[i].token,
                    new_text,
                )
        }),
{
    let candidates = links::candidates(nodes, has_parent, has_home);
    let found = links::links_of(candidates, probes);
    let link = links::placed(code, found, 0)[k];
    links::law_links_keep_their_order(code, found, 0);
    links::law_one_link_per_path(candidates, probes);
    links::law_candidates_are_paths(nodes, has_parent, has_home);
    assert(links::is_made(candidates, probes, found[k]));
    let c = choose|c: int|
        0 <= c < candidates.len() && c < probes.len() && #[trigger] links::link_of(
            candidates[c],
            probes[c],
        ) == Some(found[k]);
    assert(links::is_path(nodes, candidates[c].range));
    let i = choose|i: int|
        0 <= i < nodes.len() && (#[trigger] nodes[i]).kind == NodeKind::Literal
            && nodes[i].token_kind == TokenKind::Path && nodes[i].range == candidates[c].range;
    rename::lemma_edit_puts_name(code, nodes[i].range, nodes[i].token, new_text);
}

/// Every path for which a file is found is linked, if each such path stands on a
/// line that a newline ends.
pub proof fn law_paths_on_closed_lines_are_linked(
    code: Seq<char>,
    nodes: tree::Tree,
    has_parent: bool,
    has_home: bool,
    probes: Seq<links::ProbeView>,
)
    requires
        syntax::nested(nodes),
        forall|i: int| 0 <= i < nodes.len() ==> (#[trigger] nodes[i]).range.ordered(),
        ({
            let found = links::links_of(links::candidates(nodes, has_parent, has_home), probes);
            forall|k: int|
                0 <= k < found.len() ==> links::begins_on_closed_line(code, #[trigger] found[k])
        }),
    ensures
        ({
            let found = links::links_of(links::candidates(nodes, has_parent, has_home), probes);
            links::placed(code, found, 0).len() == found.len()
        }),
{
    let candidates = links::candidates(nodes, has_parent, has_home);
    links::law_candidates_are_paths(nodes, has_parent, has_home);
    links::law_one_link_per_path(candidates, probes);
    links::law_ordered_links_are_all_placed(code, links::links_of(candidates, probes));
}

/// A definition is found where the name is bound: in the same document, at an
/// identifier that is spelt like the one at the cursor. To replace the range of
/// the definition is to replace exactly that name.
pub proof fn law_definition_is_the_name(
    texts: Texts,
    at: TextDocumentPosition,
    new_text: Seq<char>,
)
    requires
        definition_of(texts, at, cursor_in(texts, at, seq![])) is Some,
        text::measurable(texts[at.uri@]),
        syntax::spelt_out(texts[at.uri@], syntax::nodes_of(texts[at.uri@])),
    ensures
        ({
            let found = definition_of(texts, at, cursor_in(texts, at, seq![]))->0;
            &&& found.uri == at.uri@
            &&& rename::puts_name(
                texts[at.uri@],
                (rename::TextEditView { range: found.range, new_text }),
                cursor_in(texts, at, seq![])->0.ident,
                new_text,
            )
        }),
{
    let code = texts[at.uri@];
    let nodes = syntax::nodes_of(code);
    let offset = position::offset_at(code, at.position)->0 as u32;
    let cursor = cursor_in(texts, at, seq![])->0;
    let i = tree::ident_at(nodes, offset)->0;
    let path = tree::path_to(nodes, i)->0;
    let scope = tree::attributes_along(nodes, tree::scope_at(nodes, i), path)->0;
    tree::law_names_are_those_of_their_bindings(nodes, i, seq![], seq![]);
    tree::law_names_are_those_of_their_bindings(nodes, i, tree::scope_at(nodes, i), path);
    let variables = scope::variables_of(at.uri@, nodes, scope);
    assert(cursor.scope =~= variables);
    scope::lemma_variable_named(variables, cursor.ident);
    let v = scope::variable_named(variables, cursor.ident)->0;
    let k = choose|k: int| 0 <= k < variables.len() && variables[k] == v;
    assert(variables[k] == scope::variable_of(at.uri@, nodes, scope[k]));
    let key = scope[k].key;
    assert(nodes[key].token == cursor.ident);
    rename::lemma_edit_puts_name(code, nodes[key].range, nodes[key].token, new_text);
}

} // verus!
