//! What the server offers, the messages that it tells apart, and when it stops
//! to listen.

use vstd::prelude::*;

use crate::text;

verus! {

/// The error code for a request that the server does not know.
pub const METHOD_NOT_FOUND: i32 = -32601;

/// The error code for a failure without a code of its own.
pub const UNKNOWN_ERROR_CODE: i32 = -32001;

/// The method of the notification that carries diagnostics.
pub const PUBLISH_DIAGNOSTICS: &'static str = "textDocument/publishDiagnostics";

/// The ways in which an editor can report the text of a document.
#[derive(Clone, Copy, Debug, PartialEq, Eq, Structural)]
pub enum SyncKind {
    Off,
    Full,
    Incremental,
}

/// What the server offers to an editor.
#[derive(Clone, Copy, Debug, PartialEq, Eq, Structural)]
pub struct Capabilities {
    pub open_close: bool,
    pub change: SyncKind,
    pub completion: bool,
    pub definition: bool,
    pub formatting: bool,
    pub document_link: bool,
    /// Whether links are completed by a second request.
    pub document_link_resolve: bool,
    pub rename: bool,
    pub selection_range: bool,
}

/// The requests that the server tells apart.
#[derive(Clone, Copy, Debug, PartialEq, Eq, Structural)]
pub enum RequestKind {
    GotoDefinition,
    Completion,
    Rename,
    DocumentLink,
    Formatting,
    SelectionRange,
    Unhandled,
}

/// The notifications that the server tells apart.
#[derive(Clone, Copy, Debug, PartialEq, Eq, Structural)]
pub enum NotificationKind {
    DidOpen,
    DidChange,
    Ignored,
}

/// What the server offers.
pub open spec fn offered() -> Capabilities {
    Capabilities {
        open_close: true,
        change: SyncKind::Incremental,
        completion: true,
        definition: true,
        formatting: true,
        document_link: true,
        document_link_resolve: false,
        rename: true,
        selection_range: true,
    }
}

/// The request that a method stands for.
pub open spec fn request_of(method: Seq<char>) -> RequestKind {
    if method == "textDocument/definition"@ {
        RequestKind::GotoDefinition
    } else if method == "textDocument/completion"@ {
        RequestKind::Completion
    } else if method == "textDocument/rename"@ {
        RequestKind::Rename
    } else if method == "textDocument/documentLink"@ {
        RequestKind::DocumentLink
    } else if method == "textDocument/formatting"@ {
        RequestKind::Formatting
    } else if method == "textDocument/selectionRange"@ {
        RequestKind::SelectionRange
    } else {
        RequestKind::Unhandled
    }
}

/// The notification that a method stands for.
pub open spec fn notification_of(method: Seq<char>) -> NotificationKind {
    if method == "textDocument/didOpen"@ {
        NotificationKind::DidOpen
    } else if method == "textDocument/didChange"@ {
        NotificationKind::DidChange
    } else {
        NotificationKind::Ignored
    }
}

/// What the server offers.
pub fn capabilities() -> (r: Capabilities)
    ensures
        r == offered(),
{
    Capabilities {
        open_close: true,
        change: SyncKind::Incremental,
        completion: true,
        definition: true,
        formatting: true,
        document_link: true,
        document_link_resolve: false,
        rename: true,
        selection_range: true,
    }
}

/// The request that a method stands for.
pub fn request_kind(method: &str) -> (r: RequestKind)
    ensures
        r == request_of(method@),
{
    if text::same(method, "textDocument/definition") {
        RequestKind::GotoDefinition
    } else if text::same(method, "textDocument/completion") {
        RequestKind::Completion
    } else if text::same(method, "textDocument/rename") {
        RequestKind::Rename
    } else if text::same(method, "textDocument/documentLink") {
        RequestKind::DocumentLink
    } else if text::same(method, "textDocument/formatting") {
        RequestKind::Formatting
    } else if text::same(method, "textDocument/selectionRange") {
        RequestKind::SelectionRange
    } else {
        RequestKind::Unhandled
    }
}

/// The notification that a method stands for.
pub fn notification_kind(method: &str) -> (r: NotificationKind)
    ensures
        r == notification_of(method@),
{
    if text::same(method, "textDocument/didOpen") {
        NotificationKind::DidOpen
    } else if text::same(method, "textDocument/didChange") {
        NotificationKind::DidChange
    } else {
        NotificationKind::Ignored
    }
}

/// What can happen to the server while it listens.
#[derive(Clone, Copy, Debug, PartialEq, Eq, Structural)]
pub enum Event {
    /// The editor is gone.
    Disconnected,
    RequestReceived,
    NotificationReceived,
    ResponseReceived,
    /// The request was one to shut down, and the editor has confirmed it.
    ShutdownConfirmed,
    /// The request was not one to shut down.
    NoShutdown,
    /// The request was one to shut down, and the editor has not confirmed it.
    ShutdownFailed,
    RequestHandled,
    NotificationHandled,
    /// The notification was malformed.
    NotificationFailed,
}

/// What the server does next.
#[derive(Clone, Copy, Debug, PartialEq, Eq, Structural)]
pub enum Action {
    /// Wait for a message.
    Receive,
    /// See whether the request is one to shut down.
    CheckShutdown,
    HandleRequest,
    HandleNotification,
    /// Tell the editor what went wrong, and stop.
    ReportAndStop,
    Stop,
    /// Stop, and pass the failure on.
    Fail,
}

/// Whether the server listens no longer after an action.
pub open spec fn is_last(action: Action) -> bool {
    action == Action::Stop || action == Action::ReportAndStop || action == Action::Fail
}

/// What the server does next.
pub fn next_action(event: Event) -> (r: Action)
    ensures
        event == Event::RequestReceived <==> r == Action::CheckShutdown,
        event == Event::NoShutdown <==> r == Action::HandleRequest,
        event == Event::NotificationReceived <==> r == Action::HandleNotification,
        event == Event::ResponseReceived || event == Event::RequestHandled || event
            == Event::NotificationHandled <==> r == Action::Receive,
        event == Event::Disconnected || event == Event::ShutdownConfirmed <==> r == Action::Stop,
        event == Event::ShutdownFailed <==> r == Action::ReportAndStop,
        event == Event::NotificationFailed <==> r == Action::Fail,
        is_last(r) <==> event == Event::Disconnected || event == Event::ShutdownConfirmed || event
            == Event::ShutdownFailed || event == Event::NotificationFailed,
{
    match event {
        Event::Disconnected => Action::Stop,
        Event::RequestReceived => Action::CheckShutdown,
        Event::NotificationReceived => Action::HandleNotification,
        Event::ResponseReceived => Action::Receive,
        Event::ShutdownConfirmed => Action::Stop,
        Event::NoShutdown => Action::HandleRequest,
        Event::ShutdownFailed => Action::ReportAndStop,
        Event::RequestHandled => Action::Receive,
        Event::NotificationHandled => Action::Receive,
        Event::NotificationFailed => Action::Fail,
    }
}

/// Whether an editor that goes by the capabilities may send a request.
pub open spec fn may_be_requested(c: Capabilities, method: Seq<char>) -> bool {
    ||| c.definition && method == "textDocument/definition"@
    ||| c.completion && method == "textDocument/completion"@
    ||| c.rename && method == "textDocument/rename"@
    ||| c.document_link && method == "textDocument/documentLink"@
    ||| c.document_link_resolve && method == "documentLink/resolve"@
    ||| c.formatting && method == "textDocument/formatting"@
    ||| c.selection_range && method == "textDocument/selectionRange"@
}

/// The server handles exactly the requests that it offers to handle.
pub proof fn law_what_is_offered_is_handled(method: Seq<char>)
    ensures
        request_of(method) != RequestKind::Unhandled <==> may_be_requested(offered(), method),
{
}

/// Two methods stand for the same request, or for the same notification, only if
/// they are the same, or if the server handles neither.
pub proof fn law_methods_are_told_apart(a: Seq<char>, b: Seq<char>)
    ensures
        request_of(a) == request_of(b) ==> a == b || request_of(a) == RequestKind::Unhandled,
        notification_of(a) == notification_of(b) ==> a == b || notification_of(a)
            == NotificationKind::Ignored,
        notification_of(a) != NotificationKind::Ignored ==> offered().open_close && (a
            == "textDocument/didOpen"@ || a == "textDocument/didChange"@),
{
}

} // verus!
