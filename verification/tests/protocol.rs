//! Messages, capabilities, and the end of a session.

use lsp_server::ErrorCode;
use lsp_types::notification::{
    DidChangeTextDocument, DidCloseTextDocument, DidOpenTextDocument, Notification, PublishDiagnostics,
};
use lsp_types::request::{
    Completion, DocumentLinkRequest, DocumentLinkResolve, Formatting, GotoDefinition, HoverRequest,
    Rename, Request, SelectionRangeRequest,
};
use rnix_lsp::protocol::{
    capabilities, next_action, notification_kind, request_kind, Action, Capabilities, Event,
    NotificationKind, RequestKind, SyncKind, METHOD_NOT_FOUND, PUBLISH_DIAGNOSTICS,
    UNKNOWN_ERROR_CODE,
};

#[test]
fn request_methods() {
    assert_eq!(request_kind(GotoDefinition::METHOD), RequestKind::GotoDefinition);
    assert_eq!(request_kind(Completion::METHOD), RequestKind::Completion);
    assert_eq!(request_kind(Rename::METHOD), RequestKind::Rename);
    assert_eq!(request_kind(DocumentLinkRequest::METHOD), RequestKind::DocumentLink);
    assert_eq!(request_kind(Formatting::METHOD), RequestKind::Formatting);
    assert_eq!(request_kind(SelectionRangeRequest::METHOD), RequestKind::SelectionRange);
    assert_eq!(request_kind(HoverRequest::METHOD), RequestKind::Unhandled);
    assert_eq!(request_kind(""), RequestKind::Unhandled);
}

#[test]
fn notification_methods() {
    assert_eq!(notification_kind(DidOpenTextDocument::METHOD), NotificationKind::DidOpen);
    assert_eq!(notification_kind(DidChangeTextDocument::METHOD), NotificationKind::DidChange);
    assert_eq!(notification_kind(DidCloseTextDocument::METHOD), NotificationKind::Ignored);
    assert_eq!(PUBLISH_DIAGNOSTICS, PublishDiagnostics::METHOD);
}

#[test]
fn error_codes() {
    assert_eq!(METHOD_NOT_FOUND, ErrorCode::MethodNotFound as i32);
    assert_eq!(UNKNOWN_ERROR_CODE, ErrorCode::UnknownErrorCode as i32);
}

#[test]
fn what_the_server_offers() {
    assert_eq!(
        capabilities(),
        Capabilities {
            open_close: true,
            change: SyncKind::Incremental,
            completion: true,
            definition: true,
            formatting: true,
            document_link: true,
            document_link_resolve: false,
            rename: true,
            selection_range: true,
        },
    );
}

#[test]
fn offered_requests_are_handled_and_no_others() {
    let offered = capabilities();
    let requests = [
        (offered.definition, GotoDefinition::METHOD),
        (offered.completion, Completion::METHOD),
        (offered.rename, Rename::METHOD),
        (offered.document_link, DocumentLinkRequest::METHOD),
        (offered.document_link_resolve, DocumentLinkResolve::METHOD),
        (offered.formatting, Formatting::METHOD),
        (offered.selection_range, SelectionRangeRequest::METHOD),
    ];
    for (is_offered, method) in requests {
        assert_eq!(request_kind(method) != RequestKind::Unhandled, is_offered);
    }
}

#[test]
fn a_session() {
    assert_eq!(next_action(Event::NotificationReceived), Action::HandleNotification);
    assert_eq!(next_action(Event::NotificationHandled), Action::Receive);
    assert_eq!(next_action(Event::RequestReceived), Action::CheckShutdown);
    assert_eq!(next_action(Event::NoShutdown), Action::HandleRequest);
    assert_eq!(next_action(Event::RequestHandled), Action::Receive);
    assert_eq!(next_action(Event::ResponseReceived), Action::Receive);
    assert_eq!(next_action(Event::ShutdownConfirmed), Action::Stop);
}

#[test]
fn sessions_that_break_off() {
    assert_eq!(next_action(Event::Disconnected), Action::Stop);
    assert_eq!(next_action(Event::ShutdownFailed), Action::ReportAndStop);
    assert_eq!(next_action(Event::NotificationFailed), Action::Fail);
}
