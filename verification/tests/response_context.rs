use hakana_analyzer::scope::response_context::ResponseContentType::{Html, Json, Unknown};
use hakana_analyzer::scope::response_context::ResponseContext;
use hakana_analyzer::scope::response_context::HeaderState;

#[test]
fn merges_keep_only_guaranteed_mime_and_header_mutability() {
    let mut json = ResponseContext::default();
    json.set_content_type(Json);
    assert_eq!(json.join(json).content_type, Json);
    assert_eq!(json.join(ResponseContext::default()).content_type, Unknown);
    let mut sent = json;
    sent.emit();
    let mut merged = json.join(sent);
    merged.set_content_type(Html);
    assert_eq!(merged.content_type, Unknown);
    sent.set_content_type(Html);
    assert_eq!(sent.content_type, Json);
}

#[test]
fn default_context_has_unknown_type_and_mutable_headers() {
    let mut context = ResponseContext::default();
    assert_eq!(context.content_type, Unknown);
    context.set_content_type(Html);
    assert_eq!(context.content_type, Html);
    context.set_content_type(Json);
    assert_eq!(context.content_type, Json);
}

#[test]
fn join_is_commutative_and_idempotent() {
    let mut html = ResponseContext::default();
    html.set_content_type(Html);
    let mut json = ResponseContext::default();
    json.set_content_type(Json);
    assert_eq!(html.join(json), json.join(html));
    assert_eq!(html.join(json).content_type, Unknown);
    assert_eq!(html.join(html), html);
}

#[test]
fn emitted_output_fixes_the_content_type() {
    let mut html = ResponseContext::default();
    html.set_content_type(Html);
    html.emit();
    html.set_content_type(Json);
    assert_eq!(html.content_type, Html);
    html.emit();
    html.set_content_type(Json);
    assert_eq!(html.content_type, Html);
}

#[test]
fn possibly_sent_headers_keep_an_agreeing_type() {
    let mut html = ResponseContext::default();
    html.set_content_type(Html);
    let mut sent = html;
    sent.emit();
    let mut merged = html.join(sent);
    merged.set_content_type(Html);
    assert_eq!(merged.content_type, Html);
}

#[test]
fn invalidate_drops_only_the_type() {
    let mut json = ResponseContext::default();
    json.set_content_type(Json);
    json.invalidate();
    assert_eq!(json.content_type, Unknown);
    json.set_content_type(Html);
    assert_eq!(json.content_type, Html);
}

#[test]
fn forgotten_context_never_regains_a_type() {
    let mut context = ResponseContext::default();
    context.set_content_type(Json);
    context.forget();
    assert_eq!(context.content_type, Unknown);
    context.set_content_type(Json);
    assert_eq!(context.content_type, Unknown);
    context.emit();
    context.set_content_type(Html);
    assert_eq!(context.content_type, Unknown);
    let mut fresh = ResponseContext::default();
    fresh.set_content_type(Json);
    let mut merged = context.join(fresh);
    merged.set_content_type(Json);
    assert_eq!(merged.content_type, Unknown);
}

#[test]
fn getters_report_the_tracked_facts() {
    let mut context = ResponseContext::default();
    context.set_content_type(Json);
    assert_eq!(context.content_type(), Json);
    assert_eq!(context.header_state(), HeaderState::Mutable);
    context.emit();
    assert_eq!(context.header_state(), HeaderState::Sent);
    context.forget();
    assert_eq!(context.header_state(), HeaderState::MaybeSent);
    assert_eq!(context.content_type(), Unknown);
}
