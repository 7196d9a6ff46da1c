//! HTTP response facts for the current execution path. These are separate from
//! value taints: changing the response MIME type must not declassify secrets.

use vstd::prelude::*;

verus! {

/// The MIME type that the response on this path is known to carry.
#[derive(Clone, Copy, Debug, PartialEq, Eq, Structural)]
pub enum ResponseContentType {
    Unknown,
    Html,
    Json,
}

impl Default for ResponseContentType {
    fn default() -> (r: Self)
        ensures
            r == ResponseContentType::Unknown,
    {
        ResponseContentType::Unknown
    }
}

/// Whether response headers may still be changed on this path.
#[derive(Clone, Copy, Debug, PartialEq, Eq, Structural)]
pub enum HeaderState {
    Mutable,
    Sent,
    MaybeSent,
}

impl Default for HeaderState {
    fn default() -> (r: Self)
        ensures
            r == HeaderState::Mutable,
    {
        HeaderState::Mutable
    }
}

#[derive(Clone, Copy, Debug, PartialEq, Eq, Structural)]
pub struct ResponseContext {
    pub content_type: ResponseContentType,
    headers: HeaderState,
}

/// The content type that two merged paths both guarantee.
pub open spec fn join_content_type(a: ResponseContentType, b: ResponseContentType) -> ResponseContentType {
    if a == b {
        a
    } else {
        ResponseContentType::Unknown
    }
}

/// The header state that two merged paths both guarantee.
pub open spec fn join_header_state(a: HeaderState, b: HeaderState) -> HeaderState {
    if a == b {
        a
    } else {
        HeaderState::MaybeSent
    }
}

/// The content type after asking for `wanted` in a context with the given
/// content type and header state.
pub open spec fn content_type_after_set(
    current: ResponseContentType,
    headers: HeaderState,
    wanted: ResponseContentType,
) -> ResponseContentType {
    match headers {
        HeaderState::Mutable => wanted,
        HeaderState::Sent => current,
        HeaderState::MaybeSent => if current == wanted {
            current
        } else {
            ResponseContentType::Unknown
        },
    }
}

/// The header state after output is emitted.
pub open spec fn headers_after_emit(headers: HeaderState) -> HeaderState {
    if headers == HeaderState::Mutable {
        HeaderState::Sent
    } else {
        headers
    }
}

/// One operation on a path's response facts.
pub enum ResponseStep {
    SetContentType(ResponseContentType),
    Emit,
    Invalidate,
    Forget,
    /// Merging with the facts of another path.
    Join(ResponseContext),
}

/// The content type and header state after one operation.
pub open spec fn after_step(
    content: ResponseContentType,
    headers: HeaderState,
    step: ResponseStep,
) -> (ResponseContentType, HeaderState) {
    match step {
        ResponseStep::SetContentType(wanted) => (
            content_type_after_set(content, headers, wanted),
            headers,
        ),
        ResponseStep::Emit => (content, headers_after_emit(headers)),
        ResponseStep::Invalidate => (ResponseContentType::Unknown, headers),
        ResponseStep::Forget => (ResponseContentType::Unknown, HeaderState::MaybeSent),
        ResponseStep::Join(other) => (
            join_content_type(content, other.content()),
            join_header_state(headers, other.headers()),
        ),
    }
}

/// The content type and header state after a sequence of operations, taken
/// in order.
pub open spec fn after_steps(
    content: ResponseContentType,
    headers: HeaderState,
    steps: Seq<ResponseStep>,
) -> (ResponseContentType, HeaderState)
    decreases steps.len(),
{
    if steps.len() == 0 {
        (content, headers)
    } else {
        let (c, h) = after_step(content, headers, steps[0]);
        after_steps(c, h, steps.drop_first())
    }
}

impl Default for ResponseContext {
    fn default() -> (r: Self)
        ensures
            r.content() == ResponseContentType::Unknown,
            r.headers() == HeaderState::Mutable,
    {
        ResponseContext { content_type: ResponseContentType::Unknown, headers: HeaderState::Mutable }
    }
}

impl ResponseContext {
    /// The content type guaranteed on this path.
    pub closed spec fn content(self) -> ResponseContentType {
        self.content_type
    }

    /// The header state tracked on this path.
    pub closed spec fn headers(self) -> HeaderState {
        self.headers
    }

    /// The content type guaranteed on this path.
    pub fn content_type(&self) -> (r: ResponseContentType)
        ensures
            r == self.content(),
    {
        self.content_type
    }

    /// The header state tracked on this path.
    pub fn header_state(&self) -> (r: HeaderState)
        ensures
            r == self.headers(),
    {
        self.headers
    }

    /// Merges the facts of two paths: only what both guarantee survives.
    pub fn join(self, other: Self) -> (r: Self)
        ensures
            r.content() == join_content_type(self.content(), other.content()),
            r.headers() == join_header_state(self.headers(), other.headers()),
            (r.content(), r.headers()) == after_step(
                self.content(),
                self.headers(),
                ResponseStep::Join(other),
            ),
    {
        Self {
            content_type: if self.content_type == other.content_type {
                self.content_type
            } else {
                ResponseContentType::Unknown
            },
            headers: if self.headers == other.headers {
                self.headers
            } else {
                HeaderState::MaybeSent
            },
        }
    }

    pub fn set_content_type(&mut self, content_type: ResponseContentType)
        ensures
            final(self).content() == content_type_after_set(
                old(self).content(),
                old(self).headers(),
                content_type,
            ),
            final(self).headers() == old(self).headers(),
            (final(self).content(), final(self).headers()) == after_step(
                old(self).content(),
                old(self).headers(),
                ResponseStep::SetContentType(content_type),
            ),
    {
        match self.headers {
            HeaderState::Mutable => self.content_type = content_type,
            HeaderState::Sent => {},
            HeaderState::MaybeSent => {
                if self.content_type != content_type {
                    self.content_type = ResponseContentType::Unknown;
                }
            },
        }
    }

    pub fn emit(&mut self)
        ensures
            final(self).content() == old(self).content(),
            final(self).headers() == headers_after_emit(old(self).headers()),
            (final(self).content(), final(self).headers()) == after_step(
                old(self).content(),
                old(self).headers(),
                ResponseStep::Emit,
            ),
    {
        if self.headers == HeaderState::Mutable {
            self.headers = HeaderState::Sent;
        }
    }

    /// Calls with unknown response effects cannot preserve a MIME guarantee.
    /// As at function entry, we do not infer output hidden inside arbitrary
    /// callees; header mutability here tracks output observed on this path.
    pub fn invalidate(&mut self)
        ensures
            final(self).content() == ResponseContentType::Unknown,
            final(self).headers() == old(self).headers(),
            (final(self).content(), final(self).headers()) == after_step(
                old(self).content(),
                old(self).headers(),
                ResponseStep::Invalidate,
            ),
    {
        self.content_type = ResponseContentType::Unknown;
    }

    /// Buffering and control-flow edges without a response summary may also
    /// change whether headers have been committed.
    pub fn forget(&mut self)
        ensures
            final(self).content() == ResponseContentType::Unknown,
            final(self).headers() == HeaderState::MaybeSent,
            (final(self).content(), final(self).headers()) == after_step(
                old(self).content(),
                old(self).headers(),
                ResponseStep::Forget,
            ),
    {
        self.invalidate();
        self.headers = HeaderState::MaybeSent;
    }
}

/// Merging paths is commutative.
pub proof fn lemma_join_commutative(a: ResponseContext, b: ResponseContext)
    ensures
        join_content_type(a.content(), b.content()) == join_content_type(b.content(), a.content()),
        join_header_state(a.headers(), b.headers()) == join_header_state(b.headers(), a.headers()),
{
}

/// Merging paths is associative.
pub proof fn lemma_join_associative(a: ResponseContext, b: ResponseContext, c: ResponseContext)
    ensures
        join_content_type(join_content_type(a.content(), b.content()), c.content())
            == join_content_type(a.content(), join_content_type(b.content(), c.content())),
        join_header_state(join_header_state(a.headers(), b.headers()), c.headers())
            == join_header_state(a.headers(), join_header_state(b.headers(), c.headers())),
{
}

/// Merging a path with itself changes nothing.
pub proof fn lemma_join_idempotent(a: ResponseContext)
    ensures
        join_content_type(a.content(), a.content()) == a.content(),
        join_header_state(a.headers(), a.headers()) == a.headers(),
{
}

/// A merge keeps a MIME type only when both paths guarantee it, and keeps a
/// header state only when both paths agree on it.
pub proof fn lemma_join_keeps_only_guarantees(a: ResponseContext, b: ResponseContext)
    ensures
        join_content_type(a.content(), b.content()) != ResponseContentType::Unknown ==> (a.content()
            == join_content_type(a.content(), b.content()) && b.content() == join_content_type(
            a.content(),
            b.content(),
        )),
        join_header_state(a.headers(), b.headers()) == HeaderState::Mutable ==> (a.headers()
            == HeaderState::Mutable && b.headers() == HeaderState::Mutable),
{
}

/// Once headers are no longer mutable, the content type stays what it was or
/// becomes `Unknown`, whatever operations follow.
proof fn lemma_steps_keep_type_or_unknown(
    content: ResponseContentType,
    headers: HeaderState,
    kept: ResponseContentType,
    steps: Seq<ResponseStep>,
)
    requires
        headers != HeaderState::Mutable,
        content == kept || content == ResponseContentType::Unknown,
    ensures
        after_steps(content, headers, steps).0 == kept || after_steps(content, headers, steps).0
            == ResponseContentType::Unknown,
        after_steps(content, headers, steps).1 != HeaderState::Mutable,
    decreases steps.len(),
{
    if steps.len() > 0 {
        let (c, h) = after_step(content, headers, steps[0]);
        lemma_steps_keep_type_or_unknown(c, h, kept, steps.drop_first());
    }
}

/// Once output has been emitted on a path, no later sequence of operations
/// (setting a MIME type, emitting, invalidating, forgetting, merging with any
/// path) establishes a MIME type other than the one it had when output was
/// emitted: it stays that type or becomes `Unknown`.
pub proof fn lemma_emitted_content_type_is_fixed(c: ResponseContext, steps: Seq<ResponseStep>)
    ensures
        ({
            let (content, _) = after_steps(c.content(), headers_after_emit(c.headers()), steps);
            content == c.content() || content == ResponseContentType::Unknown
        }),
{
    lemma_steps_keep_type_or_unknown(c.content(), headers_after_emit(c.headers()), c.content(), steps);
}

/// Header state never returns to mutable: once headers are sent or possibly
/// sent, they stay so after any sequence of operations, merges included.
pub proof fn lemma_headers_never_become_mutable_again(c: ResponseContext, steps: Seq<ResponseStep>)
    requires
        c.headers() != HeaderState::Mutable,
    ensures
        after_steps(c.content(), c.headers(), steps).1 != HeaderState::Mutable,
{
    lemma_steps_keep_type_or_unknown(c.content(), c.headers(), c.content(), steps);
}

proof fn lemma_forgotten_state_is_kept(steps: Seq<ResponseStep>)
    ensures
        after_steps(ResponseContentType::Unknown, HeaderState::MaybeSent, steps) == (
            ResponseContentType::Unknown,
            HeaderState::MaybeSent,
        ),
    decreases steps.len(),
{
    if steps.len() > 0 {
        lemma_forgotten_state_is_kept(steps.drop_first());
    }
}

/// After `forget`, the path stays without a MIME guarantee and with headers
/// possibly sent, whatever operations follow, merges with any path included.
pub proof fn lemma_forgotten_context_stays_unknown(c: ResponseContext, steps: Seq<ResponseStep>)
    ensures
        ({
            let (content, headers) = after_step(c.content(), c.headers(), ResponseStep::Forget);
            after_steps(content, headers, steps) == (
                ResponseContentType::Unknown,
                HeaderState::MaybeSent,
            )
        }),
{
    lemma_forgotten_state_is_kept(steps);
}

} // verus!
