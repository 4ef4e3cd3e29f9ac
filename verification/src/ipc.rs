//! Single instance: a running Goro listens on a per-user local socket, and later `goro`
//! invocations hand their request to it and exit.
//!
//! Protocol: the client sends one line, `<verb>\t<path>`: `open` and `wait` with an empty
//! path to detect, `turn` with the repository's root. The server answers `ok`. To `wait` it
//! answers when the review is sent, with `ok` and the comments as markdown below it, or with
//! `cancelled`.
use vstd::prelude::*;

use crate::bytes::{append, append_byte, bytes_of, copy, same, LF};
use crate::text::{chars_of, copy_text, part_of, push_text, same_text, trim};

verus! {

/// What a client asks of a running instance.
#[derive(Debug, PartialEq, Eq)]
pub enum Request {
    /// Open a path, or the repository that is detected.
    Open(Option<Vec<u8>>),
    /// A turn was recorded in a repository.
    TurnRecorded(Vec<u8>),
    /// Open a path, and answer when its review is sent.
    Wait(Option<Vec<u8>>),
}

/// What a client asks, as sequences.
pub enum RequestView {
    Open(Option<Seq<u8>>),
    TurnRecorded(Seq<u8>),
    Wait(Option<Seq<u8>>),
}

impl DeepView for Request {
    type V = RequestView;

    open spec fn deep_view(&self) -> RequestView {
        match *self {
            Request::Open(None) => RequestView::Open(None),
            Request::Open(Some(path)) => RequestView::Open(Some(path@)),
            Request::TurnRecorded(root) => RequestView::TurnRecorded(root@),
            Request::Wait(None) => RequestView::Wait(None),
            Request::Wait(Some(path)) => RequestView::Wait(Some(path@)),
        }
    }
}

/// The verb of a request, with the tab behind it.
pub open spec fn verb(request: RequestView) -> Seq<u8> {
    match request {
        RequestView::Open(_) => crate::bytes::text_bytes("open\t"@),
        RequestView::TurnRecorded(_) => crate::bytes::text_bytes("turn\t"@),
        RequestView::Wait(_) => crate::bytes::text_bytes("wait\t"@),
    }
}

/// The path of a request; no path is an empty one.
pub open spec fn request_path(request: RequestView) -> Seq<u8> {
    match request {
        RequestView::Open(Some(path)) => path,
        RequestView::TurnRecorded(root) => root,
        RequestView::Wait(Some(path)) => path,
        _ => Seq::empty(),
    }
}

/// The line of a request.
pub open spec fn request_line(request: RequestView) -> Seq<u8> {
    verb(request) + request_path(request) + seq![LF]
}

/// The line of a request.
pub fn encode_request(request: &Request) -> (line: Vec<u8>)
    ensures
        line@ == request_line(request.deep_view()),
{
    let mut line = match request {
        Request::Open(_) => bytes_of("open\t"),
        Request::TurnRecorded(_) => bytes_of("turn\t"),
        Request::Wait(_) => bytes_of("wait\t"),
    };
    match request {
        Request::Open(Some(path)) => append(&mut line, path.as_slice()),
        Request::TurnRecorded(root) => append(&mut line, root.as_slice()),
        Request::Wait(Some(path)) => append(&mut line, path.as_slice()),
        _ => {},
    }
    assert(line@ =~= verb(request.deep_view()) + request_path(request.deep_view()));
    append_byte(&mut line, LF);
    line
}

/// A line without the line end.
pub open spec fn without_end(line: Seq<u8>) -> Seq<u8> {
    if line.len() > 0 && line.last() == LF {
        line.drop_last()
    } else {
        line
    }
}

/// What follows a verb.
pub open spec fn after(line: Seq<u8>, head: Seq<u8>) -> Option<Seq<u8>> {
    if head.len() <= line.len() && line.take(head.len() as int) == head {
        Some(without_end(line.skip(head.len() as int)))
    } else {
        None
    }
}

/// A path, or none where it is empty.
pub open spec fn some_path(path: Seq<u8>) -> Option<Seq<u8>> {
    if path.len() == 0 {
        None
    } else {
        Some(path)
    }
}

/// The request that a line makes, if any.
pub open spec fn request_in(line: Seq<u8>) -> Option<RequestView> {
    match after(line, crate::bytes::text_bytes("open\t"@)) {
        Some(path) => Some(RequestView::Open(some_path(path))),
        None => match after(line, crate::bytes::text_bytes("turn\t"@)) {
            Some(root) => Some(RequestView::TurnRecorded(root)),
            None => match after(line, crate::bytes::text_bytes("wait\t"@)) {
                Some(path) => Some(RequestView::Wait(some_path(path))),
                None => None,
            },
        },
    }
}

fn strip(line: &[u8], head: &str) -> (rest: Option<Vec<u8>>)
    ensures
        match rest {
            Some(r) => after(line@, crate::bytes::text_bytes(head@)) == Some(r@),
            None => after(line@, crate::bytes::text_bytes(head@)) is None,
        },
{
    let prefix = head.as_bytes();
    let count: usize = prefix.len();
    let total: usize = line.len();
    if count > total || !same(vstd::slice::slice_subrange(line, 0, count), prefix) {
        assert(count <= total ==> line@.subrange(0, count as int) =~= line@.take(count as int));
        return None;
    }
    assert(line@.subrange(0, count as int) =~= line@.take(count as int));
    let ghost rest = line@.skip(count as int);
    let end: usize = if total > count && line[total - 1] == LF {
        total - 1
    } else {
        total
    };
    assert(line@.subrange(count as int, end as int) =~= without_end(rest));
    Some(copy(vstd::slice::slice_subrange(line, count, end)))
}

fn optional(path: Vec<u8>) -> (result: Option<Vec<u8>>)
    ensures
        match result {
            Some(p) => some_path(path@) == Some(p@),
            None => some_path(path@) is None,
        },
{
    if path.len() == 0 {
        None
    } else {
        Some(path)
    }
}

/// The request that a line makes, if any.
pub fn parse_request(line: &[u8]) -> (request: Option<Request>)
    ensures
        request.deep_view() == request_in(line@),
{
    if let Some(path) = strip(line, "open\t") {
        return Some(Request::Open(optional(path)));
    }
    if let Some(root) = strip(line, "turn\t") {
        return Some(Request::TurnRecorded(root));
    }
    match strip(line, "wait\t") {
        Some(path) => Some(Request::Wait(optional(path))),
        None => None,
    }
}

proof fn lemma_verbs_differ(a: Seq<char>, b: Seq<char>, rest: Seq<u8>)
    requires
        a.len() > 0,
        b.len() > 0,
        (a[0] as u32) < 128,
        (b[0] as u32) < 128,
        a[0] != b[0],
    ensures
        after(crate::bytes::text_bytes(a) + rest, crate::bytes::text_bytes(b)) is None,
{
    let (x, y) = (crate::bytes::text_bytes(a), crate::bytes::text_bytes(b));
    lemma_first_byte(a);
    lemma_first_byte(b);
    if y.len() <= (x + rest).len() && (x + rest).take(y.len() as int) == y {
        let (first, other): (char, char) = (a[0], b[0]);
        assert((x + rest).take(y.len() as int)[0] == x[0]);
        assert(y[0] == x[0]);
        vstd::utf8::char_u32_cast(first, first as u32);
        vstd::utf8::char_u32_cast(other, other as u32);
    }
}

/// The first byte of a text that begins with an ASCII character is that character.
proof fn lemma_first_byte(text: Seq<char>)
    requires
        text.len() > 0,
        (text[0] as u32) < 128,
    ensures
        crate::bytes::text_bytes(text).len() > 0,
        crate::bytes::text_bytes(text)[0] == text[0] as u32,
{
    let scalar = text[0] as u32;
    assert((scalar & 0x7F) as u8 == scalar) by (bit_vector)
        requires
            scalar < 128,
    ;
    assert(vstd::utf8::encode_utf8(text) == vstd::utf8::encode_scalar(scalar)
        + vstd::utf8::encode_utf8(text.drop_first()));
    assert(vstd::utf8::encode_scalar(scalar)[0] == scalar);
}

/// A request reaches the server as it was made: reading its line gives it back, as long as
/// its path holds no line end and, for `open` and `wait`, is not empty.
pub proof fn law_requests_read_back(request: RequestView)
    requires
        forall|i: int|
            0 <= i < request_path(request).len() ==> #[trigger] request_path(request)[i] != LF,
        request matches RequestView::Open(Some(path)) ==> path.len() > 0,
        request matches RequestView::Wait(Some(path)) ==> path.len() > 0,
    ensures
        request_in(request_line(request)) == Some(request),
{
    let line = request_line(request);
    let path = request_path(request);
    let rest = path + seq![LF];
    let head = verb(request);
    assert(line =~= head + rest);
    assert(line.take(head.len() as int) =~= head);
    assert(line.skip(head.len() as int) =~= rest);
    assert(rest.drop_last() =~= path);
    assert(after(line, head) == Some(path));
    reveal_strlit("open\t");
    reveal_strlit("turn\t");
    reveal_strlit("wait\t");
    match request {
        RequestView::Open(_) => {},
        RequestView::TurnRecorded(_) => {
            lemma_verbs_differ("turn\t"@, "open\t"@, rest);
        },
        RequestView::Wait(_) => {
            lemma_verbs_differ("wait\t"@, "open\t"@, rest);
            lemma_verbs_differ("wait\t"@, "turn\t"@, rest);
        },
    }
}

/// Whether an answer is `ok`.
pub fn is_ok(reply: &str) -> (ok: bool)
    ensures
        ok == (crate::text::trimmed(reply@) == "ok"@),
{
    same_text(trim(reply).as_str(), "ok")
}

/// What a server answered to `wait`.
#[derive(Debug, PartialEq, Eq)]
pub enum WaitReply {
    /// The review was sent: its comments as markdown.
    Sent(String),
    /// The review was closed without being sent.
    Cancelled,
    Unexpected,
}

/// The answer to `wait` once a review is sent.
pub open spec fn sent_reply(markdown: Seq<char>) -> Seq<char> {
    "ok\n"@ + markdown
}

/// The answer to `wait` once a review is sent.
pub fn encode_sent(markdown: &str) -> (reply: String)
    ensures
        reply@ == sent_reply(markdown@),
{
    let mut reply = copy_text("ok\n");
    push_text(&mut reply, markdown);
    reply
}

/// Reads the answer to `wait`.
pub fn parse_wait_reply(reply: &str) -> (result: WaitReply)
    ensures
        match result {
            WaitReply::Sent(markdown) => reply@ == sent_reply(markdown@),
            WaitReply::Cancelled => !crate::text::starts_with(reply@, "ok\n"@)
                && crate::text::trimmed(reply@) == "cancelled"@,
            WaitReply::Unexpected => !crate::text::starts_with(reply@, "ok\n"@)
                && crate::text::trimmed(reply@) != "cancelled"@,
        },
{
    let chars = chars_of(reply);
    let total: usize = chars.len();
    assert(chars@.skip(0) =~= chars@);
    if crate::text::begins(chars.as_slice(), 0, "ok\n") {
        let head: usize = chars_of("ok\n").len();
        let markdown = part_of(chars.as_slice(), head, total);
        proof {
            assert(reply@ =~= reply@.take(head as int) + reply@.skip(head as int));
            assert(markdown@ =~= reply@.skip(head as int));
        }
        return WaitReply::Sent(markdown);
    }
    if same_text(trim(reply).as_str(), "cancelled") {
        WaitReply::Cancelled
    } else {
        WaitReply::Unexpected
    }
}

/// What is sent to a waiter is what it reads.
pub proof fn law_sent_reviews_read_back(markdown: Seq<char>)
    ensures
        crate::text::starts_with(sent_reply(markdown), "ok\n"@),
        sent_reply(markdown).skip("ok\n"@.len() as int) == markdown,
{
    assert(sent_reply(markdown).take("ok\n"@.len() as int) =~= "ok\n"@);
    assert(sent_reply(markdown).skip("ok\n"@.len() as int) =~= markdown);
}

/// The name of the per-user socket.
pub open spec fn socket_file(id: Seq<char>, user: Seq<char>) -> Seq<char> {
    id + "-"@ + user + ".sock"@
}

/// The name of the per-user socket for `id`, from the variables that may name the user.
pub fn socket_label(id: &str, user: Option<&str>, username: Option<&str>) -> (label: String)
    ensures
        label@ == socket_file(
            id@,
            match (user, username) {
                (Some(u), _) => u@,
                (None, Some(u)) => u@,
                (None, None) => "user"@,
            },
        ),
{
    let name = match (user, username) {
        (Some(u), _) => u,
        (None, Some(u)) => u,
        (None, None) => "user",
    };
    let mut label = copy_text(id);
    push_text(&mut label, "-");
    push_text(&mut label, name);
    push_text(&mut label, ".sock");
    label
}

} // verus!
