//! The HTTP bridge: what follows from the lines of a request, and how it is answered.
use crate::text;
use crate::text::{
    chars_of, equal_but_case, join_text, parse_number, push_decimal, text_of, trim_end, trim_start,
    white,
};
use crate::engine::schema::same_text;
use vstd::prelude::*;
use vstd::string::*;
use vstd::utf8::encode_utf8;

verus! {

pub const MAX_BODY_BYTES: usize = 4_194_304;

pub const MAX_HEADER_LINES: usize = 100;

/// What has been read of a request before its body.
pub struct RequestHead {
    pub method: String,
    pub path: String,
    pub content_length: usize,
    pub keep_alive: bool,
    /// How many header lines were read.
    pub lines: usize,
}

#[verifier::ext_equal]
pub struct HeadView {
    pub method: Seq<char>,
    pub path: Seq<char>,
    pub content_length: nat,
    pub keep_alive: bool,
    pub lines: nat,
}

impl View for RequestHead {
    type V = HeadView;

    open spec fn view(&self) -> HeadView {
        HeadView {
            method: self.method@,
            path: self.path@,
            content_length: self.content_length as nat,
            keep_alive: self.keep_alive,
            lines: self.lines as nat,
        }
    }
}

/// How many characters stand in front of the first white one.
pub open spec fn word_length(line: Seq<char>) -> int
    decreases line.len(),
{
    if line.len() == 0 || text::is_white(line[0]) {
        0
    } else {
        1 + word_length(line.drop_first())
    }
}

/// The first word of a line; nothing where there is none.
pub open spec fn first_word(line: Seq<char>) -> Seq<char> {
    let start = text::trimmed_start(line);
    start.take(word_length(start))
}

/// What stands behind the first word of a line.
pub open spec fn behind_word(line: Seq<char>) -> Seq<char> {
    let start = text::trimmed_start(line);
    start.skip(word_length(start))
}

/// A request as its first line says it.
pub open spec fn begun(line: Seq<char>) -> HeadView {
    HeadView {
        method: first_word(line),
        path: first_word(behind_word(line)),
        content_length: 0,
        keep_alive: true,
        lines: 0,
    }
}

/// The place of the first colon; the length where there is none.
pub open spec fn colon_at(line: Seq<char>) -> int
    decreases line.len(),
{
    if line.len() == 0 || line[0] == ':' {
        0
    } else {
        1 + colon_at(line.drop_first())
    }
}

/// The length of a body as a header gives it; one that is no number counts as too large.
pub open spec fn stated_length(value: Seq<char>) -> nat {
    match text::parsed_number(value, usize::MAX as nat) {
        Ok(number) => number,
        Err(_) => usize::MAX as nat,
    }
}

/// What a header changes.
pub open spec fn with_header(head: HeadView, name: Seq<char>, value: Seq<char>) -> HeadView {
    if text::same_but_case(name, "content-length"@) {
        HeadView { content_length: stated_length(value), ..head }
    } else if text::same_but_case(name, "connection"@) && text::same_but_case(value, "close"@) {
        HeadView { keep_alive: false, ..head }
    } else {
        head
    }
}

/// A request after another line of its header, and whether that was the last.
pub open spec fn continued(head: HeadView, line: Seq<char>) -> (HeadView, bool) {
    let content = text::trimmed_end(line);
    let counted = HeadView { lines: head.lines + 1, ..head };
    if content.len() == 0 {
        (counted, true)
    } else {
        let colon = colon_at(content);
        let after = if colon < content.len() {
            with_header(counted, content.take(colon), text::trimmed(content.skip(colon + 1)))
        } else {
            counted
        };
        (after, head.lines + 1 >= MAX_HEADER_LINES)
    }
}

/// An answer: its status with the reason, and its body.
pub struct Reply {
    pub status: u16,
    pub reason: &'static str,
    pub body: String,
}

#[verifier::ext_equal]
pub struct ReplyView {
    pub status: u16,
    pub reason: Seq<char>,
    pub body: Seq<char>,
}

impl View for Reply {
    type V = ReplyView;

    open spec fn view(&self) -> ReplyView {
        ReplyView { status: self.status, reason: self.reason@, body: self.body@ }
    }
}

/// What a request asks for.
pub enum Route {
    /// It is answered at once; the connection ends where no body was read.
    Answer { reply: Reply, close: bool },
    /// Its body names statements to execute.
    Execute,
}

#[verifier::ext_equal]
pub enum RouteView {
    Answer { reply: ReplyView, close: bool },
    Execute,
}

impl View for Route {
    type V = RouteView;

    open spec fn view(&self) -> RouteView {
        match self {
            Route::Answer { reply, close } => RouteView::Answer { reply: reply@, close: *close },
            Route::Execute => RouteView::Execute,
        }
    }
}

pub open spec fn too_large() -> ReplyView {
    ReplyView {
        status: 413,
        reason: "Payload Too Large"@,
        body: "{\"error\":{\"code\":\"frame_too_large\",\"message\":\"request body is too large\"}}"@,
    }
}

pub open spec fn preflight() -> ReplyView {
    ReplyView { status: 204, reason: "No Content"@, body: ""@ }
}

pub open spec fn missing() -> ReplyView {
    ReplyView {
        status: 404,
        reason: "Not Found"@,
        body:
            "{\"error\":{\"code\":\"invalid_json\",\"message\":\"the only endpoint is POST /v1/execute\"}}"@,
    }
}

/// What a request asks for, once its header is read.
pub open spec fn routed(head: HeadView) -> RouteView {
    if head.content_length > MAX_BODY_BYTES {
        RouteView::Answer { reply: too_large(), close: true }
    } else if head.method == "OPTIONS"@ {
        RouteView::Answer { reply: preflight(), close: !head.keep_alive }
    } else if head.method == "POST"@ && head.path == "/v1/execute"@ {
        RouteView::Execute
    } else {
        RouteView::Answer { reply: missing(), close: !head.keep_alive }
    }
}

/// A word of a line: where the next begins, and the word.
fn take_word(chars: &Vec<char>, start: usize) -> (taken: (String, usize))
    requires
        start <= chars@.len(),
    ensures
        start <= taken.1 <= chars@.len(),
        taken.0@ == first_word(chars@.skip(start as int)),
        chars@.skip(taken.1 as int) == behind_word(chars@.skip(start as int)),
{
    let length: usize = chars.len();
    let first: usize = trim_start(chars, start, length);
    let ghost rest = chars@.skip(first as int);
    proof {
        assert(chars@.subrange(start as int, length as int) =~= chars@.skip(start as int));
        assert(chars@.subrange(first as int, length as int) =~= rest);
    }
    let mut end: usize = first;
    assert(chars@.skip(end as int) =~= rest);
    while end < length && !white(chars[end])
        invariant
            first <= end <= length == chars@.len(),
            rest == chars@.skip(first as int),
            word_length(rest) == end - first + word_length(chars@.skip(end as int)),
        decreases length - end,
    {
        assert(chars@.skip(end as int).drop_first() =~= chars@.skip(end + 1));
        end = end + 1;
    }
    let word = text_of(chars, first, end);
    proof {
        assert(word@ =~= rest.take(end - first));
        assert(chars@.skip(end as int) =~= rest.skip(end - first));
    }
    (word, end)
}

fn find_colon(chars: &Vec<char>, end: usize) -> (at: usize)
    requires
        end <= chars@.len(),
    ensures
        at <= end,
        at == colon_at(chars@.take(end as int)),
{
    let ghost content = chars@.take(end as int);
    let mut at: usize = 0;
    assert(content.skip(0) =~= content);
    while at < end && chars[at] != ':'
        invariant
            at <= end <= chars@.len(),
            content == chars@.take(end as int),
            colon_at(content) == at + colon_at(content.skip(at as int)),
        decreases end - at,
    {
        assert(content.skip(at as int).drop_first() =~= content.skip(at + 1));
        at = at + 1;
    }
    at
}

impl RequestHead {
    /// Begins a request with its first line.
    pub fn new(line: &str) -> (head: RequestHead)
        ensures
            head@ == begun(line@),
    {
        let chars = chars_of(line);
        let (method, next) = take_word(&chars, 0);
        let (path, _) = take_word(&chars, next);
        assert(chars@.skip(0) =~= line@);
        RequestHead { method, path, content_length: 0, keep_alive: true, lines: 0 }
    }

    /// Takes a line of the header, and says whether it was the last.
    pub fn header(&mut self, line: &str) -> (last: bool)
        requires
            old(self).lines < MAX_HEADER_LINES,
        ensures
            (final(self)@, last) == continued(old(self)@, line@),
    {
        let chars = chars_of(line);
        let length: usize = chars.len();
        let end: usize = trim_end(&chars, 0, length);
        let ghost content = text::trimmed_end(line@);
        proof {
            assert(chars@.subrange(0, length as int) =~= line@);
            assert(chars@.subrange(0, end as int) =~= content);
            assert(chars@.take(end as int) =~= content);
        }
        self.lines = self.lines + 1;
        if end == 0 {
            return true;
        }
        let colon: usize = find_colon(&chars, end);
        if colon < end {
            let start: usize = trim_start(&chars, colon + 1, end);
            let stop: usize = trim_end(&chars, start, end);
            proof {
                assert(chars@.subrange(0, colon as int) =~= content.take(colon as int));
                assert(chars@.subrange(colon + 1, end as int) =~= content.skip(colon + 1));
            }
            if equal_but_case(&chars, 0, colon, "content-length") {
                self.content_length = match parse_number(&chars, start, stop, usize::MAX as u64) {
                    Ok(number) => number as usize,
                    Err(_) => usize::MAX,
                };
            } else if equal_but_case(&chars, 0, colon, "connection") && equal_but_case(
                &chars,
                start,
                stop,
                "close",
            ) {
                self.keep_alive = false;
            }
        }
        self.lines >= MAX_HEADER_LINES
    }

    /// What the request asks for.
    pub fn route(&self) -> (route: Route)
        ensures
            route@ == routed(self@),
    {
        if self.content_length > MAX_BODY_BYTES {
            Route::Answer {
                reply: Reply {
                    status: 413,
                    reason: "Payload Too Large",
                    body: String::from_str(
                        "{\"error\":{\"code\":\"frame_too_large\",\"message\":\"request body is too large\"}}",
                    ),
                },
                close: true,
            }
        } else if same_text(self.method.as_str(), "OPTIONS") {
            Route::Answer {
                reply: Reply { status: 204, reason: "No Content", body: String::from_str("") },
                close: !self.keep_alive,
            }
        } else if same_text(self.method.as_str(), "POST") && same_text(
            self.path.as_str(),
            "/v1/execute",
        ) {
            Route::Execute
        } else {
            Route::Answer {
                reply: Reply {
                    status: 404,
                    reason: "Not Found",
                    body: String::from_str(
                        "{\"error\":{\"code\":\"invalid_json\",\"message\":\"the only endpoint is POST /v1/execute\"}}",
                    ),
                },
                close: !self.keep_alive,
            }
        }
    }
}

/// How a body with statements came out.
pub enum Execution {
    /// The body is not what it should be.
    Invalid { detail: String },
    /// The statements ran; their results as JSON, or why they have none.
    Done { json: Result<String, String> },
    /// A statement failed; the failure as JSON, if it has one.
    Failed { json: Option<String> },
}

#[verifier::ext_equal]
pub enum ExecutionView {
    Invalid { detail: Seq<char> },
    Done { json: Result<Seq<char>, Seq<char>> },
    Failed { json: Option<Seq<char>> },
}

impl View for Execution {
    type V = ExecutionView;

    open spec fn view(&self) -> ExecutionView {
        match self {
            Execution::Invalid { detail } => ExecutionView::Invalid { detail: detail@ },
            Execution::Done { json } => ExecutionView::Done {
                json: match json {
                    Ok(json) => Ok(json@),
                    Err(detail) => Err(detail@),
                },
            },
            Execution::Failed { json } => ExecutionView::Failed {
                json: match json {
                    Some(json) => Some(json@),
                    None => None,
                },
            },
        }
    }
}

/// The answer to a body with statements.
pub open spec fn execution_reply(execution: ExecutionView) -> ReplyView {
    match execution {
        ExecutionView::Invalid { detail } => ReplyView {
            status: 400,
            reason: "Bad Request"@,
            body:
                "{\"error\":{\"code\":\"invalid_json\",\"message\":\"body must be JSON with a sql field: "@
                + detail + "\"}}"@,
        },
        ExecutionView::Done { json: Ok(json) } => ReplyView {
            status: 200,
            reason: "OK"@,
            body: json,
        },
        ExecutionView::Done { json: Err(detail) } => ReplyView {
            status: 500,
            reason: "Internal Server Error"@,
            body: "{\"error\":{\"code\":\"invalid_json\",\"message\":\"encoding failed: "@ + detail
                + "\"}}"@,
        },
        ExecutionView::Failed { json: Some(json) } => ReplyView {
            status: 400,
            reason: "Bad Request"@,
            body: json,
        },
        ExecutionView::Failed { json: None } => ReplyView {
            status: 400,
            reason: "Bad Request"@,
            body: "{\"error\":{\"code\":\"execution_error\",\"message\":\"encoding failed\"}}"@,
        },
    }
}

/// Answers a body with statements.
pub fn execute_reply(execution: Execution) -> (reply: Reply)
    ensures
        reply@ == execution_reply(execution@),
{
    match execution {
        Execution::Invalid { detail } => Reply {
            status: 400,
            reason: "Bad Request",
            body: join_text(
                "{\"error\":{\"code\":\"invalid_json\",\"message\":\"body must be JSON with a sql field: ",
                detail.as_str(),
                "\"}}",
            ),
        },
        Execution::Done { json: Ok(json) } => Reply { status: 200, reason: "OK", body: json },
        Execution::Done { json: Err(detail) } => Reply {
            status: 500,
            reason: "Internal Server Error",
            body: join_text(
                "{\"error\":{\"code\":\"invalid_json\",\"message\":\"encoding failed: ",
                detail.as_str(),
                "\"}}",
            ),
        },
        Execution::Failed { json: Some(json) } => Reply {
            status: 400,
            reason: "Bad Request",
            body: json,
        },
        Execution::Failed { json: None } => Reply {
            status: 400,
            reason: "Bad Request",
            body: String::from_str(
                "{\"error\":{\"code\":\"execution_error\",\"message\":\"encoding failed\"}}",
            ),
        },
    }
}

/// An answer as it is sent.
pub open spec fn response_text(reply: ReplyView) -> Seq<char> {
    "HTTP/1.1 "@ + text::decimal(reply.status as nat) + " "@ + reply.reason
        + "\r\nContent-Type: application/json\r\nContent-Length: "@ + text::decimal(
        encode_utf8(reply.body).len(),
    )
        + "\r\nAccess-Control-Allow-Origin: *\r\nAccess-Control-Allow-Methods: POST, OPTIONS\r\nAccess-Control-Allow-Headers: Content-Type\r\n\r\n"@
        + reply.body
}

/// The text of an answer.
pub fn respond(reply: &Reply) -> (response: String)
    ensures
        response@ == response_text(reply@),
{
    let mut out = String::from_str("HTTP/1.1 ");
    push_decimal(&mut out, reply.status as u64);
    out.append(" ");
    out.append(reply.reason);
    out.append("\r\nContent-Type: application/json\r\nContent-Length: ");
    push_decimal(&mut out, reply.body.as_str().as_bytes().len() as u64);
    out.append(
        "\r\nAccess-Control-Allow-Origin: *\r\nAccess-Control-Allow-Methods: POST, OPTIONS\r\nAccess-Control-Allow-Headers: Content-Type\r\n\r\n",
    );
    out.append(reply.body.as_str());
    out
}

/// Whether there is no white space in a text, and something else.
pub open spec fn is_word(word: Seq<char>) -> bool {
    word.len() > 0 && forall|i: int| 0 <= i < word.len() ==> !text::is_white(#[trigger] word[i])
}

proof fn lemma_word_length(word: Seq<char>, rest: Seq<char>)
    requires
        forall|i: int| 0 <= i < word.len() ==> !text::is_white(#[trigger] word[i]),
        rest.len() == 0 || text::is_white(rest[0]),
    ensures
        word_length(word + rest) == word.len(),
    decreases word.len(),
{
    let line = word + rest;
    if word.len() > 0 {
        let fewer = word.drop_first();
        assert(line[0] == word[0]);
        assert(line.drop_first() =~= fewer + rest);
        assert forall|i: int| 0 <= i < fewer.len() implies !text::is_white(#[trigger] fewer[i]) by {
            assert(fewer[i] == word[i + 1]);
        }
        lemma_word_length(fewer, rest);
    } else {
        assert(line =~= rest);
    }
}

proof fn lemma_first_word(word: Seq<char>, rest: Seq<char>)
    requires
        is_word(word),
        rest.len() == 0 || text::is_white(rest[0]),
    ensures
        first_word(word + rest) == word,
        behind_word(word + rest) == rest,
{
    let line = word + rest;
    assert(line[0] == word[0]);
    lemma_word_length(word, rest);
    assert(line.take(word.len() as int) =~= word);
    assert(line.skip(word.len() as int) =~= rest);
}

/// The first line of a request gives its method and its path, the first words of the line.
pub proof fn law_first_line_is_read(method: Seq<char>, path: Seq<char>, rest: Seq<char>)
    requires
        is_word(method),
        is_word(path),
        rest.len() == 0 || text::is_white(rest[0]),
    ensures
        ({
            let head = begun(method + seq![' '] + path + rest);
            &&& head.method == method
            &&& head.path == path
            &&& head.content_length == 0
            &&& head.keep_alive
        }),
{
    let target = path + rest;
    let behind = seq![' '] + target;
    assert(method + seq![' '] + path + rest =~= method + behind);
    lemma_first_word(method, behind);
    assert(text::is_white(behind[0]));
    assert(behind.drop_first() =~= target);
    assert(!text::is_white(target[0])) by {
        assert(target[0] == path[0]);
    }
    lemma_first_word(path, rest);
    assert(text::trimmed_start(behind) == text::trimmed_start(target));
    assert(text::trimmed_start(target) == target);
}

proof fn lemma_trimmed_behind(front: Seq<char>, rest: Seq<char>)
    requires
        front.len() > 0,
        !text::is_white(front.last()),
        rest.len() == 0 || !text::is_white(rest.last()),
    ensures
        text::trimmed_end(front + rest) == front + rest,
{
    let whole = front + rest;
    if rest.len() > 0 {
        assert(whole.last() == rest.last());
    } else {
        assert(whole =~= front);
    }
}

proof fn lemma_colon(name: Seq<char>, rest: Seq<char>)
    requires
        forall|i: int| 0 <= i < name.len() ==> #[trigger] name[i] != ':',
    ensures
        colon_at(name + seq![':'] + rest) == name.len(),
    decreases name.len(),
{
    let line = name + seq![':'] + rest;
    if name.len() > 0 {
        let fewer = name.drop_first();
        assert(line[0] == name[0]);
        assert(line.drop_first() =~= fewer + seq![':'] + rest);
        assert forall|i: int| 0 <= i < fewer.len() implies #[trigger] fewer[i] != ':' by {
            assert(fewer[i] == name[i + 1]);
        }
        lemma_colon(fewer, rest);
    } else {
        assert(line[0] == ':');
    }
}

/// A header gives the length of the body as a number, or asks to close the connection, whatever the case
/// of its letters. Other headers change nothing, and an empty line ends the headers.
pub proof fn law_headers_are_read(head: HeadView, name: Seq<char>, value: Seq<char>, length: nat)
    requires
        forall|i: int| 0 <= i < name.len() ==> #[trigger] name[i] != ':',
        value.len() > 0,
        !text::is_white(value[0]),
        !text::is_white(value.last()),
    ensures
        ({
            let (after, last) = continued(head, name + seq![':', ' '] + value);
            let sizes = text::same_but_case(name, "content-length"@);
            let closes = text::same_but_case(name, "connection"@) && text::same_but_case(
                value,
                "close"@,
            );
            &&& after.method == head.method && after.path == head.path
            &&& after.lines == head.lines + 1
            &&& last <==> head.lines + 1 >= 100
            &&& sizes && value == text::decimal(length) && length <= usize::MAX
                ==> after.content_length == length
            &&& !sizes ==> after.content_length == head.content_length
            &&& !sizes && closes ==> !after.keep_alive
            &&& sizes || !closes ==> after.keep_alive == head.keep_alive
        }),
        continued(head, Seq::empty()).1,
{
    let line = name + seq![':', ' '] + value;
    let rest = seq![' '] + value;
    let front = name + seq![':'];
    assert(line =~= front + rest);
    assert(front.last() == ':');
    assert(rest.last() == value.last());
    lemma_trimmed_behind(front, rest);
    lemma_colon(name, rest);
    assert(line.take(name.len() as int) =~= name);
    assert(line.skip(name.len() as int + 1) =~= rest);
    assert(rest.drop_first() =~= value);
    assert(text::is_white(rest[0]));
    assert(text::trimmed_start(rest) == text::trimmed_start(value));
    assert(text::trimmed_start(value) == value);
    assert(text::trimmed_end(value) == value);
    text::law_decimal_reads_back(length, usize::MAX as nat);
}

/// A body of more than 4 MiB is refused and the connection closed; OPTIONS is answered at once; a POST to
/// the one endpoint is executed; and nothing else is found.
pub proof fn law_requests_are_routed(head: HeadView)
    ensures
        head.content_length > 4 * 1024 * 1024 ==> (routed(head) matches RouteView::Answer {
            reply,
            close,
        } && reply.status == 413 && close),
        head.content_length <= 4 * 1024 * 1024 && head.method == "OPTIONS"@ ==> (
        routed(head) matches RouteView::Answer { reply, close } && reply.status == 204 && close
            == !head.keep_alive),
        head.content_length <= 4 * 1024 * 1024 && head.method == "POST"@ && head.path
            == "/v1/execute"@ ==> routed(head) is Execute,
        head.content_length <= 4 * 1024 * 1024 && head.method != "OPTIONS"@ && !(head.method
            == "POST"@ && head.path == "/v1/execute"@) ==> (routed(head) matches RouteView::Answer {
            reply,
            close,
        } && reply.status == 404 && close == !head.keep_alive),
{
    reveal_strlit("OPTIONS");
    reveal_strlit("POST");
    assert("OPTIONS"@.len() == 7);
    assert("POST"@.len() == 4);
}

} // verus!
