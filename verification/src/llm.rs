//! The decisions of the OpenAI-compatible streaming chat client.
//!
//! Only `/chat/completions` with `stream: true` is used, so llama.cpp,
//! Ollama, vLLM, Zhipu, DeepSeek, OpenRouter and the like all work. The
//! reply is a server-sent-event stream: lines of `data: {json}`, ended by
//! `data: [DONE]`. Chunks of the body need not end at line ends, so
//! [`SseDecoder`] keeps the unfinished line until its end arrives. The
//! network side (sending, reading chunks) is the caller's.

use vstd::prelude::*;
use crate::json::{json_delta_content, lookup_delta_content};
use crate::text::{
    copy_chars, extend_chars, from_chars, matches_at, newline_stop, next_newline,
    skip_slashes_backward, skip_ws_backward, skip_ws_forward, span, strip_trailing_slashes,
    to_chars, trim, trimmed,
};

verus! {

/// What the stream reports to its caller.
#[derive(Debug)]
pub enum StreamEvent {
    /// A new piece of reply text.
    Delta(String),
    /// The reply ended normally.
    Done,
    /// The request failed (network, authentication, wrong model name, …),
    /// with a readable reason.
    Error(String),
}

/// The contents of a [`StreamEvent`].
pub enum EventView {
    Delta(Seq<char>),
    Done,
    Error(Seq<char>),
}

impl View for StreamEvent {
    type V = EventView;

    open spec fn view(&self) -> EventView {
        match self {
            StreamEvent::Delta(d) => EventView::Delta(d@),
            StreamEvent::Done => EventView::Done,
            StreamEvent::Error(e) => EventView::Error(e@),
        }
    }
}

/// The URL of the chat endpoint under `endpoint`.
pub open spec fn chat_url_of(endpoint: Seq<char>) -> Seq<char> {
    strip_trailing_slashes(endpoint) + "/chat/completions"@
}

/// The chat completions URL for an endpoint root, with no doubled `/`.
pub fn chat_url(endpoint: &str) -> (url: String)
    ensures
        url@ == chat_url_of(endpoint@),
{
    let v = to_chars(endpoint);
    let n = v.len();
    let k = skip_slashes_backward(v.as_slice(), 0, n);
    assert(v@.subrange(0, n as int) =~= v@);
    let mut url = from_chars(v.as_slice(), 0, k);
    url.append("/chat/completions");
    url
}

/// The `Authorization` header value for an API key: a bearer token when the
/// key is not blank (local services usually need none).
pub fn auth_header(api_key: &str) -> (h: Option<String>)
    ensures
        match h {
            Some(v) => trim(api_key@).len() > 0 && v@ == "Bearer "@ + trim(api_key@),
            None => trim(api_key@).len() == 0,
        },
{
    let key = trimmed(api_key);
    if key.as_str().is_empty() {
        return None;
    }
    let mut h = String::from_str("Bearer ");
    h.append(key.as_str());
    Some(h)
}

/// The error reported when the request cannot be sent.
pub fn request_error(reason: &str) -> (ev: StreamEvent)
    ensures
        ev@ == EventView::Error("请求失败："@ + reason@),
{
    let mut e = String::from_str("请求失败：");
    e.append(reason);
    StreamEvent::Error(e)
}

/// The error reported when reading the stream fails.
pub fn read_error(reason: &str) -> (ev: StreamEvent)
    ensures
        ev@ == EventView::Error("读取流失败："@ + reason@),
{
    let mut e = String::from_str("读取流失败：");
    e.append(reason);
    StreamEvent::Error(e)
}

/// The first `n` characters of `s` (all of it if shorter).
pub open spec fn first_chars(s: Seq<char>, n: nat) -> Seq<char> {
    if s.len() <= n {
        s
    } else {
        s.take(n as int)
    }
}

/// The error reported for a response whose status is not a success: the
/// status, then at most the first 300 characters of the body.
pub fn status_error(status: &str, body: &str) -> (ev: StreamEvent)
    ensures
        ev@ == EventView::Error(status@ + "："@ + first_chars(body@, 300)),
{
    let v = to_chars(body);
    let k = if v.len() <= 300 {
        v.len()
    } else {
        300
    };
    let mut e = String::from_str(status);
    e.append("：");
    e.append(from_chars(v.as_slice(), 0, k).as_str());
    assert(v@.subrange(0, k as int) =~= first_chars(body@, 300));
    StreamEvent::Error(e)
}

/// How an event is forwarded to the front end: its kind (`delta`, `done`
/// or `error`) and its text.
pub fn event_kind_and_data(ev: StreamEvent) -> (r: (String, String))
    ensures
        match ev@ {
            EventView::Delta(d) => r.0@ == "delta"@ && r.1@ == d,
            EventView::Done => r.0@ == "done"@ && r.1@ == Seq::<char>::empty(),
            EventView::Error(e) => r.0@ == "error"@ && r.1@ == e,
        },
{
    match ev {
        StreamEvent::Delta(d) => (String::from_str("delta"), d),
        StreamEvent::Done => (String::from_str("done"), String::new()),
        StreamEvent::Error(e) => (String::from_str("error"), e),
    }
}

/// The event a complete line of the stream carries: a `data:` line whose
/// trimmed payload is `[DONE]` ends the reply; one whose payload is JSON
/// with a non-empty `choices[0].delta.content` string carries that text.
/// Other lines (blank, comments, reasoning-only pieces, invalid JSON) carry
/// nothing.
pub open spec fn sse_line_event(line: Seq<char>) -> Option<EventView> {
    let l = trim(line);
    if "data:"@.is_prefix_of(l) {
        let p = trim(l.skip("data:"@.len() as int));
        if p.len() == 0 {
            None
        } else if p == "[DONE]"@ {
            Some(EventView::Done)
        } else {
            match json_delta_content(p) {
                Some(c) => if c.len() > 0 {
                    Some(EventView::Delta(c))
                } else {
                    None
                },
                None => None,
            }
        }
    } else {
        None
    }
}

/// The lines of `t` that are complete (ended by `\n`), without their `\n`.
pub open spec fn complete_lines(t: Seq<char>) -> Seq<Seq<char>>
    decreases t.len(),
{
    let n = span(t, newline_stop());
    if n >= t.len() {
        Seq::empty()
    } else {
        seq![t.take(n as int)] + complete_lines(t.skip(n + 1 as int))
    }
}

/// What follows the last `\n` of `t` (all of `t` if it has none).
pub open spec fn open_tail(t: Seq<char>) -> Seq<char>
    decreases t.len(),
{
    let n = span(t, newline_stop());
    if n >= t.len() {
        t
    } else {
        open_tail(t.skip(n + 1 as int))
    }
}

/// The events that `lines` carry, up to and including the end of the
/// reply; lines after it are ignored.
pub open spec fn events_of_lines(lines: Seq<Seq<char>>) -> Seq<EventView>
    decreases lines.len(),
{
    if lines.len() == 0 {
        Seq::empty()
    } else {
        match sse_line_event(lines[0]) {
            Some(EventView::Done) => seq![EventView::Done],
            Some(e) => seq![e] + events_of_lines(lines.drop_first()),
            None => events_of_lines(lines.drop_first()),
        }
    }
}

/// Whether one of `lines` ends the reply.
pub open spec fn ends_reply(lines: Seq<Seq<char>>) -> bool
    decreases lines.len(),
{
    lines.len() > 0 && (sse_line_event(lines[0]) == Some(EventView::Done) || ends_reply(
        lines.drop_first(),
    ))
}

/// The event carried by the complete line `v[from..to]`.
fn line_event(v: &[char], from: usize, to: usize) -> (r: Option<StreamEvent>)
    requires
        from <= to <= v@.len(),
    ensures
        match r {
            Some(ev) => sse_line_event(v@.subrange(from as int, to as int)) == Some(ev@),
            None => sse_line_event(v@.subrange(from as int, to as int)) is None,
        },
{
    let a = skip_ws_forward(v, from, to);
    let b = skip_ws_backward(v, a, to);
    let ghost l = v@.subrange(a as int, b as int);
    let prefix = to_chars("data:");
    if b - a < prefix.len() || !matches_at(v, a, prefix.as_slice()) {
        proof {
            if "data:"@.is_prefix_of(l) {
                assert(v@.subrange(a as int, a + prefix@.len()) =~= l.subrange(
                    0,
                    prefix@.len() as int,
                ));
            }
        }
        return None;
    }
    proof {
        assert(v@.subrange(a as int, a + prefix@.len()) =~= l.subrange(0, prefix@.len() as int));
    }
    let start = a + prefix.len();
    let pa = skip_ws_forward(v, start, b);
    let pb = skip_ws_backward(v, pa, b);
    assert(l.skip("data:"@.len() as int) =~= v@.subrange(start as int, b as int));
    let ghost p = v@.subrange(pa as int, pb as int);
    if pa == pb {
        return None;
    }
    let done = to_chars("[DONE]");
    if pb - pa == done.len() && matches_at(v, pa, done.as_slice()) {
        return Some(StreamEvent::Done);
    }
    proof {
        if p == "[DONE]"@ {
            assert(v@.subrange(pa as int, pa + done@.len()) =~= p);
        }
    }
    let payload = from_chars(v, pa, pb);
    match lookup_delta_content(payload.as_str()) {
        Some(c) => {
            if c.as_str().is_empty() {
                None
            } else {
                Some(StreamEvent::Delta(c))
            }
        },
        None => None,
    }
}

/// Decoder of the server-sent-event stream of a chat reply.
pub struct SseDecoder {
    /// The line being received (text after the last `\n`).
    buf: Vec<char>,
    /// Whether the reply has ended (`data: [DONE]` was seen).
    done: bool,
}

impl SseDecoder {
    /// The line being received.
    pub closed spec fn pending(&self) -> Seq<char> {
        self.buf@
    }

    /// Whether the end of the reply has been seen.
    pub closed spec fn finished(&self) -> bool {
        self.done
    }

    /// A decoder at the start of a reply.
    pub fn new() -> (d: Self)
        ensures
            d.pending() == Seq::<char>::empty(),
            !d.finished(),
    {
        SseDecoder { buf: Vec::new(), done: false }
    }

    /// Whether the end of the reply has been seen; the caller then stops
    /// reading.
    pub fn is_done(&self) -> (b: bool)
        ensures
            b == self.finished(),
    {
        self.done
    }

    /// Takes the next chunk of the body and returns the events of the lines
    /// it completes, in order, stopping at the end of the reply. After the
    /// end, chunks are ignored.
    pub fn feed(&mut self, chunk: &str) -> (events: Vec<StreamEvent>)
        ensures
            ({
                let text = old(self).pending() + chunk@;
                if old(self).finished() {
                    &&& events@.len() == 0
                    &&& final(self).finished()
                    &&& final(self).pending() == old(self).pending()
                } else {
                    &&& events@.map_values(|e: StreamEvent| e@) == events_of_lines(
                        complete_lines(text),
                    )
                    &&& final(self).finished() == ends_reply(complete_lines(text))
                    &&& !final(self).finished() ==> final(self).pending() == open_tail(text)
                }
            }),
    {
        let mut events: Vec<StreamEvent> = Vec::new();
        if self.done {
            return events;
        }
        let mut v = copy_chars(self.buf.as_slice(), 0, self.buf.len());
        let c = to_chars(chunk);
        extend_chars(&mut v, c.as_slice(), 0, c.len());
        assert(self.buf@.subrange(0, self.buf@.len() as int) =~= self.buf@);
        assert(c@.subrange(0, c@.len() as int) =~= chunk@);
        let ghost text = v@;
        let n = v.len();
        let mut pos: usize = 0;
        assert(v@.subrange(0, n as int) =~= text);
        loop
            invariant_except_break
                pos <= n == v@.len(),
                v@ == text,
                events@.map_values(|e: StreamEvent| e@) + events_of_lines(
                    complete_lines(v@.subrange(pos as int, n as int)),
                ) == events_of_lines(complete_lines(text)),
                ends_reply(complete_lines(v@.subrange(pos as int, n as int))) == ends_reply(
                    complete_lines(text),
                ),
                open_tail(v@.subrange(pos as int, n as int)) == open_tail(text),
            ensures
                pos <= n == v@.len(),
                v@ == text,
                events@.map_values(|e: StreamEvent| e@) == events_of_lines(complete_lines(text)),
                ends_reply(complete_lines(text)) ==> events@.len() > 0 && events@.last()@
                    == EventView::Done,
                !ends_reply(complete_lines(text)) ==> v@.subrange(pos as int, n as int)
                    == open_tail(text),
            decreases n - pos,
        {
            let e = next_newline(v.as_slice(), pos, n);
            let ghost s = v@.subrange(pos as int, n as int);
            let ghost before = events@;
            if e == n {
                proof {
                    assert(complete_lines(s) =~= Seq::<Seq<char>>::empty());
                    assert(before.map_values(|e: StreamEvent| e@) + Seq::<EventView>::empty()
                        =~= before.map_values(|e: StreamEvent| e@));
                }
                break ;
            }
            proof {
                let k = (e - pos) as int;
                assert(s.take(k) =~= v@.subrange(pos as int, e as int));
                assert(s.skip(k + 1) =~= v@.subrange(e + 1, n as int));
                assert(complete_lines(s) =~= seq![s.take(k)] + complete_lines(s.skip(k + 1)));
                assert((seq![s.take(k)] + complete_lines(s.skip(k + 1))).drop_first()
                    =~= complete_lines(s.skip(k + 1)));
            }
            let ghost rest = v@.subrange(e + 1, n as int);
            match line_event(v.as_slice(), pos, e) {
                Some(ev) => {
                    let is_done = match ev {
                        StreamEvent::Done => true,
                        _ => false,
                    };
                    events.push(ev);
                    assert(events@.map_values(|e: StreamEvent| e@) =~= before.map_values(
                        |e: StreamEvent| e@,
                    ).push(ev@));
                    if is_done {
                        proof {
                            assert(before.map_values(|e: StreamEvent| e@) + seq![EventView::Done]
                                =~= events@.map_values(|e: StreamEvent| e@));
                        }
                        break ;
                    }
                    proof {
                        assert(before.map_values(|e: StreamEvent| e@) + (seq![ev@]
                            + events_of_lines(complete_lines(rest))) =~= events@.map_values(
                            |e: StreamEvent| e@,
                        ) + events_of_lines(complete_lines(rest)));
                    }
                },
                None => {},
            }
            pos = e + 1;
        }
        let finished = events.len() > 0 && match events[events.len() - 1] {
            StreamEvent::Done => true,
            _ => false,
        };
        proof {
            lemma_events_end_reply(complete_lines(text));
        }
        let rest = copy_chars(v.as_slice(), pos, n);
        self.buf = rest;
        self.done = finished;
        events
    }
}

/// The events of `lines` end with the end of the reply exactly when one of
/// the lines ends it.
proof fn lemma_events_end_reply(lines: Seq<Seq<char>>)
    ensures
        ends_reply(lines) <==> (events_of_lines(lines).len() > 0 && events_of_lines(lines).last()
            == EventView::Done),
    decreases lines.len(),
{
    if lines.len() > 0 {
        lemma_events_end_reply(lines.drop_first());
        match sse_line_event(lines[0]) {
            Some(EventView::Done) => {},
            Some(e) => {
                let r = events_of_lines(lines.drop_first());
                assert((seq![e] + r).len() > 0);
                if r.len() > 0 {
                    assert((seq![e] + r).last() == r.last());
                }
            },
            None => {},
        }
    }
}

/// The text of a chunk of bytes, decoded as UTF-8 with each invalid
/// sequence replaced by U+FFFD, as `String::from_utf8_lossy` does.
pub uninterp spec fn lossy_utf8(bytes: Seq<u8>) -> Seq<char>;

/// `String::from_utf8_lossy`. Trusted: the result is what [`lossy_utf8`]
/// names for `bytes`, and std documents that valid UTF-8 is decoded as it
/// is (only invalid sequences are replaced).
#[verifier::external_body]
fn decode_lossy(bytes: &[u8]) -> (s: String)
    ensures
        s@ == lossy_utf8(bytes@),
        vstd::utf8::valid_utf8(bytes@) ==> s@ == vstd::utf8::decode_utf8(bytes@),
{
    String::from_utf8_lossy(bytes).into_owned()
}

impl SseDecoder {
    /// [`SseDecoder::feed`] for a chunk of body bytes, decoded on its own
    /// (a character split across chunks becomes replacement characters).
    pub fn feed_bytes(&mut self, chunk: &[u8]) -> (events: Vec<StreamEvent>)
        ensures
            ({
                let text = old(self).pending() + lossy_utf8(chunk@);
                if old(self).finished() {
                    &&& events@.len() == 0
                    &&& final(self).finished()
                    &&& final(self).pending() == old(self).pending()
                } else {
                    &&& events@.map_values(|e: StreamEvent| e@) == events_of_lines(
                        complete_lines(text),
                    )
                    &&& final(self).finished() == ends_reply(complete_lines(text))
                    &&& !final(self).finished() ==> final(self).pending() == open_tail(text)
                }
            }),
    {
        let text = decode_lossy(chunk);
        self.feed(text.as_str())
    }
}

/// Cutting the text anywhere does not change which lines are complete: the
/// complete lines of `a + b` are those of `a`, then those of the unfinished
/// line of `a` continued by `b`; the unfinished line is found the same way.
pub proof fn law_lines_split(a: Seq<char>, b: Seq<char>)
    ensures
        complete_lines(a + b) == complete_lines(a) + complete_lines(open_tail(a) + b),
        open_tail(a + b) == open_tail(open_tail(a) + b),
    decreases a.len(),
{
    let n = span(a, newline_stop());
    crate::text::lemma_span(a, newline_stop());
    if n >= a.len() {
        assert(Seq::<Seq<char>>::empty() + complete_lines(a + b) =~= complete_lines(a + b));
    } else {
        let s = a + b;
        assert forall|j: int| 0 <= j < n implies !newline_stop()(#[trigger] s[j]) by {
            assert(s[j] == a[j]);
        }
        assert(s[n as int] == a[n as int]);
        crate::text::lemma_span_unique(s, newline_stop(), n);
        let a2 = a.skip(n + 1 as int);
        assert(s.skip(n + 1 as int) =~= a2 + b);
        assert(s.take(n as int) =~= a.take(n as int));
        law_lines_split(a2, b);
        assert(seq![a.take(n as int)] + (complete_lines(a2) + complete_lines(open_tail(a2) + b))
            =~= (seq![a.take(n as int)] + complete_lines(a2)) + complete_lines(open_tail(a2) + b));
    }
}

/// The events of two runs of lines: those of the first, then (unless the
/// first ends the reply) those of the second.
pub proof fn lemma_events_concat(l1: Seq<Seq<char>>, l2: Seq<Seq<char>>)
    ensures
        events_of_lines(l1 + l2) == if ends_reply(l1) {
            events_of_lines(l1)
        } else {
            events_of_lines(l1) + events_of_lines(l2)
        },
    decreases l1.len(),
{
    if l1.len() == 0 {
        assert(l1 + l2 =~= l2);
        assert(Seq::<EventView>::empty() + events_of_lines(l2) =~= events_of_lines(l2));
    } else {
        assert((l1 + l2)[0] == l1[0]);
        assert((l1 + l2).drop_first() =~= l1.drop_first() + l2);
        lemma_events_concat(l1.drop_first(), l2);
        match sse_line_event(l1[0]) {
            Some(EventView::Done) => {},
            Some(e) => {
                let r1 = events_of_lines(l1.drop_first());
                let r2 = events_of_lines(l2);
                assert(seq![e] + (r1 + r2) =~= (seq![e] + r1) + r2);
            },
            None => {},
        }
    }
}

/// Chunking does not change the events: the events of `a + b` are those of
/// `a` followed, unless `a` already ended the reply, by those that `b`
/// completes after the unfinished line of `a`.
pub proof fn law_events_chunking(a: Seq<char>, b: Seq<char>)
    ensures
        events_of_lines(complete_lines(a + b)) == if ends_reply(complete_lines(a)) {
            events_of_lines(complete_lines(a))
        } else {
            events_of_lines(complete_lines(a)) + events_of_lines(
                complete_lines(open_tail(a) + b),
            )
        },
{
    law_lines_split(a, b);
    lemma_events_concat(complete_lines(a), complete_lines(open_tail(a) + b));
}

/// Whether `events` is a well-formed report of one request: pieces of
/// reply text, none of them empty, then exactly one event that ends the
/// report (`Done` or an `Error`), last.
pub open spec fn well_terminated(events: Seq<EventView>) -> bool {
    &&& events.len() > 0
    &&& !(events.last() is Delta)
    &&& forall|i: int|
        0 <= i < events.len() - 1 ==> (#[trigger] events[i] matches EventView::Delta(d) && d.len()
            > 0)
}

/// The events of a whole body `text` whose stream closed after it: the
/// events of its complete lines, and `Done` when no line ended the reply
/// (some services close the stream without `[DONE]`).
pub open spec fn body_events(text: Seq<char>) -> Seq<EventView> {
    let lines = complete_lines(text);
    if ends_reply(lines) {
        events_of_lines(lines)
    } else {
        events_of_lines(lines).push(EventView::Done)
    }
}

/// The lines end the reply when the first run of them does or the second
/// does.
proof fn lemma_ends_reply_concat(l1: Seq<Seq<char>>, l2: Seq<Seq<char>>)
    ensures
        ends_reply(l1 + l2) == (ends_reply(l1) || ends_reply(l2)),
    decreases l1.len(),
{
    if l1.len() == 0 {
        assert(l1 + l2 =~= l2);
    } else {
        assert((l1 + l2)[0] == l1[0]);
        assert((l1 + l2).drop_first() =~= l1.drop_first() + l2);
        lemma_ends_reply_concat(l1.drop_first(), l2);
    }
}

/// The events of lines are non-empty text pieces, except a `Done` that can
/// only come last.
proof fn lemma_events_shape(lines: Seq<Seq<char>>)
    ensures
        forall|i: int|
            0 <= i < events_of_lines(lines).len() ==> (#[trigger] events_of_lines(lines)[i] matches EventView::Delta(
                d,
            ) && d.len() > 0) || (events_of_lines(lines)[i] == EventView::Done && i
                == events_of_lines(lines).len() - 1),
    decreases lines.len(),
{
    if lines.len() > 0 {
        lemma_events_shape(lines.drop_first());
        let r = events_of_lines(lines.drop_first());
        match sse_line_event(lines[0]) {
            Some(EventView::Done) => {},
            Some(e) => {
                assert forall|i: int| 0 < i < (seq![e] + r).len() implies (seq![e] + r)[i] == r[i - 1] by {}
            },
            None => {},
        }
    }
}

/// A request reports exactly one ending, last, after non-empty pieces of
/// text: a body that closes reports `Done` once (from `[DONE]` or from the
/// close), and a read failure before the end reports its error once.
pub proof fn law_one_ending_last(text: Seq<char>, failure: Seq<char>)
    ensures
        well_terminated(body_events(text)),
        !ends_reply(complete_lines(text)) ==> well_terminated(
            events_of_lines(complete_lines(text)).push(EventView::Error(failure)),
        ),
{
    let lines = complete_lines(text);
    let evs = events_of_lines(lines);
    lemma_events_shape(lines);
    lemma_events_end_reply(lines);
    if ends_reply(lines) {
        assert(evs.last() == EventView::Done);
    } else {
        assert forall|i: int| 0 <= i < evs.len() implies (#[trigger] evs[i] matches EventView::Delta(d)
            && d.len() > 0) by {
            if evs[i] == EventView::Done {
                assert(i == evs.len() - 1);
            }
        }
        let t1 = evs.push(EventView::Done);
        let t2 = evs.push(EventView::Error(failure));
        assert forall|i: int| 0 <= i < t1.len() - 1 implies (#[trigger] t1[i] matches EventView::Delta(d)
            && d.len() > 0) by {
            assert(t1[i] == evs[i]);
        }
        assert forall|i: int| 0 <= i < t2.len() - 1 implies (#[trigger] t2[i] matches EventView::Delta(d)
            && d.len() > 0) by {
            assert(t2[i] == evs[i]);
        }
    }
}

impl SseDecoder {
    /// Ends the report when the body closes: `Done`, unless the reply had
    /// already ended.
    pub fn close(&mut self) -> (ev: Option<StreamEvent>)
        ensures
            match ev {
                Some(e) => !old(self).finished() && e@ == EventView::Done,
                None => old(self).finished(),
            },
            final(self).finished(),
            final(self).pending() == old(self).pending(),
    {
        if self.done {
            None
        } else {
            self.done = true;
            Some(StreamEvent::Done)
        }
    }

    /// Ends the report when reading the body fails: the read error, unless
    /// the reply had already ended.
    pub fn fail(&mut self, reason: &str) -> (ev: Option<StreamEvent>)
        ensures
            match ev {
                Some(e) => !old(self).finished() && e@ == EventView::Error("读取流失败："@ + reason@),
                None => old(self).finished(),
            },
            final(self).finished(),
            final(self).pending() == old(self).pending(),
    {
        if self.done {
            None
        } else {
            self.done = true;
            Some(read_error(reason))
        }
    }
}

/// The text of `chunks`, one after the other.
pub open spec fn chunks_text(chunks: Seq<String>) -> Seq<char> {
    chunks.map_values(|c: String| c@).flatten()
}

/// Decodes a whole body, given as the chunks it arrived in, and closes it:
/// the events are those of the body as one text, whatever the chunking.
pub fn decode_body(chunks: &Vec<String>) -> (events: Vec<StreamEvent>)
    ensures
        events@.map_values(|e: StreamEvent| e@) == body_events(chunks_text(chunks@)),
        well_terminated(body_events(chunks_text(chunks@))),
{
    let ghost all = chunks@.map_values(|c: String| c@);
    let mut d = SseDecoder::new();
    let mut events: Vec<StreamEvent> = Vec::new();
    let mut i: usize = 0;
    proof {
        assert(all.take(0).flatten() =~= Seq::<char>::empty());
        assert(complete_lines(Seq::<char>::empty()) =~= Seq::<Seq<char>>::empty()) by {
            crate::text::lemma_span(Seq::<char>::empty(), newline_stop());
        }
        assert(open_tail(Seq::<char>::empty()) =~= Seq::<char>::empty()) by {
            crate::text::lemma_span(Seq::<char>::empty(), newline_stop());
        }
    }
    while i < chunks.len()
        invariant
            i <= chunks@.len(),
            all == chunks@.map_values(|c: String| c@),
            events@.map_values(|e: StreamEvent| e@) == events_of_lines(
                complete_lines(all.take(i as int).flatten()),
            ),
            d.finished() == ends_reply(complete_lines(all.take(i as int).flatten())),
            !d.finished() ==> d.pending() == open_tail(all.take(i as int).flatten()),
        decreases chunks@.len() - i,
    {
        let ghost before = all.take(i as int).flatten();
        let ghost old_events = events@.map_values(|e: StreamEvent| e@);
        let mut more = d.feed(chunks[i].as_str());
        let ghost c = chunks@[i as int]@;
        proof {
            assert(all.take(i + 1) =~= all.take(i as int).push(c));
            all.take(i + 1).lemma_flatten_and_flatten_alt_are_equivalent();
            all.take(i as int).lemma_flatten_and_flatten_alt_are_equivalent();
            assert(all.take(i + 1).drop_last() =~= all.take(i as int));
            assert(all.take(i + 1).flatten() =~= before + c);
            law_lines_split(before, c);
            lemma_events_concat(complete_lines(before), complete_lines(open_tail(before) + c));
            lemma_ends_reply_concat(complete_lines(before), complete_lines(open_tail(before) + c));
        }
        let ghost added = more@.map_values(|e: StreamEvent| e@);
        events.append(&mut more);
        proof {
            assert(events@.map_values(|e: StreamEvent| e@) =~= old_events + added);
        }
        i = i + 1;
    }
    proof {
        assert(all.take(chunks@.len() as int) =~= all);
        law_one_ending_last(chunks_text(chunks@), Seq::<char>::empty());
    }
    let ghost pre = events@.map_values(|e: StreamEvent| e@);
    match d.close() {
        Some(e) => {
            events.push(e);
            proof {
                assert(events@.map_values(|e: StreamEvent| e@) =~= pre.push(EventView::Done));
            }
        },
        None => {},
    }
    events
}

/// The event a `data:` line carries when its payload is not `[DONE]`: the
/// delta text exactly as the server sent it (its spaces and line breaks
/// included), or nothing when the content is empty or missing.
pub open spec fn delta_of_payload(p: Seq<char>) -> Option<EventView> {
    match json_delta_content(p) {
        Some(c) => if c.len() > 0 {
            Some(EventView::Delta(c))
        } else {
            None
        },
        None => None,
    }
}

/// A `data:` line passes the delta text on unchanged: for a JSON payload
/// `p` (no whitespace at its ends, not `[DONE]`) whose
/// `choices[0].delta.content` is the non-empty string `c`, the line
/// `data: p` gives `Delta(c)` itself, so `Hello` and ` world` show as
/// `Hello world` and a delta of two line breaks is kept.
pub proof fn law_delta_text_is_passed_on(p: Seq<char>)
    requires
        trim(p) == p,
        p.len() > 0,
        p != "[DONE]"@,
    ensures
        sse_line_event("data: "@ + p) == delta_of_payload(p),
        match json_delta_content(p) {
            Some(c) => c.len() > 0 ==> sse_line_event("data: "@ + p) == Some(EventView::Delta(c)),
            None => sse_line_event("data: "@ + p) is None,
        },
{
    reveal_strlit("data: ");
    reveal_strlit("data:");
    let x = "data: "@ + p;
    let e = Seq::<char>::empty();
    crate::text::lemma_trimmed_ends(p);
    assert(x[0] == 'd');
    assert(x.last() == p.last());
    crate::text::lemma_trim_start_unique(e, x);
    assert(e + x =~= x);
    crate::text::lemma_trim_end_unique(x, e);
    assert(x + e =~= x);
    assert(trim(x) == x);
    assert(x.subrange(0, 5) =~= "data:"@);
    assert("data:"@.is_prefix_of(x));
    let rest = x.skip(5);
    assert(rest =~= seq![' '] + p);
    assert(crate::text::all_ws(seq![' ']));
    crate::text::lemma_trim_start_unique(seq![' '], p);
    crate::text::lemma_trim_end_unique(p, e);
    assert(p + e =~= p);
    assert(trim(rest) == p);
}

/// A fresh decoder fed one such line, ended by a line feed, reports exactly
/// the delta text of its payload (what [`SseDecoder::feed`] returns for
/// this chunk).
pub proof fn law_one_line_one_delta(p: Seq<char>)
    requires
        trim(p) == p,
        p.len() > 0,
        p != "[DONE]"@,
        forall|i: int| 0 <= i < p.len() ==> p[i] != '\n',
    ensures
        events_of_lines(complete_lines("data: "@ + p + seq!['\n'])) == match delta_of_payload(p) {
            Some(ev) => seq![ev],
            None => Seq::<EventView>::empty(),
        },
{
    reveal_strlit("data: ");
    law_delta_text_is_passed_on(p);
    let x = "data: "@ + p;
    let t = x + seq!['\n'];
    assert forall|j: int| 0 <= j < x.len() implies !newline_stop()(#[trigger] t[j]) by {
        if j >= 6 {
            assert(t[j] == p[j - 6]);
        }
    }
    crate::text::lemma_span_unique(t, newline_stop(), x.len());
    assert(t.take(x.len() as int) =~= x);
    let tail = t.skip(x.len() + 1 as int);
    assert(tail =~= Seq::<char>::empty());
    assert(complete_lines(tail) =~= Seq::<Seq<char>>::empty());
    assert(complete_lines(t) =~= seq![x]);
    assert(seq![x].drop_first() =~= Seq::<Seq<char>>::empty());
    assert(events_of_lines(Seq::<Seq<char>>::empty()) =~= Seq::<EventView>::empty());
    match delta_of_payload(p) {
        Some(ev) => {
            assert(seq![ev] + Seq::<EventView>::empty() =~= seq![ev]);
        },
        None => {},
    }
}

/// `data: [DONE]` ends the reply: it reports `Done`, and nothing on the
/// lines after it is reported.
pub proof fn law_done_ends_the_reply(rest: Seq<Seq<char>>)
    ensures
        sse_line_event("data: [DONE]"@) == Some(EventView::Done),
        events_of_lines(seq!["data: [DONE]"@] + rest) == seq![EventView::Done],
{
    reveal_strlit("data: [DONE]");
    reveal_strlit("data:");
    reveal_strlit("[DONE]");
    let x = "data: [DONE]"@;
    let e = Seq::<char>::empty();
    crate::text::lemma_trim_start_unique(e, x);
    assert(e + x =~= x);
    crate::text::lemma_trim_end_unique(x, e);
    assert(x + e =~= x);
    assert(x.subrange(0, 5) =~= "data:"@);
    let d = "[DONE]"@;
    assert(x.skip(5) =~= seq![' '] + d);
    assert(crate::text::all_ws(seq![' ']));
    crate::text::lemma_trim_start_unique(seq![' '], d);
    crate::text::lemma_trim_end_unique(d, e);
    assert(d + e =~= d);
    assert((seq![x] + rest)[0] == x);
}

} // verus!
