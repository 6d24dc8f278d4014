//! What the wiki sends to Gemini and how it reads the answers: the request
//! bodies, the prompts, the reading of a reply, of a streamed reply and of
//! a category, and the messages shown for refused requests.  The HTTP
//! exchange itself is the caller's.
use vstd::prelude::*;

use base64::Engine;

use crate::text::{
    chars_of, extend, find, find_chars_from, has_prefix, has_suffix, join, lines, nl, slice_chars,
    starts_with, string_of, strip_prefix, strip_suffix, trim, trim_by, trim_chars, trim_end_by,
    trim_end_chars, trim_start_by, trim_start_chars, fields, fields_of, join_chars, views,
    decimal, decimal_chars, str_lowercase, to_lowercase, in_class, CharClass, all_ascii, all_chars,
    ascii_lower, is_ascii_lower_char,
};

verus! {

// ── Models and endpoints ──────────────────────────────────────────────────

pub const MODEL: &'static str = "gemini-2.5-pro";

/// The lighter model that a key check uses.
pub const TEST_MODEL: &'static str = "gemini-2.5-flash";

pub const API_BASE: &'static str = "https://generativelanguage.googleapis.com/v1beta/models";

/// Seconds one HTTP request may take, streaming included.
pub const REQUEST_TIMEOUT_SECS: u64 = 180;

/// How many body characters a classification sends.
pub const BODY_EXCERPT_CHARS: usize = 2000;

/// The largest PDF that goes inline, in bytes.
pub const MAX_INLINE_BYTES: usize = 20971520;

/// `{API_BASE}/{model}:generateContent?key={key}`.
pub open spec fn generate_url_text(model: Seq<char>, key: Seq<char>) -> Seq<char> {
    API_BASE@ + "/"@ + model + ":generateContent?key="@ + key
}

pub fn generate_url(model: &str, key: &str) -> (r: String)
    ensures
        r@ == generate_url_text(model@, key@),
{
    let mut v = chars_of(API_BASE);
    let slash = chars_of("/");
    extend(&mut v, slash.as_slice());
    let m = chars_of(model);
    extend(&mut v, m.as_slice());
    let mid = chars_of(":generateContent?key=");
    extend(&mut v, mid.as_slice());
    let k = chars_of(key);
    extend(&mut v, k.as_slice());
    string_of(v.as_slice())
}

/// `{API_BASE}/{MODEL}:streamGenerateContent?key={key}&alt=sse`.
pub open spec fn stream_url_text(key: Seq<char>) -> Seq<char> {
    API_BASE@ + "/"@ + MODEL@ + ":streamGenerateContent?key="@ + key + "&alt=sse"@
}

pub fn stream_url(key: &str) -> (r: String)
    ensures
        r@ == stream_url_text(key@),
{
    let mut v = chars_of(API_BASE);
    let slash = chars_of("/");
    extend(&mut v, slash.as_slice());
    let m = chars_of(MODEL);
    extend(&mut v, m.as_slice());
    let mid = chars_of(":streamGenerateContent?key=");
    extend(&mut v, mid.as_slice());
    let k = chars_of(key);
    extend(&mut v, k.as_slice());
    let tail = chars_of("&alt=sse");
    extend(&mut v, tail.as_slice());
    string_of(v.as_slice())
}

// ── Wire types ────────────────────────────────────────────────────────────

/// One conversation turn.
#[derive(Debug, Clone)]
pub struct Message {
    /// `"user"` or `"model"`.
    pub role: String,
    pub text: String,
}

#[derive(Debug)]
pub struct GeminiContent {
    pub role: String,
    pub parts: Vec<GeminiPart>,
}

/// A part of a request: text, or inline binary data.
#[derive(Debug)]
pub struct GeminiPart {
    pub text: Option<String>,
    pub inline_data: Option<InlineData>,
}

#[derive(Debug)]
pub struct InlineData {
    pub mime_type: String,
    pub data: String,
}

#[derive(Debug)]
pub struct GeminiRequest {
    pub contents: Vec<GeminiContent>,
}

/// A reply that is not streamed.
#[derive(Debug)]
pub struct GeminiResponse {
    pub candidates: Vec<NsCandidate>,
}

#[derive(Debug)]
pub struct NsCandidate {
    pub content: NsContent,
}

#[derive(Debug)]
pub struct NsContent {
    pub parts: Vec<NsPart>,
}

#[derive(Debug)]
pub struct NsPart {
    pub text: String,
}

/// One event of a streamed reply; every field may be missing.
#[derive(Debug)]
pub struct SseChunk {
    pub candidates: Option<Vec<SseCandidate>>,
}

#[derive(Debug)]
pub struct SseCandidate {
    pub content: Option<NsContent>,
}

pub open spec fn opt_string(o: Option<String>) -> Option<Seq<char>> {
    match o {
        Some(s) => Some(s@),
        None => None,
    }
}

/// The base64 digit of value `v` (0 to 63): `A`-`Z`, `a`-`z`, `0`-`9`,
/// `+`, `/`.
pub open spec fn base64_digit(v: int) -> char {
    if v < 26 {
        ('A' as int + v) as char
    } else if v < 52 {
        ('a' as int + (v - 26)) as char
    } else if v < 62 {
        ('0' as int + (v - 52)) as char
    } else if v == 62 {
        '+'
    } else {
        '/'
    }
}

/// Standard base64 with `=` padding: each group of three bytes, read as a
/// 24-bit number `n`, becomes the digits of `n` in base 64, most
/// significant first; a last group of one or two bytes is filled up with
/// zero bytes and gives two or three digits followed by `==` or `=`.
pub open spec fn base64_standard(bytes: Seq<u8>) -> Seq<char>
    decreases bytes.len(),
{
    let n = bytes[0] * 65536 + (if bytes.len() > 1 { bytes[1] * 256 } else { 0 }) + (if bytes.len()
        > 2 {
        bytes[2] as int
    } else {
        0
    });
    let d0 = base64_digit(n / 262144);
    let d1 = base64_digit((n / 4096) % 64);
    let d2 = base64_digit((n / 64) % 64);
    let d3 = base64_digit(n % 64);
    if bytes.len() == 0 {
        seq![]
    } else if bytes.len() == 1 {
        seq![d0, d1, '=', '=']
    } else if bytes.len() == 2 {
        seq![d0, d1, d2, '=']
    } else {
        seq![d0, d1, d2, d3] + base64_standard(bytes.skip(3))
    }
}

/// `base64::engine::general_purpose::STANDARD.encode`: the standard
/// alphabet with padding, as `base64_standard` states it.
#[verifier::external_body]
fn base64_encode(bytes: &[u8]) -> (r: String)
    ensures
        r@ == base64_standard(bytes@),
{
    base64::engine::general_purpose::STANDARD.encode(bytes)
}

impl GeminiPart {
    /// A text part.
    pub fn text(s: String) -> (p: GeminiPart)
        ensures
            opt_string(p.text) == Some(s@),
            p.inline_data is None,
    {
        GeminiPart { text: Some(s), inline_data: None }
    }

    /// A PDF, inline and base64-encoded.
    pub fn pdf(bytes: &[u8]) -> (p: GeminiPart)
        ensures
            p.text is None,
            p.inline_data is Some,
            p.inline_data->0.mime_type@ == "application/pdf"@,
            p.inline_data->0.data@ == base64_standard(bytes@),
    {
        GeminiPart {
            text: None,
            inline_data: Some(
                InlineData { mime_type: "application/pdf".to_owned(), data: base64_encode(bytes) },
            ),
        }
    }
}

/// The content holds `m`: its role, and its text as the one part.
pub open spec fn content_of(c: GeminiContent, m: Message) -> bool {
    &&& c.role@ == m.role@
    &&& c.parts@.len() == 1
    &&& opt_string(c.parts@[0].text) == Some(m.text@)
    &&& c.parts@[0].inline_data is None
}

/// The request contents for a conversation, turn by turn.
pub fn to_gemini_contents(messages: Vec<Message>) -> (r: Vec<GeminiContent>)
    ensures
        r@.len() == messages@.len(),
        forall|i: int| 0 <= i < r@.len() ==> content_of(#[trigger] r@[i], messages@[i]),
{
    let mut r: Vec<GeminiContent> = Vec::new();
    let mut i: usize = 0;
    while i < messages.len()
        invariant
            i <= messages.len(),
            r@.len() == i,
            forall|j: int| 0 <= j < i ==> content_of(#[trigger] r@[j], messages@[j]),
        decreases messages.len() - i,
    {
        let m = &messages[i];
        let mut parts: Vec<GeminiPart> = Vec::new();
        parts.push(GeminiPart::text(m.text.clone()));
        r.push(GeminiContent { role: m.role.clone(), parts });
        i += 1;
    }
    r
}

/// A request of one user turn with one text part.
pub fn text_request(prompt: String) -> (r: GeminiRequest)
    ensures
        r.contents@.len() == 1,
        r.contents@[0].role@ == "user"@,
        r.contents@[0].parts@.len() == 1,
        opt_string(r.contents@[0].parts@[0].text) == Some(prompt@),
        r.contents@[0].parts@[0].inline_data is None,
{
    let mut parts: Vec<GeminiPart> = Vec::new();
    parts.push(GeminiPart::text(prompt));
    let mut contents: Vec<GeminiContent> = Vec::new();
    contents.push(GeminiContent { role: "user".to_owned(), parts });
    GeminiRequest { contents }
}

/// The text that a key check sends.
pub const PROBE_PROMPT: &'static str = "Reply with exactly one word: ok";

// ── Reading replies ───────────────────────────────────────────────────────

/// The text of the first part of the first candidate, if there is one.
pub open spec fn first_text(resp: GeminiResponse) -> Option<Seq<char>> {
    if resp.candidates@.len() > 0 && resp.candidates@[0].content.parts@.len() > 0 {
        Some(resp.candidates@[0].content.parts@[0].text@)
    } else {
        None
    }
}

pub fn extract_ns_text(resp: &GeminiResponse) -> (r: Option<String>)
    ensures
        opt_string(r) == first_text(*resp),
{
    if resp.candidates.len() == 0 {
        return None;
    }
    let c = &resp.candidates[0];
    if c.content.parts.len() == 0 {
        return None;
    }
    Some(c.content.parts[0].text.clone())
}

/// The text of a streamed event: the first part of the first candidate's
/// content, when all of them are there.
pub open spec fn chunk_text(chunk: SseChunk) -> Option<Seq<char>> {
    match chunk.candidates {
        Some(cs) => if cs@.len() > 0 {
            match cs@[0].content {
                Some(c) => if c.parts@.len() > 0 {
                    Some(c.parts@[0].text@)
                } else {
                    None
                },
                None => None,
            }
        } else {
            None
        },
        None => None,
    }
}

pub fn sse_chunk_text(chunk: &SseChunk) -> (r: Option<String>)
    ensures
        opt_string(r) == chunk_text(*chunk),
{
    match &chunk.candidates {
        Some(cs) => {
            if cs.len() == 0 {
                return None;
            }
            match &cs[0].content {
                Some(c) => {
                    if c.parts.len() == 0 {
                        None
                    } else {
                        Some(c.parts[0].text.clone())
                    }
                },
                None => None,
            }
        },
        None => None,
    }
}

/// The JSON of an event line: a trimmed line that starts with `data: `,
/// unless what follows is the `[DONE]` sentinel.
pub open spec fn sse_payload(line: Seq<char>) -> Option<Seq<char>> {
    match strip_prefix(trim(line), "data: "@) {
        Some(j) => if j == "[DONE]"@ {
            None
        } else {
            Some(j)
        },
        None => None,
    }
}

/// The payloads of the complete lines of a stream buffer, and what is left
/// after the last `\n`.
pub open spec fn drain_sse(buf: Seq<char>) -> (Seq<Seq<char>>, Seq<char>)
    decreases buf.len(),
{
    match find(buf, nl()) {
        Some(i) => {
            proof {
                crate::text::lemma_find_from(buf, nl(), 0);
            }
            let rest = drain_sse(buf.skip(i + 1));
            (
                match sse_payload(buf.take(i)) {
                    Some(p) => seq![p] + rest.0,
                    None => rest.0,
                },
                rest.1,
            )
        },
        None => (seq![], buf),
    }
}

pub open spec fn string_views(v: Seq<String>) -> Seq<Seq<char>> {
    v.map_values(|x: String| x@)
}

/// Takes the complete lines off a stream buffer: the event payloads they
/// hold, and the rest of the buffer.
pub fn drain_sse_lines(buf: &str) -> (r: (Vec<String>, String))
    ensures
        string_views(r.0@) == drain_sse(buf@).0,
        r.1@ == drain_sse(buf@).1,
{
    let s = chars_of(buf);
    let nl_pat: [char; 1] = ['\n'];
    assert(nl_pat@ =~= nl());
    let data = chars_of("data: ");
    let done = chars_of("[DONE]");
    let mut out: Vec<String> = Vec::new();
    let mut pos: usize = 0;
    assert(s@.skip(0) =~= s@);
    loop
        invariant
            pos <= s.len(),
            s@ == buf@,
            nl_pat@ == nl(),
            data@ == "data: "@,
            done@ == "[DONE]"@,
            drain_sse(buf@).0 == string_views(out@) + drain_sse(s@.skip(pos as int)).0,
            drain_sse(buf@).1 == drain_sse(s@.skip(pos as int)).1,
        decreases s.len() - pos,
    {
        let ghost rest = s@.skip(pos as int);
        proof {
            crate::text::lemma_find_from_skip(s@, nl(), pos as int, 0);
            crate::text::lemma_find_from(s@, nl(), pos as int);
        }
        match find_chars_from(s.as_slice(), nl_pat.as_slice(), pos) {
            Some(i) => {
                let line = slice_chars(s.as_slice(), pos, i);
                proof {
                    assert(rest.take(i - pos) =~= line@);
                    assert(rest.skip(i - pos + 1) =~= s@.skip(i + 1));
                }
                let t = trim_chars(line.as_slice(), CharClass::Whitespace);
                if has_prefix(t.as_slice(), data.as_slice()) {
                    let j = slice_chars(t.as_slice(), data.len(), t.len());
                    assert(j@ =~= t@.skip(data@.len() as int));
                    if !crate::text::chars_eq(j.as_slice(), done.as_slice()) {
                        let ghost prev = out@;
                        out.push(string_of(j.as_slice()));
                        assert(string_views(out@) =~= string_views(prev) + seq![j@]);
                    }
                }
                pos = i + 1;
            },
            None => {
                let r = slice_chars(s.as_slice(), pos, s.len());
                assert(r@ =~= rest);
                assert(string_views(out@) + Seq::<Seq<char>>::empty() =~= string_views(out@));
                return (out, string_of(r.as_slice()));
            },
        }
    }
}

// ── Reading the answer stream ─────────────────────────────────────────────

/// What happens next while asking for a streamed answer: the key, the
/// request or its status failed, a piece of text came, reading failed, or
/// the stream ended.
#[derive(Debug)]
pub enum StreamEvent {
    KeyFailed(String),
    SendFailed(String),
    StatusFailed(String),
    Chunk(String),
    ReadError(String),
    End,
}

/// What to do about it: hand the event payloads on, report the error and
/// stop, or report the stream complete.
#[derive(Debug)]
pub enum StreamStep {
    Payloads(Vec<String>),
    Failed(String),
    Done,
}

/// An answer stream being read: the text of the line not yet complete, and
/// whether the stream is over.
#[derive(Debug)]
pub struct SseStream {
    pub buf: String,
    pub over: bool,
}

/// The error reported for a failure event: `Keychain error: `, `Network
/// error: `, `Gemini API error: ` or `Stream read error: `, then the
/// failure's text.
pub open spec fn stream_error_text(e: StreamEvent) -> Option<Seq<char>> {
    match e {
        StreamEvent::KeyFailed(m) => Some("Keychain error: "@ + m@),
        StreamEvent::SendFailed(m) => Some("Network error: "@ + m@),
        StreamEvent::StatusFailed(m) => Some("Gemini API error: "@ + m@),
        StreamEvent::ReadError(m) => Some("Stream read error: "@ + m@),
        _ => None,
    }
}

/// How the stream takes an event, from `o` to `n`: a chunk is added to the
/// buffer and the payloads of the lines it completes are handed on; a
/// failure is reported with its error text and ends the stream, as does
/// the end.
pub open spec fn feeds(o: SseStream, e: StreamEvent, n: SseStream, r: StreamStep) -> bool {
    match e {
        StreamEvent::Chunk(c) => {
            &&& r matches StreamStep::Payloads(ps) && string_views(ps@) == drain_sse(o.buf@ + c@).0
            &&& n.buf@ == drain_sse(o.buf@ + c@).1
            &&& !n.over
        },
        StreamEvent::End => r is Done && n.over,
        _ => {
            &&& r matches StreamStep::Failed(t) && Some(t@) == stream_error_text(e)
            &&& n.over
        },
    }
}

fn prefixed(prefix: &str, m: &str) -> (r: String)
    ensures
        r@ == prefix@ + m@,
{
    let mut v = chars_of(prefix);
    let mv = chars_of(m);
    extend(&mut v, mv.as_slice());
    string_of(v.as_slice())
}

impl SseStream {
    /// A stream with nothing read yet.
    pub fn new() -> (r: Self)
        ensures
            r.buf@ == Seq::<char>::empty(),
            !r.over,
    {
        SseStream { buf: String::new(), over: false }
    }

    /// Takes the next event, as `feeds` says.
    pub fn feed(&mut self, e: StreamEvent) -> (r: StreamStep)
        requires
            !old(self).over,
        ensures
            feeds(*old(self), e, *final(self), r),
    {
        match e {
            StreamEvent::Chunk(c) => {
                let mut v = chars_of(self.buf.as_str());
                let cv = chars_of(c.as_str());
                extend(&mut v, cv.as_slice());
                let joined = string_of(v.as_slice());
                let (ps, rest) = drain_sse_lines(joined.as_str());
                self.buf = rest;
                StreamStep::Payloads(ps)
            },
            StreamEvent::KeyFailed(m) => {
                self.over = true;
                StreamStep::Failed(prefixed("Keychain error: ", m.as_str()))
            },
            StreamEvent::SendFailed(m) => {
                self.over = true;
                StreamStep::Failed(prefixed("Network error: ", m.as_str()))
            },
            StreamEvent::StatusFailed(m) => {
                self.over = true;
                StreamStep::Failed(prefixed("Gemini API error: ", m.as_str()))
            },
            StreamEvent::ReadError(m) => {
                self.over = true;
                StreamStep::Failed(prefixed("Stream read error: ", m.as_str()))
            },
            StreamEvent::End => {
                self.over = true;
                StreamStep::Done
            },
        }
    }
}

/// `states[i]` takes `events[i]`, stepping with `steps[i]` to
/// `states[i + 1]`, from a fresh stream on: what `SseStream::new` followed
/// by calls of `feed` produces.
pub open spec fn is_stream(states: Seq<SseStream>, events: Seq<StreamEvent>, steps: Seq<StreamStep>) -> bool {
    &&& states.len() == events.len() + 1
    &&& steps.len() == events.len()
    &&& states[0].buf@ == Seq::<char>::empty()
    &&& !states[0].over
    &&& forall|i: int|
        0 <= i < events.len() ==> !(#[trigger] states[i]).over && feeds(
            states[i],
            events[i],
            states[i + 1],
            steps[i],
        )
}

/// The text of the chunk events, in order.
pub open spec fn chunks_text(events: Seq<StreamEvent>) -> Seq<char>
    decreases events.len(),
{
    if events.len() == 0 {
        seq![]
    } else {
        chunks_text(events.drop_last()) + match events.last() {
            StreamEvent::Chunk(c) => c@,
            _ => Seq::<char>::empty(),
        }
    }
}

/// The payloads handed on, in order.
pub open spec fn payloads_of(steps: Seq<StreamStep>) -> Seq<Seq<char>>
    decreases steps.len(),
{
    if steps.len() == 0 {
        seq![]
    } else {
        payloads_of(steps.drop_last()) + match steps.last() {
            StreamStep::Payloads(ps) => string_views(ps@),
            _ => Seq::<Seq<char>>::empty(),
        }
    }
}

proof fn lemma_stream_prefix(states: Seq<SseStream>, events: Seq<StreamEvent>, steps: Seq<StreamStep>, k: int)
    requires
        is_stream(states, events, steps),
        0 <= k <= events.len(),
        forall|i: int| 0 <= i < k ==> (#[trigger] events[i]) is Chunk,
    ensures
        payloads_of(steps.take(k)) == drain_sse(chunks_text(events.take(k))).0,
        states[k].buf@ == drain_sse(chunks_text(events.take(k))).1,
    decreases k,
{
    if k == 0 {
        assert(steps.take(0) =~= Seq::<StreamStep>::empty());
        assert(events.take(0) =~= Seq::<StreamEvent>::empty());
        assert(drain_sse(Seq::<char>::empty()).0 =~= Seq::<Seq<char>>::empty()) by {
            reveal_with_fuel(drain_sse, 2);
            crate::text::lemma_find_from(Seq::<char>::empty(), nl(), 0);
        }
    } else {
        let j = k - 1;
        lemma_stream_prefix(states, events, steps, j);
        assert(!states[j].over);
        assert(events[j] is Chunk);
        let c = events[j]->Chunk_0@;
        let before = chunks_text(events.take(j));
        assert(events.take(k).drop_last() =~= events.take(j));
        assert(steps.take(k).drop_last() =~= steps.take(j));
        assert(chunks_text(events.take(k)) == before + c);
        lemma_drain_split(before, c);
    }
}

/// Law: a stream reports at most one end, and nothing after it: every step
/// before the last hands payloads on.  While only chunks came, the payloads
/// handed on are those of all the text read so far, however it was split
/// into chunks, and the buffer holds the rest.
pub proof fn lemma_stream_run(states: Seq<SseStream>, events: Seq<StreamEvent>, steps: Seq<StreamStep>)
    requires
        is_stream(states, events, steps),
    ensures
        forall|i: int| 0 <= i < steps.len() - 1 ==> (#[trigger] steps[i]) is Payloads,
        (forall|i: int| 0 <= i < events.len() ==> (#[trigger] events[i]) is Chunk) ==> payloads_of(steps)
            == drain_sse(chunks_text(events)).0 && states.last().buf@ == drain_sse(
            chunks_text(events),
        ).1,
{
    assert forall|i: int| 0 <= i < steps.len() - 1 implies (#[trigger] steps[i]) is Payloads by {
        assert(!states[i + 1].over);
        assert(feeds(states[i], events[i], states[i + 1], steps[i]));
    }
    if forall|i: int| 0 <= i < events.len() ==> (#[trigger] events[i]) is Chunk {
        lemma_stream_prefix(states, events, steps, events.len() as int);
        assert(events.take(events.len() as int) =~= events);
        assert(steps.take(steps.len() as int) =~= steps);
    }
}

/// The first `\n` of `a` is the first of `a + b`.
proof fn lemma_find_nl_extend(a: Seq<char>, b: Seq<char>, i: int)
    requires
        find(a, nl()) == Some(i),
    ensures
        find(a + b, nl()) == Some(i),
{
    crate::text::lemma_find_from(a, nl(), 0);
    crate::text::lemma_find_from(a + b, nl(), 0);
    assert((a + b).subrange(i, i + 1) =~= a.subrange(i, i + 1));
    assert(crate::text::occurs_at(a + b, nl(), i));
    match find(a + b, nl()) {
        Some(j) => {
            if j < i {
                assert((a + b).subrange(j, j + 1) =~= a.subrange(j, j + 1));
                assert(crate::text::occurs_at(a, nl(), j));
            }
        },
        None => {},
    }
}

/// Law: a stream read in two pieces gives the events it gives read whole.
/// Draining `a`, then draining what was left of it followed by `b`, yields
/// the payloads of `a + b` in order and leaves the same rest, so an event
/// line split across two network reads is still read once and whole.
pub proof fn lemma_drain_split(a: Seq<char>, b: Seq<char>)
    ensures
        drain_sse(a).0 + drain_sse(drain_sse(a).1 + b).0 == drain_sse(a + b).0,
        drain_sse(drain_sse(a).1 + b).1 == drain_sse(a + b).1,
    decreases a.len(),
{
    crate::text::lemma_find_from(a, nl(), 0);
    match find(a, nl()) {
        Some(i) => {
            lemma_find_nl_extend(a, b, i);
            let t = a.skip(i + 1);
            lemma_drain_split(t, b);
            assert((a + b).take(i) =~= a.take(i));
            assert((a + b).skip(i + 1) =~= t + b);
            assert(drain_sse(a).1 == drain_sse(t).1);
            let p = drain_sse(t).0;
            let q = drain_sse(drain_sse(t).1 + b).0;
            match sse_payload(a.take(i)) {
                Some(x) => {
                    assert(seq![x] + p + q =~= seq![x] + (p + q));
                },
                None => {},
            }
        },
        None => {
            assert(drain_sse(a).0 =~= Seq::<Seq<char>>::empty());
            assert(drain_sse(a).0 + drain_sse(a + b).0 =~= drain_sse(a + b).0);
        },
    }
}

// ── Categories ────────────────────────────────────────────────────────────

/// A category as the model's answer gives it: trimmed, stripped of
/// wrapping quotes, backticks and dots, lower-cased, split at whitespace,
/// `_`, `/` and `\`, and the non-empty words joined with `-`.
pub open spec fn category_text(raw: Seq<char>) -> Seq<char> {
    join(
        fields(
            str_lowercase(trim_by(trim(raw), CharClass::CategoryWrap)),
            CharClass::CategorySep,
            CharClass::CategoryWord,
        ),
        seq!['-'],
    )
}

/// The category of an ASCII answer, whose lower-casing is ASCII's.
pub open spec fn category_ascii(raw: Seq<char>) -> Seq<char> {
    join(
        fields(
            ascii_lower(trim_by(trim(raw), CharClass::CategoryWrap)),
            CharClass::CategorySep,
            CharClass::CategoryWord,
        ),
        seq!['-'],
    )
}

/// Normalises the model's free-form category into kebab-case.
pub fn normalise_category(raw: &str) -> (r: String)
    ensures
        r@ == category_text(raw@),
        all_ascii(raw@) ==> r@ == category_ascii(raw@),
{
    let v = chars_of(raw);
    let a = trim_chars(v.as_slice(), CharClass::Whitespace);
    let b = trim_chars(a.as_slice(), CharClass::CategoryWrap);
    let bs = string_of(b.as_slice());
    proof {
        if all_ascii(raw@) {
            let asc = |c: char| crate::text::is_ascii_char(c);
            crate::text::lemma_trim_by_chars(raw@, CharClass::Whitespace, asc);
            crate::text::lemma_trim_by_chars(trim(raw@), CharClass::CategoryWrap, asc);
        }
    }
    let lower = to_lowercase(bs.as_str());
    category_of_lowercase(lower.as_str())
}

/// The category of an already trimmed and lower-cased answer: its words,
/// split at whitespace, `_`, `/` and `\`, joined with `-`.
pub fn category_of_lowercase(lower: &str) -> (r: String)
    ensures
        r@ == join(fields(lower@, CharClass::CategorySep, CharClass::CategoryWord), seq!['-']),
{
    let l = chars_of(lower);
    let ws = fields_of(l.as_slice(), CharClass::CategorySep, CharClass::CategoryWord);
    let dash: [char; 1] = ['-'];
    assert(dash@ =~= seq!['-']);
    let j = join_chars(&ws, dash.as_slice());
    string_of(j.as_slice())
}

/// No separator survives normalisation: a category holds no whitespace,
/// `_`, `/` or `\`.
pub proof fn lemma_category_has_no_separator(raw: Seq<char>)
    ensures
        forall|i: int|
            0 <= i < category_text(raw).len() ==> !in_class(
                CharClass::CategorySep,
                #[trigger] category_text(raw)[i],
            ),
{
    let s = str_lowercase(trim_by(trim(raw), CharClass::CategoryWrap));
    crate::text::lemma_fields_word(s, CharClass::CategorySep, CharClass::CategoryWord);
    lemma_join_dashed(fields(s, CharClass::CategorySep, CharClass::CategoryWord));
}

/// A text of separators only has no fields.
proof fn lemma_fields_of_separators(s: Seq<char>)
    requires
        all_chars(s, |c: char| in_class(CharClass::CategorySep, c)),
    ensures
        fields(s, CharClass::CategorySep, CharClass::CategoryWord) == Seq::<Seq<char>>::empty(),
    decreases s.len(),
{
    if s.len() > 0 {
        let t = s.drop_first();
        assert(in_class(CharClass::CategorySep, s[0]));
        assert forall|i: int| 0 <= i < t.len() implies in_class(CharClass::CategorySep, #[trigger] t[i]) by {
            assert(t[i] == s[i + 1]);
        }
        lemma_fields_of_separators(t);
    }
}

/// Law: the category of an ASCII answer is lower-case: it holds only ASCII
/// characters, none of them `A` to `Z`, so lower-casing it again changes
/// nothing; it holds no separator; and an answer of separators only gives
/// the empty category.
pub proof fn lemma_category_lowercase(raw: Seq<char>)
    requires
        all_ascii(raw),
    ensures
        all_chars(category_ascii(raw), |c: char| is_ascii_lower_char(c)),
        all_ascii(category_ascii(raw)),
        ascii_lower(category_ascii(raw)) == category_ascii(raw),
        forall|i: int|
            0 <= i < category_ascii(raw).len() ==> !in_class(
                CharClass::CategorySep,
                #[trigger] category_ascii(raw)[i],
            ),
        all_chars(raw, |c: char| in_class(CharClass::CategorySep, c)) ==> category_ascii(raw)
            == Seq::<char>::empty(),
{
    let lo = |c: char| is_ascii_lower_char(c);
    let asc = |c: char| crate::text::is_ascii_char(c);
    let t = trim_by(trim(raw), CharClass::CategoryWrap);
    crate::text::lemma_trim_by_chars(raw, CharClass::Whitespace, asc);
    crate::text::lemma_trim_by_chars(trim(raw), CharClass::CategoryWrap, asc);
    crate::text::lemma_ascii_lower_is_lower(t);
    let l = ascii_lower(t);
    crate::text::lemma_fields_chars(l, CharClass::CategorySep, CharClass::CategoryWord, lo);
    crate::text::lemma_join_chars(
        fields(l, CharClass::CategorySep, CharClass::CategoryWord),
        seq!['-'],
        lo,
    );
    let c = category_ascii(raw);
    assert(all_ascii(c)) by {
        assert forall|i: int| 0 <= i < c.len() implies asc(#[trigger] c[i]) by {
            assert(lo(c[i]));
        }
    }
    crate::text::lemma_ascii_lower_fixed(c);
    crate::text::lemma_fields_word(l, CharClass::CategorySep, CharClass::CategoryWord);
    lemma_join_dashed(fields(l, CharClass::CategorySep, CharClass::CategoryWord));
    if all_chars(raw, |c: char| in_class(CharClass::CategorySep, c)) {
        let sp = |c: char| in_class(CharClass::CategorySep, c);
        crate::text::lemma_trim_by_chars(raw, CharClass::Whitespace, sp);
        crate::text::lemma_trim_by_chars(trim(raw), CharClass::CategoryWrap, sp);
        assert(all_chars(t, |c: char| !crate::text::is_ascii_upper(c))) by {
            assert forall|i: int| 0 <= i < t.len() implies !crate::text::is_ascii_upper(#[trigger] t[i]) by {
                assert(sp(t[i]));
            }
        }
        crate::text::lemma_ascii_lower_fixed(t);
        lemma_fields_of_separators(t);
    }
}

proof fn lemma_join_dashed(ws: Seq<Seq<char>>)
    requires
        forall|j: int, k: int|
            0 <= j < ws.len() && 0 <= k < ws[j].len() ==> in_class(
                CharClass::CategoryWord,
                #[trigger] ws[j][k],
            ),
    ensures
        forall|i: int|
            0 <= i < join(ws, seq!['-']).len() ==> !in_class(
                CharClass::CategorySep,
                #[trigger] join(ws, seq!['-'])[i],
            ),
    decreases ws.len(),
{
    if ws.len() > 1 {
        let rest = ws.drop_first();
        assert forall|j: int, k: int|
            0 <= j < rest.len() && 0 <= k < rest[j].len() implies in_class(
            CharClass::CategoryWord,
            #[trigger] rest[j][k],
        ) by {
            assert(rest[j] == ws[j + 1]);
        }
        lemma_join_dashed(rest);
        let jn = join(ws, seq!['-']);
        let w0 = ws[0];
        assert forall|i: int| 0 <= i < jn.len() implies !in_class(CharClass::CategorySep, #[trigger] jn[i]) by {
            if i < w0.len() {
                assert(jn[i] == w0[i]);
                assert(in_class(CharClass::CategoryWord, w0[i]));
            } else if i == w0.len() {
                assert(jn[i] == '-');
            } else {
                assert(jn[i] == join(rest, seq!['-'])[i - w0.len() - 1]);
            }
        }
    } else if ws.len() == 1 {
        assert forall|i: int| 0 <= i < ws[0].len() implies !in_class(
            CharClass::CategorySep,
            #[trigger] ws[0][i],
        ) by {
            assert(in_class(CharClass::CategoryWord, ws[0][i]));
        }
    }
}

// ── Prompts ───────────────────────────────────────────────────────────────

/// The instructions that open a classification prompt, up to the title.
pub const CLASSIFY_INSTRUCTIONS: &'static str = "Classify the following research paper into a single lower-case kebab-case category string (examples: \"large-language-models\", \"reinforcement-learning\", \"computer-vision\", \"multimodal-learning\", \"graph-neural-networks\"). Rules:\n- Return ONLY the category string.\n- No spaces, no punctuation, no explanation.\n- Use hyphens between words.\n- All lower-case.\n\nTitle: ";

/// The prompt that turns a PDF into a markdown document.
pub const PDF_PROMPT: &'static str = "You convert a research paper PDF into a markdown document for a personal wiki. Rules:\n1. Start with a YAML frontmatter block delimited by `---` containing exactly these fields, no others:\n- title: \"<paper title>\"\n- authors: \"<comma-separated author list>\"\n- abstract: \"<full abstract, single line, escape quotes>\"\n- doi: \"<DOI string or empty>\"\n- year: <publication year or empty>\n2. After the closing `---`, render the paper body in GitHub-flavoured markdown:\n- Use `##` for top-level sections (Introduction, Method, \u{2026}), `###` for subsections.\n- Preserve display math as `$$ \u{2026} $$` and inline math as `$ \u{2026} $` (LaTeX, not unicode).\n- Skip references, figures, and tables that are purely visual; keep figure captions inline.\n3. Do NOT wrap the response in ```markdown fences. Output the document directly.";

/// The first `n` characters of a text.
pub open spec fn excerpt(s: Seq<char>, n: nat) -> Seq<char> {
    if s.len() <= n {
        s
    } else {
        s.take(n as int)
    }
}

/// The first `n` characters of a text.
pub fn excerpt_chars(s: &str, n: usize) -> (r: Vec<char>)
    ensures
        r@ == excerpt(s@, n as nat),
{
    let v = chars_of(s);
    let m = if v.len() <= n {
        v.len()
    } else {
        n
    };
    let r = slice_chars(v.as_slice(), 0, m);
    assert(r@ =~= excerpt(s@, n as nat));
    r
}

/// Instructions, then the title, the abstract and a body excerpt.
pub open spec fn paper_prompt_text(
    intro: Seq<char>,
    title: Seq<char>,
    abstract_text: Seq<char>,
    body_excerpt: Seq<char>,
) -> Seq<char> {
    intro + title + "\n\nAbstract: "@ + abstract_text + "\n\nBody excerpt:\n"@ + body_excerpt
}

/// The prompt that asks for a paper's category.
pub fn classify_prompt(title: &str, abstract_text: &str, body: &str) -> (p: String)
    ensures
        p@ == paper_prompt_text(
            CLASSIFY_INSTRUCTIONS@,
            title@,
            abstract_text@,
            excerpt(body@, BODY_EXCERPT_CHARS as nat),
        ),
{
    let mut v = chars_of(CLASSIFY_INSTRUCTIONS);
    let t = chars_of(title);
    extend(&mut v, t.as_slice());
    let a_head = chars_of("\n\nAbstract: ");
    extend(&mut v, a_head.as_slice());
    let a = chars_of(abstract_text);
    extend(&mut v, a.as_slice());
    let b_head = chars_of("\n\nBody excerpt:\n");
    extend(&mut v, b_head.as_slice());
    let b = excerpt_chars(body, BODY_EXCERPT_CHARS);
    extend(&mut v, b.as_slice());
    string_of(v.as_slice())
}

/// What asks the model to prefer the categories the wiki already has.
pub const CATEGORY_HINT: &'static str = "\n\nExisting categories (reuse one of these when it fits; otherwise propose a new one): ";

/// The classification prompt followed by the existing categories, joined
/// with `, `.
pub open spec fn hinted_prompt_text(
    title: Seq<char>,
    abstract_text: Seq<char>,
    body: Seq<char>,
    existing: Seq<Seq<char>>,
) -> Seq<char> {
    paper_prompt_text(CLASSIFY_INSTRUCTIONS@, title, abstract_text, excerpt(body, BODY_EXCERPT_CHARS as nat))
        + CATEGORY_HINT@ + join(existing, ", "@)
}

/// The prompt that asks for a paper's category, listing the categories
/// that already exist so the model prefers them.
pub fn classify_prompt_with_categories(
    title: &str,
    abstract_text: &str,
    body: &str,
    existing: &Vec<String>,
) -> (p: String)
    ensures
        p@ == hinted_prompt_text(title@, abstract_text@, body@, string_views(existing@)),
{
    let base = classify_prompt(title, abstract_text, body);
    let mut v = chars_of(base.as_str());
    let h = chars_of(CATEGORY_HINT);
    extend(&mut v, h.as_slice());
    let mut names: Vec<Vec<char>> = Vec::new();
    let mut i: usize = 0;
    while i < existing.len()
        invariant
            i <= existing.len(),
            views(names@) == string_views(existing@).take(i as int),
        decreases existing.len() - i,
    {
        names.push(chars_of(existing[i].as_str()));
        proof {
            assert(string_views(existing@).take(i + 1) =~= string_views(existing@).take(i as int).push(
                existing@[i as int]@,
            ));
            assert(views(names@) =~= views(names@).drop_last().push(names@[i as int]@));
        }
        i += 1;
    }
    assert(string_views(existing@).take(existing.len() as int) =~= string_views(existing@));
    let sep = chars_of(", ");
    let j = join_chars(&names, sep.as_slice());
    extend(&mut v, j.as_slice());
    string_of(v.as_slice())
}

/// The prompt that classifies an imported paper: the one that names the
/// existing categories when there are any, the plain one otherwise.
pub fn category_prompt(title: &str, abstract_text: &str, body: &str, existing: &Vec<String>) -> (p:
    String)
    ensures
        existing@.len() == 0 ==> p@ == paper_prompt_text(
            CLASSIFY_INSTRUCTIONS@,
            title@,
            abstract_text@,
            excerpt(body@, BODY_EXCERPT_CHARS as nat),
        ),
        existing@.len() > 0 ==> p@ == hinted_prompt_text(
            title@,
            abstract_text@,
            body@,
            string_views(existing@),
        ),
{
    if existing.len() == 0 {
        classify_prompt(title, abstract_text, body)
    } else {
        classify_prompt_with_categories(title, abstract_text, body, existing)
    }
}

// ── Reading a category ────────────────────────────────────────────────────

/// Names what `format!("{:?}", s)` writes for a string: `str`'s `Debug`,
/// the text quoted, with std's escapes.
pub uninterp spec fn str_debug(s: Seq<char>) -> Seq<char>;

/// `format!("{:?}", s)` for a string slice.
#[verifier::external_body]
pub(crate) fn debug_quoted(s: &str) -> (r: String)
    ensures
        r@ == str_debug(s@),
{
    format!("{:?}", s)
}

/// The text of a reply, or nothing when it holds no text.
pub open spec fn reply_text(resp: GeminiResponse) -> Seq<char> {
    match first_text(resp) {
        Some(t) => t,
        None => seq![],
    }
}

/// The category of a classification reply, refused when it normalises to
/// nothing.
pub fn category_from_response(resp: &GeminiResponse) -> (r: Result<String, String>)
    ensures
        match r {
            Ok(c) => category_text(reply_text(*resp)).len() > 0 && c@ == category_text(
                reply_text(*resp),
            ),
            Err(e) => category_text(reply_text(*resp)).len() == 0 && e@
                == "Gemini returned an empty category (raw: "@ + str_debug(reply_text(*resp))
                + ")"@,
        },
{
    let raw = match extract_ns_text(resp) {
        Some(t) => t,
        None => {
            let e = String::new();
            proof {
                reveal_strlit("");
            }
            e
        },
    };
    assert(raw@ == reply_text(*resp)) by {
        if first_text(*resp) is None {
            assert(raw@ =~= Seq::<char>::empty());
        }
    }
    let category = normalise_category(raw.as_str());
    if category.as_str().is_empty() {
        let mut v = chars_of("Gemini returned an empty category (raw: ");
        let d = debug_quoted(raw.as_str());
        let dv = chars_of(d.as_str());
        extend(&mut v, dv.as_slice());
        let close = chars_of(")");
        extend(&mut v, close.as_slice());
        return Err(string_of(v.as_slice()));
    }
    Ok(category)
}

// ── PDF to markdown ───────────────────────────────────────────────────────

/// The refusal of a PDF over the inline limit: its size in whole MiB.
pub open spec fn pdf_too_large_text(len: nat) -> Seq<char> {
    "PDF is "@ + decimal(len / 1048576) + " MB \u{2014} Gemini inline limit is 20 MB. Split the file or use the File API."@
}

/// Refuses a PDF that is too large to go inline.
pub fn pdf_size_check(len: usize) -> (r: Result<(), String>)
    ensures
        r is Ok <==> len <= MAX_INLINE_BYTES,
        r matches Err(e) ==> e@ == pdf_too_large_text(len as nat),
{
    if len > MAX_INLINE_BYTES {
        let mut v = chars_of("PDF is ");
        let n = decimal_chars((len / 1048576) as u64);
        extend(&mut v, n.as_slice());
        let tail = chars_of(" MB \u{2014} Gemini inline limit is 20 MB. Split the file or use the File API.");
        extend(&mut v, tail.as_slice());
        return Err(string_of(v.as_slice()));
    }
    Ok(())
}

/// The request that turns a PDF into markdown: the instructions, then the
/// PDF inline.
pub fn pdf_request(bytes: &[u8]) -> (r: GeminiRequest)
    ensures
        r.contents@.len() == 1,
        r.contents@[0].role@ == "user"@,
        r.contents@[0].parts@.len() == 2,
        opt_string(r.contents@[0].parts@[0].text) == Some(PDF_PROMPT@),
        r.contents@[0].parts@[0].inline_data is None,
        r.contents@[0].parts@[1].text is None,
        r.contents@[0].parts@[1].inline_data matches Some(d) && d.mime_type@ == "application/pdf"@
            && d.data@ == base64_standard(bytes@),
{
    let mut parts: Vec<GeminiPart> = Vec::new();
    parts.push(GeminiPart::text(PDF_PROMPT.to_owned()));
    parts.push(GeminiPart::pdf(bytes));
    let mut contents: Vec<GeminiContent> = Vec::new();
    contents.push(GeminiContent { role: "user".to_owned(), parts });
    GeminiRequest { contents }
}

/// The text after an opening fence: ```` ```markdown ````, ```` ```md ```` or
/// ```` ``` ````, less the line feeds after it; the text itself without one.
pub open spec fn after_fence(t: Seq<char>) -> Seq<char> {
    match strip_prefix(t, "```markdown"@) {
        Some(r) => trim_start_by(r, CharClass::LineFeed),
        None => match strip_prefix(t, "```md"@) {
            Some(r) => trim_start_by(r, CharClass::LineFeed),
            None => match strip_prefix(t, "```"@) {
                Some(r) => trim_start_by(r, CharClass::LineFeed),
                None => t,
            },
        },
    }
}

/// A reply without the fence that wraps it, when there is one.
pub open spec fn fence_stripped(s: Seq<char>) -> Seq<char> {
    let body = after_fence(trim(s));
    match strip_suffix(body, "```"@) {
        Some(x) => trim_end_by(x, CharClass::Whitespace),
        None => body,
    }
}

/// Removes a ```` ```markdown … ``` ```` fence around a reply.
pub fn strip_markdown_fence(s: &str) -> (r: String)
    ensures
        r@ == fence_stripped(s@),
{
    let v = chars_of(s);
    let t = trim_chars(v.as_slice(), CharClass::Whitespace);
    let f1 = chars_of("```markdown");
    let f2 = chars_of("```md");
    let f3 = chars_of("```");
    let body = match crate::text::strip_prefix_chars(t.as_slice(), f1.as_slice()) {
        Some(r) => trim_start_chars(r.as_slice(), CharClass::LineFeed),
        None => match crate::text::strip_prefix_chars(t.as_slice(), f2.as_slice()) {
            Some(r) => trim_start_chars(r.as_slice(), CharClass::LineFeed),
            None => match crate::text::strip_prefix_chars(t.as_slice(), f3.as_slice()) {
                Some(r) => trim_start_chars(r.as_slice(), CharClass::LineFeed),
                None => t,
            },
        },
    };
    assert(body@ == after_fence(trim(s@)));
    match crate::text::strip_suffix_chars(body.as_slice(), f3.as_slice()) {
        Some(x) => {
            let y = trim_end_chars(x.as_slice(), CharClass::Whitespace);
            string_of(y.as_slice())
        },
        None => string_of(body.as_slice()),
    }
}

pub const NO_MARKDOWN: &'static str = "Gemini returned no markdown content";

pub const EMPTY_MARKDOWN: &'static str = "Gemini returned an empty markdown body";

/// The markdown document of a PDF conversion reply.
pub fn markdown_from_response(resp: &GeminiResponse) -> (r: Result<String, String>)
    ensures
        match first_text(*resp) {
            None => r matches Err(e) && e@ == NO_MARKDOWN@,
            Some(t) => if trim(t).len() == 0 {
                r matches Err(e) && e@ == EMPTY_MARKDOWN@
            } else {
                r matches Ok(m) && m@ == fence_stripped(trim(t))
            },
        },
{
    let text = match extract_ns_text(resp) {
        Some(t) => t,
        None => return Err(NO_MARKDOWN.to_owned()),
    };
    let trimmed = crate::text::trim_str(text.as_str());
    if trimmed.as_str().is_empty() {
        return Err(EMPTY_MARKDOWN.to_owned());
    }
    let r = strip_markdown_fence(trimmed.as_str());
    Ok(r)
}

// ── Refusals ──────────────────────────────────────────────────────────────

pub const KEY_REJECTED: &'static str = "Gemini API 키가 거부되었습니다. AI Studio에서 키를 다시 발급받았는지 확인하세요.";

pub const QUOTA_EXCEEDED: &'static str = "Gemini API 할당량 초과(429). 무료 티어는 요청 횟수·일일 한도가 낮습니다. 1~2분 후 다시 시도하거나 AI Studio → Rate limits에서 한도를 확인하세요. (논문 분류는 gemini-2.5-pro를 사용합니다.)";

/// What a refused request is answered: a rejected key (401, 403), an
/// exhausted quota (429), or the status code itself.  The request URL,
/// which holds the key, is never part of it.
pub open spec fn http_error_text(code: u16) -> Seq<char> {
    if code == 401 || code == 403 {
        KEY_REJECTED@
    } else if code == 429 {
        QUOTA_EXCEEDED@
    } else {
        "Gemini API 오류: HTTP "@ + decimal(code as nat)
    }
}

pub fn format_gemini_http_error(code: u16) -> (r: String)
    ensures
        r@ == http_error_text(code),
{
    if code == 401 || code == 403 {
        KEY_REJECTED.to_owned()
    } else if code == 429 {
        QUOTA_EXCEEDED.to_owned()
    } else {
        let mut v = chars_of("Gemini API 오류: HTTP ");
        let n = decimal_chars(code as u64);
        extend(&mut v, n.as_slice());
        string_of(v.as_slice())
    }
}

pub const EMPTY_KEY: &'static str = "API key must not be empty";

/// A key as the user supplied it: trimmed, refused when blank.
pub fn supplied_key(key: &str) -> (r: Result<String, String>)
    ensures
        match r {
            Ok(k) => trim(key@).len() > 0 && k@ == trim(key@),
            Err(e) => trim(key@).len() == 0 && e@ == EMPTY_KEY@,
        },
{
    let k = crate::text::trim_str(key);
    if k.as_str().is_empty() {
        return Err(EMPTY_KEY.to_owned());
    }
    Ok(k)
}

} // verus!
