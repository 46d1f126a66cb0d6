//! Decoding of a streamed chat-completions response: OpenAI-style
//! `data: {...}` server-sent events carrying reply deltas, terminated by
//! `data: [DONE]`, plus the server's out-of-band
//! `: mirror-conversation-id <id>` comment line.
//!
//! The decoder is fed the response chunk by chunk. The bytes are decoded as
//! UTF-8 across chunk boundaries (`utf8_stream`), each complete line is
//! handled as it arrives, and the deltas that a chunk completes are handed
//! back to be printed at once.

use vstd::prelude::*;
use crate::json::{choice_content, lookup_choice_content};
use crate::utf8_stream::{decode_utf8_prefix, utf8_decode_prefix};
use crate::text::{
    trim_start, trim_end,
    chars_of, chars_eq, find_char, find_char_from, has_prefix, lemma_find_char_bounds,
    starts_with, string_from_chars, strip_trailing, strip_trailing_chars, sub_chars, trim,
    trim_chars,
};

verus! {

/// The comment that announces the conversation id, after its `:`.
pub const ID_COMMENT_PREFIX: &'static str = "mirror-conversation-id ";

/// The payload that ends the stream.
pub const DONE_MARKER: &'static str = "[DONE]";

/// What the decoder has seen so far.
pub struct SseModel {
    /// Text received after the last complete line.
    pub pending: Seq<char>,
    /// The reply so far: all deltas, in order.
    pub reply: Seq<char>,
    /// The conversation id announced last, if any.
    pub conversation_id: Option<Seq<char>>,
    /// Whether `[DONE]` has been seen.
    pub done: bool,
}

/// What one line of the stream means.
pub enum SseEvent {
    ConversationId(Seq<char>),
    Delta(Seq<char>),
    Done,
    Skip,
}

/// The payload of a `data:` line, with or without the space after the colon.
pub open spec fn data_payload(line: Seq<char>) -> Option<Seq<char>> {
    if has_prefix(line, "data: "@) {
        Some(line.skip("data: "@.len() as int))
    } else if has_prefix(line, "data:"@) {
        Some(line.skip("data:"@.len() as int))
    } else {
        None
    }
}

/// What `line` (without its line break and trailing carriage returns) means.
pub open spec fn line_event(line: Seq<char>) -> SseEvent {
    if line.len() > 0 && line[0] == ':' {
        let rest = trim(line.drop_first());
        if has_prefix(rest, ID_COMMENT_PREFIX@) {
            SseEvent::ConversationId(trim(rest.skip(ID_COMMENT_PREFIX@.len() as int)))
        } else {
            SseEvent::Skip
        }
    } else {
        match data_payload(line) {
            None => SseEvent::Skip,
            Some(d) => {
                let data = trim(d);
                if data.len() == 0 {
                    SseEvent::Skip
                } else if data == DONE_MARKER@ {
                    SseEvent::Done
                } else {
                    match choice_content(data, "delta"@) {
                        Some(Some(piece)) => SseEvent::Delta(piece),
                        _ => SseEvent::Skip,
                    }
                }
            },
        }
    }
}

/// The model after one event, and the deltas it hands out.
pub open spec fn apply_event(m: SseModel, ev: SseEvent) -> (SseModel, Seq<Seq<char>>) {
    match ev {
        SseEvent::ConversationId(id) => (SseModel { conversation_id: Some(id), ..m }, Seq::empty()),
        SseEvent::Delta(piece) => (SseModel { reply: m.reply + piece, ..m }, seq![piece]),
        SseEvent::Done => (SseModel { done: true, ..m }, Seq::empty()),
        SseEvent::Skip => (m, Seq::empty()),
    }
}

/// Handles every complete line of `m.pending`, in order, until `[DONE]`;
/// `out` collects the deltas handed out.
pub open spec fn drain(m: SseModel, out: Seq<Seq<char>>) -> (SseModel, Seq<Seq<char>>)
    decreases m.pending.len(),
{
    let k = find_char(m.pending, '\n');
    if m.done || k >= m.pending.len() {
        (m, out)
    } else {
        proof {
            lemma_find_char_bounds(m.pending, '\n');
        }
        let line = strip_trailing(m.pending.take(k), '\r');
        let next = apply_event(SseModel { pending: m.pending.skip(k + 1), ..m }, line_event(line));
        drain(next.0, out + next.1)
    }
}

/// The model after text `text` arrives in state `m`.
pub open spec fn receive(m: SseModel, text: Seq<char>) -> (SseModel, Seq<Seq<char>>) {
    if m.done {
        (m, Seq::empty())
    } else {
        drain(SseModel { pending: m.pending + text, ..m }, Seq::empty())
    }
}

/// The decoder after the byte chunk `chunk` arrives in state `m` with the
/// bytes `raw` still undecoded: the bytes are decoded as far as they form
/// whole characters (`utf8_decode_prefix`), the text is handled line by
/// line, and the rest of an incomplete character waits. Returns the new
/// state, the bytes still undecoded, and the deltas handed out.
pub open spec fn receive_bytes(m: SseModel, raw: Seq<u8>, chunk: Seq<u8>) -> (
    SseModel,
    Seq<u8>,
    Seq<Seq<char>>,
) {
    if m.done {
        (m, raw, Seq::empty())
    } else {
        let d = utf8_decode_prefix(raw + chunk);
        let r = receive(m, d.0);
        (r.0, d.1, r.1)
    }
}

/// The meaning of a line, as held in executable code.
enum LineEvent {
    ConversationId(Vec<char>),
    Delta(String),
    Done,
    Skip,
}

spec fn line_event_view(e: LineEvent) -> SseEvent {
    match e {
        LineEvent::ConversationId(id) => SseEvent::ConversationId(id@),
        LineEvent::Delta(p) => SseEvent::Delta(p@),
        LineEvent::Done => SseEvent::Done,
        LineEvent::Skip => SseEvent::Skip,
    }
}

fn classify_line(line: &[char]) -> (res: LineEvent)
    ensures
        line_event_view(res) == line_event(line@),
{
    if line.len() > 0 && line[0] == ':' {
        let after = sub_chars(line, 1, line.len());
        assert(after@ =~= line@.drop_first());
        let rest = trim_chars(after.as_slice());
        let prefix = chars_of(ID_COMMENT_PREFIX);
        if starts_with(rest.as_slice(), prefix.as_slice()) {
            let id_raw = sub_chars(rest.as_slice(), prefix.len(), rest.len());
            assert(id_raw@ =~= rest@.skip(ID_COMMENT_PREFIX@.len() as int));
            return LineEvent::ConversationId(trim_chars(id_raw.as_slice()));
        }
        return LineEvent::Skip;
    }
    let long_prefix = chars_of("data: ");
    let short_prefix = chars_of("data:");
    let payload = if starts_with(line, long_prefix.as_slice()) {
        let p = sub_chars(line, long_prefix.len(), line.len());
        assert(p@ =~= line@.skip("data: "@.len() as int));
        p
    } else if starts_with(line, short_prefix.as_slice()) {
        let p = sub_chars(line, short_prefix.len(), line.len());
        assert(p@ =~= line@.skip("data:"@.len() as int));
        p
    } else {
        return LineEvent::Skip;
    };
    let data = trim_chars(payload.as_slice());
    if data.len() == 0 {
        return LineEvent::Skip;
    }
    let done = chars_of(DONE_MARKER);
    if chars_eq(data.as_slice(), done.as_slice()) {
        return LineEvent::Done;
    }
    let text = string_from_chars(data.as_slice());
    match lookup_choice_content(text.as_str(), "delta") {
        Some(Some(piece)) => LineEvent::Delta(piece),
        _ => LineEvent::Skip,
    }
}

/// The view of the deltas handed out.
pub open spec fn pieces_view(v: Seq<String>) -> Seq<Seq<char>> {
    v.map_values(|s: String| s@)
}

/// Incremental decoder for a streamed response.
pub struct SseDecoder {
    undecoded: Vec<u8>,
    pending: Vec<char>,
    reply: Vec<char>,
    conversation_id: Option<Vec<char>>,
    done: bool,
}

impl View for SseDecoder {
    type V = SseModel;

    closed spec fn view(&self) -> SseModel {
        SseModel {
            pending: self.pending@,
            reply: self.reply@,
            conversation_id: match self.conversation_id {
                Some(id) => Some(id@),
                None => None,
            },
            done: self.done,
        }
    }
}

impl SseDecoder {
    /// The bytes received that do not yet form a whole character.
    pub closed spec fn undecoded(&self) -> Seq<u8> {
        self.undecoded@
    }

    /// A decoder that has seen nothing.
    pub fn new() -> (res: Self)
        ensures
            res@ == (SseModel {
                pending: Seq::empty(),
                reply: Seq::empty(),
                conversation_id: None,
                done: false,
            }),
            res.undecoded() == Seq::<u8>::empty(),
    {
        SseDecoder {
            undecoded: Vec::new(),
            pending: Vec::new(),
            reply: Vec::new(),
            conversation_id: None,
            done: false,
        }
    }

    /// Whether `[DONE]` has been seen: the response is complete.
    pub fn is_done(&self) -> (res: bool)
        ensures
            res == self@.done,
    {
        self.done
    }

    /// Handles decoded text: every line it completes, in order, until
    /// `[DONE]`. Returns the deltas those lines carried, to be printed.
    pub fn push_text(&mut self, text: &[char]) -> (pieces: Vec<String>)
        ensures
            final(self)@ == receive(old(self)@, text@).0,
            pieces_view(pieces@) == receive(old(self)@, text@).1,
            final(self).undecoded() == old(self).undecoded(),
    {
        let mut pieces: Vec<String> = Vec::new();
        if self.done {
            assert(pieces_view(pieces@) =~= Seq::<Seq<char>>::empty());
            return pieces;
        }
        let ghost start_model = SseModel { pending: self.pending@ + text@, ..self@ };
        let mut buf: Vec<char> = Vec::new();
        std::mem::swap(&mut buf, &mut self.pending);
        let mut j: usize = 0;
        while j < text.len()
            invariant
                0 <= j <= text@.len(),
                buf@ == old(self)@.pending + text@.take(j as int),
                self.undecoded@ == old(self).undecoded@,
            decreases text@.len() - j,
        {
            buf.push(text[j]);
            j = j + 1;
        }
        assert(text@.take(text@.len() as int) =~= text@);
        let n = buf.len();
        let mut start: usize = 0;
        assert(buf@.skip(0) =~= buf@);
        assert(pieces_view(pieces@) =~= Seq::<Seq<char>>::empty());
        loop
            invariant_except_break
                !self.done,
            invariant
                n == buf@.len(),
                0 <= start <= n,
                self.undecoded@ == old(self).undecoded@,
                buf@ == start_model.pending,
                start_model.reply == old(self)@.reply,
                start_model.conversation_id == old(self)@.conversation_id,
                !start_model.done,
                drain(start_model, Seq::empty()) == drain(
                    SseModel { pending: buf@.skip(start as int), ..self@ },
                    pieces_view(pieces@),
                ),
            ensures
                self.done || find_char(buf@.skip(start as int), '\n') >= buf@.len() - start,
                0 <= start <= n,
                drain(start_model, Seq::empty()) == drain(
                    SseModel { pending: buf@.skip(start as int), ..self@ },
                    pieces_view(pieces@),
                ),
            decreases n - start,
        {
            let ghost rest = buf@.skip(start as int);
            let ghost m = SseModel { pending: rest, ..self@ };
            let k = find_char_from(buf.as_slice(), start, '\n');
            if k == n {
                break;
            }
            proof {
                lemma_find_char_bounds(rest, '\n');
            }
            let raw_line = sub_chars(buf.as_slice(), start, k);
            let line = strip_trailing_chars(raw_line.as_slice(), '\r');
            proof {
                assert(raw_line@ =~= rest.take(k - start));
                assert(rest.skip(k - start + 1) =~= buf@.skip(k + 1));
            }
            let ghost next = apply_event(
                SseModel { pending: rest.skip(k - start + 1), ..m },
                line_event(line@),
            );
            let ghost old_pieces = pieces_view(pieces@);
            match classify_line(line.as_slice()) {
                LineEvent::ConversationId(id) => {
                    self.conversation_id = Some(id);
                },
                LineEvent::Delta(piece) => {
                    let mut r: Vec<char> = Vec::new();
                    std::mem::swap(&mut r, &mut self.reply);
                    let pc = chars_of(piece.as_str());
                    let mut t: usize = 0;
                    let ghost r0 = r@;
                    while t < pc.len()
                        invariant
                            0 <= t <= pc@.len(),
                            r@ == r0 + pc@.take(t as int),
                        decreases pc@.len() - t,
                    {
                        r.push(pc[t]);
                        t = t + 1;
                    }
                    assert(pc@.take(pc@.len() as int) =~= pc@);
                    self.reply = r;
                    pieces.push(piece);
                },
                LineEvent::Done => {
                    self.done = true;
                },
                LineEvent::Skip => {},
            }
            start = k + 1;
            proof {
                assert(pieces_view(pieces@) =~= old_pieces + next.1);
                assert(next.0 == SseModel { pending: buf@.skip(start as int), ..self@ });
            }
            if self.done {
                break;
            }
        }
        let rest = sub_chars(buf.as_slice(), start, n);
        assert(rest@ =~= buf@.skip(start as int));
        self.pending = rest;
        pieces
    }

    /// Handles a raw chunk of the response body: the bytes received so far
    /// are decoded as far as they form whole characters, so a character
    /// that a chunk boundary splits is decoded once its last byte arrives.
    /// Returns the deltas to print.
    pub fn push_chunk(&mut self, chunk: &[u8]) -> (pieces: Vec<String>)
        ensures
            final(self)@ == receive_bytes(old(self)@, old(self).undecoded(), chunk@).0,
            final(self).undecoded() == receive_bytes(old(self)@, old(self).undecoded(), chunk@).1,
            pieces_view(pieces@) == receive_bytes(old(self)@, old(self).undecoded(), chunk@).2,
    {
        if self.done {
            let pieces: Vec<String> = Vec::new();
            assert(pieces_view(pieces@) =~= Seq::<Seq<char>>::empty());
            return pieces;
        }
        let mut bytes: Vec<u8> = Vec::new();
        std::mem::swap(&mut bytes, &mut self.undecoded);
        let ghost raw = bytes@;
        let mut j: usize = 0;
        while j < chunk.len()
            invariant
                0 <= j <= chunk@.len(),
                bytes@ == raw + chunk@.take(j as int),
            decreases chunk@.len() - j,
        {
            bytes.push(chunk[j]);
            j = j + 1;
        }
        assert(chunk@.take(chunk@.len() as int) =~= chunk@);
        let (text, rest) = decode_utf8_prefix(bytes.as_slice());
        let pieces = self.push_text(text.as_slice());
        self.undecoded = rest;
        pieces
    }

    /// The reply so far and the announced conversation id. Text after the
    /// last complete line is not part of the reply.
    pub fn finish(self) -> (res: (String, Option<String>))
        ensures
            res.0@ == self@.reply,
            match res.1 {
                Some(id) => self@.conversation_id == Some(id@),
                None => self@.conversation_id is None,
            },
    {
        let reply = string_from_chars(self.reply.as_slice());
        let id = match &self.conversation_id {
            Some(c) => Some(string_from_chars(c.as_slice())),
            None => None,
        };
        (reply, id)
    }
}

/// All the deltas, concatenated in order.
pub open spec fn concat_all(pieces: Seq<Seq<char>>) -> Seq<char>
    decreases pieces.len(),
{
    if pieces.len() == 0 {
        Seq::empty()
    } else {
        pieces[0] + concat_all(pieces.drop_first())
    }
}

proof fn lemma_concat_all_append(a: Seq<Seq<char>>, b: Seq<Seq<char>>)
    ensures
        concat_all(a + b) == concat_all(a) + concat_all(b),
    decreases a.len(),
{
    if a.len() == 0 {
        assert(a + b =~= b);
        assert(concat_all(a) + concat_all(b) =~= concat_all(b));
    } else {
        assert((a + b).drop_first() =~= a.drop_first() + b);
        lemma_concat_all_append(a.drop_first(), b);
        assert(concat_all(a + b) =~= a[0] + concat_all(a.drop_first() + b));
        assert(concat_all(a) + concat_all(b) =~= a[0] + (concat_all(a.drop_first()) + concat_all(b)));
    }
}

/// The deltas collected so far only prefix what `drain` hands out.
proof fn lemma_drain_out(m: SseModel, out: Seq<Seq<char>>)
    ensures
        drain(m, out).0 == drain(m, Seq::empty()).0,
        drain(m, out).1 == out + drain(m, Seq::empty()).1,
    decreases m.pending.len(),
{
    let k = find_char(m.pending, '\n');
    if m.done || k >= m.pending.len() {
        assert(out + Seq::<Seq<char>>::empty() =~= out);
    } else {
        lemma_find_char_bounds(m.pending, '\n');
        let line = strip_trailing(m.pending.take(k), '\r');
        let next = apply_event(SseModel { pending: m.pending.skip(k + 1), ..m }, line_event(line));
        lemma_drain_out(next.0, out + next.1);
        lemma_drain_out(next.0, Seq::empty() + next.1);
        assert(Seq::<Seq<char>>::empty() + next.1 =~= next.1);
        assert(out + next.1 + drain(next.0, Seq::empty()).1 =~= out + (next.1 + drain(
            next.0,
            Seq::empty(),
        ).1));
    }
}

/// Text that arrives later does not change how the lines already complete
/// are handled.
proof fn lemma_drain_append(m: SseModel, out: Seq<Seq<char>>, b: Seq<char>)
    ensures
        drain(SseModel { pending: m.pending + b, ..m }, out) == ({
            let r = drain(m, out);
            drain(SseModel { pending: r.0.pending + b, ..r.0 }, r.1)
        }),
    decreases m.pending.len(),
{
    let p = m.pending;
    let k = find_char(p, '\n');
    lemma_find_char_bounds(p, '\n');
    if m.done || k >= p.len() {
    } else {
        let pb = p + b;
        assert forall|j: int| 0 <= j < k implies pb[j] != '\n' by {
            assert(pb[j] == p[j]);
        }
        assert(pb[k] == p[k]);
        crate::text::lemma_find_char(pb, '\n', k);
        assert(pb.take(k) =~= p.take(k));
        assert(pb.skip(k + 1) =~= p.skip(k + 1) + b);
        let line = strip_trailing(p.take(k), '\r');
        let next = apply_event(SseModel { pending: p.skip(k + 1), ..m }, line_event(line));
        let next_b = apply_event(SseModel { pending: p.skip(k + 1) + b, ..m }, line_event(line));
        assert(next_b.0 == SseModel { pending: next.0.pending + b, ..next.0 });
        assert(next_b.1 == next.1);
        lemma_drain_append(next.0, out + next.1, b);
    }
}

/// Chunk boundaries do not matter: handling decoded text `a` and then `b`
/// hands out the same deltas, in the same order, and ends with the same
/// reply, conversation id and completion as handling `a + b` at once (the
/// unconsumed text differs only where `[DONE]` came in `a`, after which
/// nothing more is read).
pub proof fn law_chunk_boundaries_do_not_matter(m: SseModel, a: Seq<char>, b: Seq<char>)
    ensures
        ({
            let whole = receive(m, a + b);
            let first = receive(m, a);
            let second = receive(first.0, b);
            &&& whole.1 == first.1 + second.1
            &&& whole.0.reply == second.0.reply
            &&& whole.0.conversation_id == second.0.conversation_id
            &&& whole.0.done == second.0.done
            &&& !first.0.done ==> whole.0 == second.0
        }),
{
    if !m.done {
        let ma = SseModel { pending: m.pending + a, ..m };
        assert(m.pending + (a + b) =~= ma.pending + b);
        lemma_drain_append(ma, Seq::empty(), b);
        let r = drain(ma, Seq::empty());
        if !r.0.done {
            lemma_drain_out(SseModel { pending: r.0.pending + b, ..r.0 }, r.1);
        } else {
            assert(r.1 + Seq::<Seq<char>>::empty() =~= r.1);
        }
    } else {
        assert(Seq::<Seq<char>>::empty() + Seq::<Seq<char>>::empty() =~= Seq::<Seq<char>>::empty());
    }
}

proof fn lemma_drain_reply(m: SseModel)
    ensures
        drain(m, Seq::empty()).0.reply == m.reply + concat_all(drain(m, Seq::empty()).1),
    decreases m.pending.len(),
{
    let k = find_char(m.pending, '\n');
    if m.done || k >= m.pending.len() {
        assert(m.reply + concat_all(Seq::empty()) =~= m.reply);
    } else {
        lemma_find_char_bounds(m.pending, '\n');
        let line = strip_trailing(m.pending.take(k), '\r');
        let next = apply_event(SseModel { pending: m.pending.skip(k + 1), ..m }, line_event(line));
        assert(Seq::<Seq<char>>::empty() + next.1 =~= next.1);
        lemma_drain_out(next.0, next.1);
        lemma_drain_reply(next.0);
        lemma_concat_all_append(next.1, drain(next.0, Seq::empty()).1);
        match line_event(line) {
            SseEvent::Delta(piece) => {
                assert(next.1 == seq![piece]);
                assert(next.1.drop_first() =~= Seq::<Seq<char>>::empty());
                assert(concat_all(next.1) == next.1[0] + concat_all(next.1.drop_first()));
                assert(concat_all(next.1) =~= piece);
            },
            _ => {
                assert(next.1 =~= Seq::<Seq<char>>::empty());
                assert(next.0.reply + concat_all(next.1) =~= next.0.reply);
            },
        }
        assert(m.reply + (concat_all(next.1) + concat_all(drain(next.0, Seq::empty()).1)) =~= m.reply
            + concat_all(next.1) + concat_all(drain(next.0, Seq::empty()).1));
    }
}

/// The reply is exactly what was printed: the deltas handed out, in order,
/// extend the reply and nothing else does.
pub proof fn law_reply_is_printed_deltas(m: SseModel, text: Seq<char>)
    ensures
        receive(m, text).0.reply == m.reply + concat_all(receive(m, text).1),
{
    if m.done {
        assert(m.reply + concat_all(Seq::empty()) =~= m.reply);
    } else {
        lemma_drain_reply(SseModel { pending: m.pending + text, ..m });
    }
}

/// After `[DONE]` nothing more is taken from the stream.
pub proof fn law_done_is_final(m: SseModel, text: Seq<char>)
    requires
        m.done,
    ensures
        receive(m, text) == (m, Seq::<Seq<char>>::empty()),
{
}

/// Chunk boundaries in the byte stream do not matter: receiving bytes `a`
/// and then `b` hands out the same deltas, in the same order, and ends with
/// the same reply, conversation id and completion as receiving `a + b` at
/// once, also where a boundary splits a character (the undecoded and
/// unconsumed bytes differ only where `[DONE]` came in `a`, after which
/// nothing more is read).
pub proof fn law_byte_chunk_boundaries_do_not_matter(
    m: SseModel,
    raw: Seq<u8>,
    a: Seq<u8>,
    b: Seq<u8>,
)
    ensures
        ({
            let whole = receive_bytes(m, raw, a + b);
            let first = receive_bytes(m, raw, a);
            let second = receive_bytes(first.0, first.1, b);
            &&& whole.2 == first.2 + second.2
            &&& whole.0.reply == second.0.reply
            &&& whole.0.conversation_id == second.0.conversation_id
            &&& whole.0.done == second.0.done
            &&& !first.0.done ==> whole.0 == second.0 && whole.1 == second.1
        }),
{
    if m.done {
        assert(Seq::<Seq<char>>::empty() + Seq::<Seq<char>>::empty() =~= Seq::<Seq<char>>::empty());
    } else {
        assert(raw + (a + b) =~= (raw + a) + b);
        crate::utf8_stream::lemma_decode_prefix_append(raw + a, b);
        let d1 = utf8_decode_prefix(raw + a);
        let d2 = utf8_decode_prefix(d1.1 + b);
        law_chunk_boundaries_do_not_matter(m, d1.0, d2.0);
    }
}

/// A valid UTF-8 stream split anywhere gives what its decoded text gives:
/// the deltas, the reply, the conversation id and the completion are those
/// of `decode_utf8` of the whole stream.
pub proof fn law_valid_stream_split_anywhere(m: SseModel, a: Seq<u8>, b: Seq<u8>)
    requires
        !m.done,
        vstd::utf8::valid_utf8(a + b),
    ensures
        ({
            let first = receive_bytes(m, Seq::empty(), a);
            let second = receive_bytes(first.0, first.1, b);
            let whole = receive(m, vstd::utf8::decode_utf8(a + b));
            &&& first.2 + second.2 == whole.1
            &&& second.0.reply == whole.0.reply
            &&& second.0.conversation_id == whole.0.conversation_id
            &&& second.0.done == whole.0.done
        }),
{
    law_byte_chunk_boundaries_do_not_matter(m, Seq::empty(), a, b);
    assert(Seq::<u8>::empty() + (a + b) =~= a + b);
    crate::utf8_stream::lemma_valid_utf8_decodes(a + b);
}

/// At the byte level too, the reply is exactly the deltas handed out.
pub proof fn law_received_reply_is_printed_deltas(m: SseModel, raw: Seq<u8>, chunk: Seq<u8>)
    ensures
        receive_bytes(m, raw, chunk).0.reply == m.reply + concat_all(receive_bytes(m, raw, chunk).2),
{
    if m.done {
        assert(m.reply + concat_all(Seq::empty()) =~= m.reply);
    } else {
        law_reply_is_printed_deltas(m, utf8_decode_prefix(raw + chunk).0);
    }
}

/// Every delta counts, whatever characters it holds: a `data:` line whose
/// JSON payload has the string `piece` at `choices[0].delta.content` means
/// `Delta(piece)`, for every string `piece` (spaces and line breaks
/// included).
pub proof fn law_every_delta_is_taken(payload: Seq<char>, piece: Seq<char>)
    requires
        payload.len() > 0,
        !crate::text::unicode_white_space(payload[0]),
        !crate::text::unicode_white_space(payload.last()),
        payload != DONE_MARKER@,
        choice_content(payload, "delta"@) == Some(Some(piece)),
    ensures
        line_event("data: "@ + payload) == SseEvent::Delta(piece),
        line_event("data:"@ + payload) == SseEvent::Delta(piece),
{
    reveal_strlit("data: ");
    reveal_strlit("data:");
    let line = "data: "@ + payload;
    let line2 = "data:"@ + payload;
    assert(line[0] == 'd');
    assert(line2[0] == 'd');
    assert(line.take(6) =~= "data: "@);
    assert(line.skip(6) =~= payload);
    assert(line2.take(5) =~= "data:"@);
    assert(line2.take(6) != "data: "@) by {
        if line2.len() >= 6 {
            assert(line2.take(6)[5] == payload[0]);
            assert(payload[0] != ' ');
        }
    }
    assert(line2.skip(5) =~= payload);
    assert(trim_start(payload) == payload);
    assert(trim_end(payload) == payload);
}

/// A stream line that carries the delta `piece` grows the reply by exactly
/// `piece` and hands out exactly `piece`, whatever characters it holds.
pub proof fn law_delta_line_grows_reply_by_piece(m: SseModel, payload: Seq<char>, piece: Seq<char>)
    requires
        !m.done,
        m.pending.len() == 0,
        payload.len() > 0,
        !crate::text::unicode_white_space(payload[0]),
        !crate::text::unicode_white_space(payload.last()),
        forall|i: int| 0 <= i < payload.len() ==> payload[i] != '\n',
        payload != DONE_MARKER@,
        choice_content(payload, "delta"@) == Some(Some(piece)),
    ensures
        ({
            let r = receive(m, "data: "@ + payload + "\n"@);
            &&& r.0.reply == m.reply + piece
            &&& r.0.conversation_id == m.conversation_id
            &&& !r.0.done
            &&& r.0.pending.len() == 0
            &&& r.1 == seq![piece]
        }),
{
    reveal_strlit("data: ");
    reveal_strlit("\n");
    law_every_delta_is_taken(payload, piece);
    let line = "data: "@ + payload;
    let t = "data: "@ + payload + "\n"@;
    let p = m.pending + t;
    assert(p =~= line.push('\n'));
    let k = line.len() as int;
    assert forall|j: int| 0 <= j < k implies p[j] != '\n' by {
        if j >= 6 {
            assert(p[j] == payload[j - 6]);
        }
    }
    crate::text::lemma_find_char(p, '\n', k);
    assert(p.take(k) =~= line);
    assert(line.last() == payload.last());
    assert(crate::text::unicode_white_space('\r'));
    assert(strip_trailing(line, '\r') == line);
    assert(p.skip(k + 1) =~= Seq::<char>::empty());
    let m0 = SseModel { pending: p, ..m };
    let next = apply_event(SseModel { pending: p.skip(k + 1), ..m0 }, line_event(line));
    assert(next.0 == SseModel { pending: Seq::<char>::empty(), reply: m.reply + piece, ..m });
    assert(next.1 == seq![piece]);
    assert(find_char(next.0.pending, '\n') == 0);
    assert(drain(next.0, Seq::empty() + next.1) == (next.0, Seq::empty() + next.1));
    assert(drain(m0, Seq::empty()) == drain(next.0, Seq::empty() + next.1));
    assert(Seq::<Seq<char>>::empty() + seq![piece] =~= seq![piece]);
    assert(receive(m, t) == drain(m0, Seq::empty()));
}

} // verus!
