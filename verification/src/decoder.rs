//! Incremental decoder for the backend's event-delimited stream protocol.
//!
//! The wire format is text split into events by a blank line (two
//! consecutive newline bytes).  Within an event, each line that starts with
//! the prefix `data: ` carries either one JSON-encoded chunk or the literal
//! termination sentinel `[DONE]`.  The decoder accepts arbitrary byte
//! batches, keeps the unconsumed remainder, and emits complete chunks in
//! arrival order as soon as their enclosing event is complete.

use vstd::prelude::*;
use vstd::slice::{slice_index_get, slice_subrange, slice_to_vec};

use crate::chunk::{chunk_of, parse_chunk, ChunkModel, LMCChunk};
use crate::{is_success_status, spec_success_status};

verus! {

/// The failure the streaming relay reports before any decoding: the
/// initial streaming response did not succeed at the HTTP level.
#[derive(Clone, Copy, PartialEq, Eq, Structural, Debug)]
pub enum RelayError {
    StreamRequestError { status: u16 },
}

/// Decides whether the initial streaming response permits decoding: any
/// 2xx status does.  Anything else is an immediate hard failure carrying
/// the offending status, and no decoding is attempted.
pub fn check_stream_response(status: u16) -> (r: Result<(), RelayError>)
    ensures
        (r is Ok) == spec_success_status(status),
        r is Err ==> r == Err::<(), RelayError>(RelayError::StreamRequestError { status }),
{
    if is_success_status(status) {
        Ok(())
    } else {
        Err(RelayError::StreamRequestError { status })
    }
}

/// The byte value of a line feed.
pub const NL: u8 = 10;

/// The byte value of a carriage return.
pub const CR: u8 = 13;

/// The bytes of the line prefix `"data: "`.
pub open spec fn data_prefix() -> Seq<u8> {
    seq![100u8, 97u8, 116u8, 97u8, 58u8, 32u8]
}

/// The bytes of the termination sentinel `"[DONE]"`.
pub open spec fn done_sentinel() -> Seq<u8> {
    seq![91u8, 68u8, 79u8, 78u8, 69u8, 93u8]
}

/// Whether a blank-line event delimiter (two newlines) starts at index `i`.
pub open spec fn delim_at(s: Seq<u8>, i: int) -> bool {
    0 <= i && i + 2 <= s.len() && s[i] == NL && s[i + 1] == NL
}

/// The index of the first event delimiter in `s`, if any.
pub open spec fn find_delim(s: Seq<u8>) -> Option<int>
    decreases s.len(),
{
    if s.len() < 2 {
        None
    } else if s[0] == NL && s[1] == NL {
        Some(0)
    } else {
        match find_delim(s.skip(1)) {
            Some(i) => Some(i + 1),
            None => None,
        }
    }
}

/// `find_delim` returns the first delimiter: it is a delimiter and nothing
/// earlier is one; `None` means there is none at all.
proof fn lemma_find_delim_props(s: Seq<u8>)
    ensures
        match find_delim(s) {
            Some(i) => delim_at(s, i) && (forall|j: int| 0 <= j < i ==> !delim_at(s, j)),
            None => forall|j: int| !delim_at(s, j),
        },
    decreases s.len(),
{
    if s.len() < 2 {
    } else if s[0] == NL && s[1] == NL {
    } else {
        lemma_find_delim_props(s.skip(1));
        let t = s.skip(1);
        assert(forall|j: int|
            0 <= j && j + 2 <= t.len() ==> #[trigger] t[j] == s[j + 1] && t[j + 1] == s[j + 2]);
        match find_delim(t) {
            Some(i) => {
                assert(delim_at(s, i + 1));
                assert forall|j: int| 0 <= j < i + 1 implies !delim_at(s, j) by {
                    if j == 0 {
                    } else {
                        assert(!delim_at(t, j - 1));
                    }
                }
            },
            None => {
                assert forall|j: int| !delim_at(s, j) by {
                    if 0 <= j && j + 2 <= s.len() {
                        if j == 0 {
                        } else {
                            assert(!delim_at(t, j - 1));
                        }
                    }
                }
            },
        }
    }
}

/// A delimiter that nothing precedes is what `find_delim` returns.
proof fn lemma_find_delim_at(s: Seq<u8>, i: int)
    requires
        delim_at(s, i),
        forall|j: int| 0 <= j < i ==> !delim_at(s, j),
    ensures
        find_delim(s) == Some(i),
    decreases i,
{
    if i == 0 {
    } else {
        assert(!delim_at(s, 0));
        let t = s.skip(1);
        assert(delim_at(t, i - 1));
        assert forall|j: int| 0 <= j < i - 1 implies !delim_at(t, j) by {
            assert(!delim_at(s, j + 1));
            assert(t[j] == s[j + 1] && t[j + 1] == s[j + 2]);
        }
        lemma_find_delim_at(t, i - 1);
    }
}

/// When no delimiter exists at all, `find_delim` reports none.
proof fn lemma_find_delim_none(s: Seq<u8>)
    requires
        forall|j: int| !delim_at(s, j),
    ensures
        find_delim(s) == None::<int>,
{
    lemma_find_delim_props(s);
    if find_delim(s) is Some {
        assert(delim_at(s, find_delim(s)->Some_0));
    }
}

/// The first delimiter of a string stays the first delimiter of any
/// extension of it.
proof fn lemma_find_delim_extend(a: Seq<u8>, b: Seq<u8>)
    requires
        find_delim(a) is Some,
    ensures
        find_delim(a + b) == find_delim(a),
{
    let i = find_delim(a)->Some_0;
    lemma_find_delim_props(a);
    assert(delim_at(a + b, i));
    assert forall|j: int| 0 <= j < i implies !delim_at(a + b, j) by {
        assert(!delim_at(a, j));
        assert((a + b)[j] == a[j] && (a + b)[j + 1] == a[j + 1]);
    }
    lemma_find_delim_at(a + b, i);
}

/// A carriage return just before a line feed is not part of the line.
pub open spec fn strip_cr(l: Seq<u8>) -> Seq<u8> {
    if l.len() > 0 && l[l.len() - 1] == CR {
        l.take(l.len() - 1)
    } else {
        l
    }
}

/// Splits event text into lines at each newline, `cur` being the partial
/// line read so far.  A final line without a newline keeps a trailing
/// carriage return, as `str::lines` does.
pub open spec fn split_lines_from(s: Seq<u8>, cur: Seq<u8>) -> Seq<Seq<u8>>
    decreases s.len(),
{
    if s.len() == 0 {
        if cur.len() == 0 {
            seq![]
        } else {
            seq![cur]
        }
    } else if s[0] == NL {
        seq![strip_cr(cur)] + split_lines_from(s.skip(1), seq![])
    } else {
        split_lines_from(s.skip(1), cur.push(s[0]))
    }
}

/// The lines of one event's text.
pub open spec fn split_lines(s: Seq<u8>) -> Seq<Seq<u8>> {
    split_lines_from(s, seq![])
}

/// The payload of a line that carries data: what follows the `data: `
/// prefix, or nothing for any other line.
pub open spec fn line_payload(line: Seq<u8>) -> Option<Seq<u8>> {
    if line.len() >= 6 && line.take(6) == data_prefix() {
        Some(line.skip(6))
    } else {
        None
    }
}

/// What one line contributes: possibly a chunk, and whether it is the
/// termination sentinel.  A line without the data prefix, and a data line
/// whose payload fails to parse, contribute nothing.
pub open spec fn line_step(line: Seq<u8>) -> (Option<ChunkModel>, bool) {
    match line_payload(line) {
        Some(p) => if p == done_sentinel() {
            (None, true)
        } else {
            (chunk_of(p), false)
        },
        None => (None, false),
    }
}

/// The chunks one event's lines contribute, in order, and whether the event
/// contains the termination sentinel.  Lines after a sentinel line are not
/// examined.
pub open spec fn event_chunks(lines: Seq<Seq<u8>>) -> (Seq<ChunkModel>, bool)
    decreases lines.len(),
{
    if lines.len() == 0 {
        (seq![], false)
    } else {
        let (c0, d0) = line_step(lines[0]);
        if d0 {
            (seq![], true)
        } else {
            let rest = event_chunks(lines.skip(1));
            match c0 {
                Some(c) => (seq![c] + rest.0, rest.1),
                None => rest,
            }
        }
    }
}

/// The decoder's mathematical state: the unconsumed text and whether the
/// stream has terminated.
#[verifier::ext_equal]
pub struct DecoderModel {
    pub buf: Seq<u8>,
    pub done: bool,
}

/// The decoder's state after no input at all.
pub open spec fn initial_model() -> DecoderModel {
    DecoderModel { buf: seq![], done: false }
}

/// Repeatedly extracts the next complete event from the buffer and decodes
/// it, until no complete event remains or the sentinel terminates the
/// stream.  Returns the resulting state and the chunks emitted, in order.
pub open spec fn drain(m: DecoderModel) -> (DecoderModel, Seq<ChunkModel>)
    decreases m.buf.len(),
{
    if m.done {
        (DecoderModel { buf: seq![], done: true }, seq![])
    } else {
        match find_delim(m.buf) {
            None => (m, seq![]),
            Some(i) => {
                if !delim_at(m.buf, i) {
                    // never the case: see lemma_find_delim_props
                    (m, seq![])
                } else {
                    let (cs, d) = event_chunks(split_lines(m.buf.take(i)));
                    if d {
                        (DecoderModel { buf: seq![], done: true }, cs)
                    } else {
                        let (m2, cs2) = drain(DecoderModel { buf: m.buf.skip(i + 2), done: false });
                        (m2, cs + cs2)
                    }
                }
            },
        }
    }
}

/// One batch of input: append it to the buffer and drain.  After the
/// sentinel has terminated the stream, input is ignored.
pub open spec fn push_model(m: DecoderModel, input: Seq<u8>) -> (DecoderModel, Seq<ChunkModel>) {
    if m.done {
        (m, seq![])
    } else {
        drain(DecoderModel { buf: m.buf + input, done: false })
    }
}

/// Draining a buffer and then pushing more bytes is the same as draining
/// the buffer with those bytes already appended.
proof fn lemma_drain_concat(buf: Seq<u8>, b: Seq<u8>)
    ensures
        ({
            let (m1, c1) = drain(DecoderModel { buf: buf, done: false });
            let (m2, c2) = push_model(m1, b);
            let (m3, c3) = drain(DecoderModel { buf: buf + b, done: false });
            m2 == m3 && c1 + c2 == c3
        }),
    decreases buf.len(),
{
    let (m1, c1) = drain(DecoderModel { buf: buf, done: false });
    let (m2, c2) = push_model(m1, b);
    let (m3, c3) = drain(DecoderModel { buf: buf + b, done: false });
    lemma_find_delim_props(buf);
    match find_delim(buf) {
        None => {
            assert(m1 == DecoderModel { buf: buf, done: false });
            assert(c1 =~= Seq::<ChunkModel>::empty());
            assert(c1 + c2 =~= c3);
        },
        Some(i) => {
            assert(delim_at(buf, i));
            lemma_find_delim_extend(buf, b);
            assert(delim_at(buf + b, i));
            assert((buf + b).take(i) =~= buf.take(i));
            let (cs, d) = event_chunks(split_lines(buf.take(i)));
            if d {
                assert(m1 == DecoderModel { buf: seq![], done: true });
                assert(c1 == cs);
                assert(m2 == m1);
                assert(c2 =~= Seq::<ChunkModel>::empty());
                assert(m3 == DecoderModel { buf: seq![], done: true });
                assert(c3 == cs);
                assert(c1 + c2 =~= c3);
            } else {
                let rest = buf.skip(i + 2);
                assert((buf + b).skip(i + 2) =~= rest + b);
                lemma_drain_concat(rest, b);
                let (r1, d1) = drain(DecoderModel { buf: rest, done: false });
                let (r2, d2) = push_model(r1, b);
                let (r3, d3) = drain(DecoderModel { buf: rest + b, done: false });
                assert(m1 == r1 && c1 == cs + d1);
                assert(m3 == r3 && c3 == cs + d3);
                assert(c1 + c2 =~= cs + (d1 + d2));
                assert(cs + (d1 + d2) =~= cs + d3);
            }
        },
    }
}

/// Law: pushing a batch of bytes in two parts emits the same chunks, in the
/// same order, and reaches the same state, as pushing it whole.
pub proof fn lemma_push_split(m: DecoderModel, a: Seq<u8>, b: Seq<u8>)
    ensures
        ({
            let (m1, c1) = push_model(m, a);
            let (m2, c2) = push_model(m1, b);
            let (m3, c3) = push_model(m, a + b);
            m2 == m3 && c1 + c2 == c3
        }),
{
    if m.done {
        let (m1, c1) = push_model(m, a);
        let (m2, c2) = push_model(m1, b);
        let (m3, c3) = push_model(m, a + b);
        assert(c1 + c2 =~= c3);
    } else {
        lemma_drain_concat(m.buf + a, b);
        assert((m.buf + a) + b =~= m.buf + (a + b));
    }
}

/// The bytes of a sequence of batches, in order.
pub open spec fn concat_frags(frags: Seq<Seq<u8>>) -> Seq<u8>
    decreases frags.len(),
{
    if frags.len() == 0 {
        seq![]
    } else {
        frags[0] + concat_frags(frags.skip(1))
    }
}

/// The state and the chunks after pushing each batch in order.
pub open spec fn push_all(m: DecoderModel, frags: Seq<Seq<u8>>) -> (DecoderModel, Seq<ChunkModel>)
    decreases frags.len(),
{
    if frags.len() == 0 {
        (m, seq![])
    } else {
        let (m1, c1) = push_model(m, frags[0]);
        let (m2, c2) = push_all(m1, frags.skip(1));
        (m2, c1 + c2)
    }
}

/// Law: for every way of cutting a byte stream into batches, pushing the
/// batches one by one yields exactly the chunks, in the order, and the state
/// that pushing the whole stream at once yields.
pub proof fn lemma_chunking_invariance(m: DecoderModel, frags: Seq<Seq<u8>>)
    requires
        frags.len() > 0,
    ensures
        push_all(m, frags).0 == push_model(m, concat_frags(frags)).0,
        push_all(m, frags).1 == push_model(m, concat_frags(frags)).1,
    decreases frags.len(),
{
    let (m1, c1) = push_model(m, frags[0]);
    if frags.len() == 1 {
        assert(frags.skip(1).len() == 0);
        assert(concat_frags(frags.skip(1)) =~= Seq::<u8>::empty());
        assert(concat_frags(frags) =~= frags[0]);
        assert(concat_frags(frags) == frags[0]);
        assert(push_all(m1, frags.skip(1)).1 =~= Seq::<ChunkModel>::empty());
        assert(push_all(m, frags).1 =~= c1);
    } else {
        lemma_chunking_invariance(m1, frags.skip(1));
        let rest = concat_frags(frags.skip(1));
        lemma_push_split(m, frags[0], rest);
        let (m2, c2) = push_model(m1, rest);
        let (m3, c3) = push_model(m, frags[0] + rest);
        assert(push_all(m, frags).1 =~= c1 + push_all(m1, frags.skip(1)).1);
        assert(c1 + push_all(m1, frags.skip(1)).1 =~= c1 + c2);
    }
}

/// Law: after the sentinel has terminated the stream, any further input
/// yields no chunks and leaves the state unchanged.
pub proof fn lemma_no_output_after_done(m: DecoderModel, input: Seq<u8>)
    requires
        m.done,
    ensures
        push_model(m, input).0 == m,
        push_model(m, input).1 == Seq::<ChunkModel>::empty(),
{
    assert(push_model(m, input).1 =~= Seq::<ChunkModel>::empty());
}

/// Law: within one event, the first sentinel line terminates decoding: the
/// event reports termination, contributes exactly the chunks of the lines
/// before the sentinel, and the lines after it are never examined.
pub proof fn lemma_sentinel_ends_event(lines: Seq<Seq<u8>>, i: int)
    requires
        0 <= i < lines.len(),
        line_step(lines[i]).1,
        forall|j: int| 0 <= j < i ==> !(#[trigger] line_step(lines[j])).1,
    ensures
        event_chunks(lines).1,
        event_chunks(lines).0 == event_chunks(lines.take(i + 1)).0,
    decreases i,
{
    if i == 0 {
    } else {
        let rest = lines.skip(1);
        assert(lines.take(i + 1).skip(1) =~= rest.take(i));
        assert(rest[i - 1] == lines[i]);
        assert forall|j: int| 0 <= j < i - 1 implies !(#[trigger] line_step(rest[j])).1 by {
            assert(rest[j] == lines[j + 1]);
            assert(!line_step(lines[j + 1]).1);
        }
        lemma_sentinel_ends_event(rest, i - 1);
        assert(!line_step(lines[0]).1);
        assert(lines.take(i + 1)[0] == lines[0]);
        let (c0, d0) = line_step(lines[0]);
        match c0 {
            Some(c) => {
                assert(event_chunks(lines).0 =~= seq![c] + event_chunks(rest).0);
                assert(event_chunks(lines.take(i + 1)).0 =~= seq![c] + event_chunks(
                    rest.take(i),
                ).0);
            },
            None => {},
        }
    }
}

/// Whether a line contributes nothing to its event: it lacks the data
/// prefix, or its payload is neither the sentinel nor a well-formed chunk.
pub open spec fn contributes_nothing(line: Seq<u8>) -> bool {
    line_step(line) == (None::<ChunkModel>, false)
}

/// Law: a malformed data line — or any other line that contributes nothing —
/// can be removed from an event without changing what the event decodes to:
/// the lines after it are decoded exactly as without it.
pub proof fn lemma_malformed_line_skipped(lines: Seq<Seq<u8>>, i: int)
    requires
        0 <= i < lines.len(),
        contributes_nothing(lines[i]),
    ensures
        event_chunks(lines).0 == event_chunks(lines.remove(i)).0,
        event_chunks(lines).1 == event_chunks(lines.remove(i)).1,
    decreases i,
{
    if i == 0 {
        assert(lines.remove(0) =~= lines.skip(1));
    } else {
        let rest = lines.skip(1);
        assert(lines.remove(i)[0] == lines[0]);
        assert(lines.remove(i).skip(1) =~= rest.remove(i - 1));
        assert(rest[i - 1] == lines[i]);
        lemma_malformed_line_skipped(rest, i - 1);
        let (c0, d0) = line_step(lines[0]);
        if !d0 {
            match c0 {
                Some(c) => {
                    assert(event_chunks(lines).0 =~= seq![c] + event_chunks(rest).0);
                    assert(event_chunks(lines.remove(i)).0 =~= seq![c] + event_chunks(
                        rest.remove(i - 1),
                    ).0);
                },
                None => {},
            }
        }
    }
}

/// Splitting steps over the first newline: the accumulated partial line and
/// the text up to the newline form one line, the rest splits on its own.
proof fn lemma_split_lines_from_step(s: Seq<u8>, cur: Seq<u8>, i: int)
    requires
        0 <= i < s.len(),
        s[i] == NL,
        forall|j: int| 0 <= j < i ==> s[j] != NL,
    ensures
        split_lines_from(s, cur) == seq![strip_cr(cur + s.take(i))] + split_lines_from(
            s.skip(i + 1),
            seq![],
        ),
    decreases i,
{
    if i == 0 {
        assert(cur + s.take(0) =~= cur);
    } else {
        let t = s.skip(1);
        assert(t[i - 1] == s[i]);
        assert forall|j: int| 0 <= j < i - 1 implies t[j] != NL by {
            assert(t[j] == s[j + 1]);
        }
        lemma_split_lines_from_step(t, cur.push(s[0]), i - 1);
        assert(cur.push(s[0]) + t.take(i - 1) =~= cur + s.take(i));
        assert(t.skip(i) =~= s.skip(i + 1));
    }
}

/// Text without a newline, together with the accumulated partial line, is
/// one single line, kept as it stands.
proof fn lemma_split_lines_from_whole(s: Seq<u8>, cur: Seq<u8>)
    requires
        forall|j: int| 0 <= j < s.len() ==> s[j] != NL,
        s.len() + cur.len() > 0,
    ensures
        split_lines_from(s, cur) == seq![cur + s],
    decreases s.len(),
{
    if s.len() == 0 {
        assert(cur + s =~= cur);
    } else {
        let t = s.skip(1);
        assert forall|j: int| 0 <= j < t.len() implies t[j] != NL by {
            assert(t[j] == s[j + 1]);
        }
        lemma_split_lines_from_whole(t, cur.push(s[0]));
        assert(cur.push(s[0]) + t =~= cur + s);
    }
}

/// Finds the first event delimiter (two consecutive newlines) in a slice.
fn find_delim_exec(buf: &[u8]) -> (r: Option<usize>)
    ensures
        match r {
            Some(i) => find_delim(buf@) == Some(i as int),
            None => find_delim(buf@) == None::<int>,
        },
{
    let n = buf.len();
    let mut i: usize = 0;
    while i < n && i + 1 < n
        invariant
            n == buf@.len(),
            0 <= i <= n,
            forall|j: int| 0 <= j < i ==> !delim_at(buf@, j),
        decreases n - i,
    {
        if *slice_index_get(buf, i) == NL && *slice_index_get(buf, i + 1) == NL {
            proof {
                lemma_find_delim_at(buf@, i as int);
            }
            return Some(i);
        }
        i += 1;
    }
    proof {
        assert forall|j: int| !delim_at(buf@, j) by {
            if 0 <= j && j + 2 <= buf@.len() {
                assert(!delim_at(buf@, j));
            }
        }
        lemma_find_delim_none(buf@);
    }
    None
}

/// Finds the first newline in a slice.
fn find_nl_exec(s: &[u8]) -> (r: Option<usize>)
    ensures
        match r {
            Some(j) => 0 <= j < s@.len() && s@[j as int] == NL && (forall|k: int|
                0 <= k < j ==> s@[k] != NL),
            None => forall|k: int| 0 <= k < s@.len() ==> s@[k] != NL,
        },
{
    let n = s.len();
    let mut j: usize = 0;
    while j < n
        invariant
            n == s@.len(),
            0 <= j <= n,
            forall|k: int| 0 <= k < j ==> s@[k] != NL,
        decreases n - j,
    {
        if *slice_index_get(s, j) == NL {
            return Some(j);
        }
        j += 1;
    }
    None
}

/// Decides whether a line starts with the `data: ` prefix.
fn has_data_prefix(line: &[u8]) -> (r: bool)
    ensures
        r == (line_payload(line@) is Some),
{
    if line.len() < 6 {
        return false;
    }
    let r = *slice_index_get(line, 0) == 100 && *slice_index_get(line, 1) == 97
        && *slice_index_get(line, 2) == 116 && *slice_index_get(line, 3) == 97
        && *slice_index_get(line, 4) == 58 && *slice_index_get(line, 5) == 32;
    proof {
        if r {
            assert(line@.take(6) =~= data_prefix());
        } else {
            if line@.take(6) == data_prefix() {
                assert(line@[0] == line@.take(6)[0] && line@[1] == line@.take(6)[1] && line@[2]
                    == line@.take(6)[2] && line@[3] == line@.take(6)[3] && line@[4] == line@.take(
                    6,
                )[4] && line@[5] == line@.take(6)[5]);
                assert(false);
            }
        }
    }
    r
}

/// Decides whether a data payload is exactly the termination sentinel.
fn is_sentinel(p: &[u8]) -> (r: bool)
    ensures
        r == (p@ == done_sentinel()),
{
    if p.len() != 6 {
        proof {
            assert(p@ != done_sentinel());
        }
        return false;
    }
    let r = *slice_index_get(p, 0) == 91 && *slice_index_get(p, 1) == 68 && *slice_index_get(
        p,
        2,
    ) == 79 && *slice_index_get(p, 3) == 78 && *slice_index_get(p, 4) == 69 && *slice_index_get(
        p,
        5,
    ) == 93;
    proof {
        if r {
            assert(p@ =~= done_sentinel());
        } else {
            if p@ == done_sentinel() {
                assert(p@[0] == done_sentinel()[0] && p@[1] == done_sentinel()[1] && p@[2]
                    == done_sentinel()[2] && p@[3] == done_sentinel()[3] && p@[4] == done_sentinel()[
                    4] && p@[5] == done_sentinel()[5]);
                assert(false);
            }
        }
    }
    r
}

/// Decodes one line of an event: appends its chunk to `out` if it carries
/// one, and reports whether it is the termination sentinel.
fn handle_line(line: &[u8], out: &mut Vec<LMCChunk>) -> (done: bool)
    ensures
        done == line_step(line@).1,
        final(out).deep_view() == (match line_step(line@).0 {
            Some(cm) => old(out).deep_view().push(cm),
            None => old(out).deep_view(),
        }),
{
    if !has_data_prefix(line) {
        return false;
    }
    let payload = slice_subrange(line, 6, line.len());
    proof {
        assert(payload@ =~= line@.skip(6));
    }
    if is_sentinel(payload) {
        return true;
    }
    match parse_chunk(payload) {
        Some(c) => {
            let ghost cm = c.deep_view();
            proof {
                assert(chunk_of(payload@) == Some(cm));
            }
            out.push(c);
            proof {
                assert(out.deep_view() =~= old(out).deep_view().push(cm));
            }
        },
        None => {
        },
    }
    false
}

/// Decodes the lines of one complete event, in order, stopping at the
/// sentinel; appends each decoded chunk to `out`.
fn process_event(ev: &[u8], out: &mut Vec<LMCChunk>) -> (done: bool)
    ensures
        done == event_chunks(split_lines(ev@)).1,
        final(out).deep_view() == old(out).deep_view() + event_chunks(split_lines(ev@)).0,
    decreases ev@.len(),
{
    if ev.len() == 0 {
        proof {
            assert(out.deep_view() =~= old(out).deep_view() + event_chunks(split_lines(ev@)).0);
        }
        return false;
    }
    match find_nl_exec(ev) {
        None => {
            proof {
                lemma_split_lines_from_whole(ev@, Seq::empty());
                assert(Seq::empty() + ev@ =~= ev@);
                assert(split_lines(ev@) == seq![ev@]);
            }
            let d = handle_line(ev, out);
            proof {
                let lines = split_lines(ev@);
                assert(lines[0] == ev@);
                assert(lines.skip(1).len() == 0);
                assert(event_chunks(lines.skip(1)) == (Seq::<ChunkModel>::empty(), false));
                match line_step(ev@).0 {
                    Some(cm) => {
                        assert(out.deep_view() =~= old(out).deep_view() + event_chunks(lines).0);
                    },
                    None => {
                        assert(out.deep_view() =~= old(out).deep_view() + event_chunks(lines).0);
                    },
                }
            }
            d
        },
        Some(j) => {
            proof {
                lemma_split_lines_from_step(ev@, Seq::empty(), j as int);
                assert(Seq::empty() + ev@.take(j as int) =~= ev@.take(j as int));
            }
            let line_end: usize = if j > 0 && *slice_index_get(ev, j - 1) == CR {
                j - 1
            } else {
                j
            };
            let line = slice_subrange(ev, 0, line_end);
            proof {
                assert(line@ =~= strip_cr(ev@.take(j as int)));
            }
            let ghost lines = split_lines(ev@);
            proof {
                assert(lines[0] == line@);
                assert(lines.skip(1) =~= split_lines(ev@.skip(j + 1)));
            }
            let d = handle_line(line, out);
            if d {
                proof {
                    assert(out.deep_view() =~= old(out).deep_view() + event_chunks(lines).0);
                }
                true
            } else {
                let rest = slice_subrange(ev, j + 1, ev.len());
                proof {
                    assert(rest@ =~= ev@.skip(j + 1));
                }
                let ghost mid = out.deep_view();
                let d2 = process_event(rest, out);
                proof {
                    let rl = split_lines(rest@);
                    match line_step(line@).0 {
                        Some(cm) => {
                            assert(mid =~= old(out).deep_view().push(cm));
                            assert(event_chunks(lines).0 =~= seq![cm] + event_chunks(rl).0);
                            assert(out.deep_view() =~= old(out).deep_view() + event_chunks(
                                lines,
                            ).0);
                        },
                        None => {
                            assert(event_chunks(lines).0 =~= event_chunks(rl).0);
                            assert(out.deep_view() =~= old(out).deep_view() + event_chunks(
                                lines,
                            ).0);
                        },
                    }
                }
                d2
            }
        },
    }
}

/// Extracts and decodes every complete event in `buf`, appending the chunks
/// to `out`; returns the leftover bytes and whether the sentinel was seen.
fn drain_exec(buf: Vec<u8>, out: &mut Vec<LMCChunk>) -> (r: (Vec<u8>, bool))
    ensures
        ({
            let (m2, cs) = drain(DecoderModel { buf: buf@, done: false });
            r.0@ == m2.buf && r.1 == m2.done && final(out).deep_view() == old(out).deep_view()
                + cs
        }),
    decreases buf@.len(),
{
    proof {
        lemma_find_delim_props(buf@);
    }
    match find_delim_exec(buf.as_slice()) {
        None => {
            proof {
                assert(out.deep_view() =~= old(out).deep_view() + Seq::<ChunkModel>::empty());
            }
            (buf, false)
        },
        Some(i) => {
            proof {
                assert(delim_at(buf@, i as int));
            }
            let ev = slice_subrange(buf.as_slice(), 0, i);
            proof {
                assert(ev@ =~= buf@.take(i as int));
            }
            let d = process_event(ev, out);
            if d {
                proof {
                    assert(out.deep_view() =~= old(out).deep_view() + drain(
                        DecoderModel { buf: buf@, done: false },
                    ).1);
                }
                (Vec::new(), true)
            } else {
                let n = buf.len();
                let rest = slice_to_vec(slice_subrange(buf.as_slice(), i + 2, n));
                proof {
                    assert(rest@ =~= buf@.skip(i + 2));
                }
                let ghost mid = out.deep_view();
                let r2 = drain_exec(rest, out);
                proof {
                    let (m2, cs2) = drain(DecoderModel { buf: rest@, done: false });
                    let (cs, dd) = event_chunks(split_lines(buf@.take(i as int)));
                    assert(mid =~= old(out).deep_view() + cs);
                    assert(out.deep_view() =~= (old(out).deep_view() + cs) + cs2);
                    assert((old(out).deep_view() + cs) + cs2 =~= old(out).deep_view() + (cs
                        + cs2));
                }
                r2
            }
        },
    }
}

/// The incremental stream decoder: an accumulating buffer plus the
/// terminated flag.  Feed it byte batches as they arrive; it hands back the
/// chunks whose enclosing events completed, in arrival order.
pub struct StreamDecoder {
    buffer: Vec<u8>,
    done: bool,
}

impl View for StreamDecoder {
    type V = DecoderModel;

    closed spec fn view(&self) -> DecoderModel {
        DecoderModel { buf: self.buffer@, done: self.done }
    }
}

impl StreamDecoder {
    /// A fresh decoder: empty buffer, stream not terminated.
    pub fn new() -> (r: Self)
        ensures
            r@ == initial_model(),
    {
        let r = StreamDecoder { buffer: Vec::new(), done: false };
        proof {
            assert(r@ =~= initial_model());
        }
        r
    }

    /// Whether the termination sentinel has been decoded.
    pub fn is_done(&self) -> (r: bool)
        ensures
            r == self@.done,
    {
        self.done
    }

    /// Feeds one batch of bytes to the decoder and returns the chunks of
    /// every event the batch completes, in arrival order.  Once the
    /// sentinel has terminated the stream, input is ignored.
    pub fn push(&mut self, input: &[u8]) -> (chunks: Vec<LMCChunk>)
        ensures
            final(self)@ == push_model(old(self)@, input@).0,
            chunks.deep_view() == push_model(old(self)@, input@).1,
    {
        let mut out: Vec<LMCChunk> = Vec::new();
        if self.done {
            proof {
                assert(out.deep_view() =~= push_model(old(self)@, input@).1);
            }
            return out;
        }
        let mut buf: Vec<u8> = Vec::new();
        buf.append(&mut self.buffer);
        buf.extend_from_slice(input);
        proof {
            assert(buf@ =~= old(self)@.buf + input@);
        }
        let (rest, d) = drain_exec(buf, &mut out);
        self.buffer = rest;
        self.done = d;
        proof {
            let (m2, cs) = push_model(old(self)@, input@);
            assert(self@ =~= m2);
            assert(out.deep_view() =~= Seq::<ChunkModel>::empty() + cs);
            assert(Seq::<ChunkModel>::empty() + cs =~= cs);
        }
        out
    }
}

} // verus!
