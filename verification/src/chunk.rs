//! The typed unit of the backend's streaming output protocol.
//!
//! A chunk arrives on the wire as one JSON object on a `data:` line.  The
//! exec type [`LMCChunk`] carries the decoded fields; its mathematical model
//! is [`ChunkModel`], a record of character sequences and optional flags.

use vstd::prelude::*;

verus! {

/// Mathematical model of one decoded chunk: what the contracts speak of.
#[verifier::ext_equal]
pub struct ChunkModel {
    pub role: Seq<char>,
    pub chunk_type: Seq<char>,
    pub format: Option<Seq<char>>,
    pub content: Seq<char>,
    pub start: Option<bool>,
    pub end: Option<bool>,
}

/// One decoded unit of the backend's streaming output.
///
/// `role`, `chunk_type` and `content` are always present; `format`, `start`
/// and `end` are optional, and their absence is distinct from `false` or an
/// empty string.
#[derive(Debug, Clone)]
pub struct LMCChunk {
    pub role: String,
    pub chunk_type: String,
    pub format: Option<String>,
    pub content: String,
    pub start: Option<bool>,
    pub end: Option<bool>,
}

impl DeepView for LMCChunk {
    type V = ChunkModel;

    open spec fn deep_view(&self) -> ChunkModel {
        ChunkModel {
            role: self.role@,
            chunk_type: self.chunk_type@,
            format: self.format.deep_view(),
            content: self.content@,
            start: self.start,
            end: self.end,
        }
    }
}

/// What parsing a `data:` payload yields: `Some` model for a well-formed
/// chunk object, `None` for anything malformed.  The result depends on the
/// payload bytes alone.
pub uninterp spec fn chunk_of(payload: Seq<u8>) -> Option<ChunkModel>;

/// Relies on serde_json::from_slice and serde_json::Value's accessors: parses
/// one JSON object and reads the chunk fields out of it.  `role`, `type` and
/// `content` must be strings and present; `format` a string, `start` and
/// `end` booleans, each optional.  The result is a function of the payload
/// bytes alone.
#[verifier::external_body]
pub(crate) fn parse_chunk(payload: &[u8]) -> (r: Option<LMCChunk>)
    ensures
        r.deep_view() == chunk_of(payload@),
{
    let v: serde_json::Value = serde_json::from_slice(payload).ok()?;
    Some(LMCChunk {
        role: v.get("role")?.as_str()?.to_string(),
        chunk_type: v.get("type")?.as_str()?.to_string(),
        format: match v.get("format") { Some(f) => Some(f.as_str()?.to_string()), None => None },
        content: v.get("content")?.as_str()?.to_string(),
        start: match v.get("start") { Some(b) => Some(b.as_bool()?), None => None },
        end: match v.get("end") { Some(b) => Some(b.as_bool()?), None => None },
    })
}

} // verus!
