//! Chat-completion data types and the pure assembly steps of the HTTP front
//! end: building the prompt from messages, dressing stream tokens, and
//! shaping response objects.  The serialization itself lives outside the
//! verified library.

use vstd::prelude::*;
use vstd::string::StringExecFns;
use vstd::string::StringSliceAdditionalSpecFns;

use crate::bytes::{contains_seq, contains_sub};

verus! {

/// One part of a mixed-content message.  An image part carries a payload
/// the library never reads; the unverified layer keeps it.
pub enum ContentPart {
    /// A text part, the only kind the prompt uses.
    Text { text: String },
    /// An image reference; ignored when the prompt is assembled.
    ImageUrl,
}

/// The content of one chat message: a bare string or a list of parts.
pub enum MessageContent {
    Plain(String),
    Parts(Vec<ContentPart>),
}

/// One chat message: who speaks and what they say.
pub struct Message {
    pub role: String,
    pub content: MessageContent,
}

/// The text parts of a part list, in order.
pub open spec fn text_items(parts: Seq<ContentPart>) -> Seq<Seq<char>>
    decreases parts.len(),
{
    if parts.len() == 0 {
        Seq::empty()
    } else {
        let rest = text_items(parts.drop_last());
        match parts.last() {
            ContentPart::Text { text } => rest.push(text@),
            ContentPart::ImageUrl => rest,
        }
    }
}

/// Pieces joined with a line break between each pair.
pub open spec fn join_nl(xs: Seq<Seq<char>>) -> Seq<char>
    decreases xs.len(),
{
    if xs.len() == 0 {
        Seq::empty()
    } else if xs.len() == 1 {
        xs[0]
    } else {
        join_nl(xs.drop_last()) + "\n"@ + xs.last()
    }
}

/// The text of a message's content: the string itself, or the text parts
/// joined with line breaks.
pub open spec fn content_text(c: MessageContent) -> Seq<char> {
    match c {
        MessageContent::Plain(s) => s@,
        MessageContent::Parts(ps) => join_nl(text_items(ps@)),
    }
}

/// One line of the assembled prompt: `role: content`.
pub open spec fn message_line(m: Message) -> Seq<char> {
    m.role@ + ": "@ + content_text(m.content)
}

/// The prompt sent to the model: one line per message, joined with line
/// breaks.
pub open spec fn prompt_text(ms: Seq<Message>) -> Seq<char> {
    join_nl(ms.map_values(|m: Message| message_line(m)))
}

impl Message {
    /// The message content as one string: a bare string unchanged, a part
    /// list as its text parts joined with line breaks.
    pub fn content_as_string(&self) -> (r: String)
        ensures
            r@ == content_text(self.content),
    {
        match &self.content {
            MessageContent::Plain(s) => s.clone(),
            MessageContent::Parts(parts) => {
                let ghost pm = parts@;
                let mut out = String::new();
                let mut any = false;
                let n = parts.len();
                let mut i: usize = 0;
                proof {
                    assert(text_items(pm.take(0)) =~= Seq::<Seq<char>>::empty());
                }
                while i < n
                    invariant
                        n == parts@.len(),
                        pm == parts@,
                        i <= n,
                        any <==> text_items(pm.take(i as int)).len() > 0,
                        out@ == join_nl(text_items(pm.take(i as int))),
                    decreases n - i,
                {
                    proof {
                        assert(pm.take(i + 1).drop_last() =~= pm.take(i as int));
                        assert(pm.take(i + 1).last() == pm[i as int]);
                    }
                    match &parts[i] {
                        ContentPart::Text { text } => {
                            let ghost items = text_items(pm.take(i as int));
                            if any {
                                out.append("\n");
                            }
                            out.append(text.as_str());
                            proof {
                                let grown = text_items(pm.take(i + 1));
                                assert(grown =~= items.push(text@));
                                assert(grown.drop_last() =~= items);
                                assert(out@ == join_nl(grown));
                            }
                            any = true;
                        },
                        ContentPart::ImageUrl => {
                            proof {
                                assert(text_items(pm.take(i + 1)) =~= text_items(pm.take(i as int)));
                            }
                        },
                    }
                    i += 1;
                }
                proof {
                    assert(pm.take(n as int) =~= pm);
                }
                out
            },
        }
    }
}

/// Builds the prompt for the child model from the conversation: each
/// message as `role: content`, one per line.
pub fn build_prompt(messages: &Vec<Message>) -> (r: String)
    ensures
        r@ == prompt_text(messages@),
{
    let ghost ms = messages@;
    let ghost lines = ms.map_values(|m: Message| message_line(m));
    let mut out = String::new();
    let n = messages.len();
    let mut i: usize = 0;
    proof {
        assert(ms.take(0).map_values(|m: Message| message_line(m))
            =~= Seq::<Seq<char>>::empty());
    }
    while i < n
        invariant
            n == messages@.len(),
            ms == messages@,
            i <= n,
            out@ == join_nl(ms.take(i as int).map_values(|m: Message| message_line(m))),
        decreases n - i,
    {
        if i > 0 {
            out.append("\n");
        }
        let m = &messages[i];
        out.append(m.role.as_str());
        out.append(": ");
        let content = m.content_as_string();
        out.append(content.as_str());
        proof {
            let prev = ms.take(i as int).map_values(|m: Message| message_line(m));
            let grown = ms.take(i + 1).map_values(|m: Message| message_line(m));
            assert(grown.drop_last() =~= prev);
            assert(grown.last() == message_line(ms[i as int]));
            assert(out@ =~= join_nl(grown));
        }
        i += 1;
    }
    proof {
        assert(ms.take(n as int) =~= ms);
    }
    out
}

/// Token counts reported with a completion; this layer does not count
/// tokens, so all three are zero.
pub struct Usage {
    pub prompt_tokens: u32,
    pub completion_tokens: u32,
    pub total_tokens: u32,
}

/// One choice of a buffered completion response.
pub struct Choice {
    pub index: u32,
    pub message: Message,
    pub finish_reason: String,
}

/// A whole buffered completion response.
pub struct ChatCompletionResponse {
    pub id: String,
    pub object: String,
    pub created: u64,
    pub model: String,
    pub choices: Vec<Choice>,
    pub usage: Usage,
}

/// The delta carried by one streamed chunk.
pub struct Delta {
    /// The speaker, sent with the first chunk only.
    pub role: Option<String>,
    /// The newly produced text, as UTF-8 bytes.
    pub content: Option<Vec<u8>>,
}

/// One choice of a streamed chunk.
pub struct ChoiceChunk {
    pub index: u32,
    pub delta: Delta,
    pub finish_reason: Option<String>,
}

/// One streamed completion chunk.
pub struct ChatCompletionChunk {
    pub id: String,
    pub object: &'static str,
    pub created: u64,
    pub model: String,
    pub choices: Vec<ChoiceChunk>,
}

/// Builds the buffered completion response around a finished answer: one
/// choice, spoken by the assistant, finished by `stop`, with zero usage.
pub fn build_completion_response(id: String, created: u64, model: String, text: String) -> (r:
    ChatCompletionResponse)
    ensures
        r.id@ == id@,
        r.object@ == "chat.completion"@,
        r.created == created,
        r.model@ == model@,
        r.choices@.len() == 1,
        r.choices@[0].index == 0,
        r.choices@[0].message.role@ == "assistant"@,
        r.choices@[0].message.content is Plain,
        content_text(r.choices@[0].message.content) == text@,
        r.choices@[0].finish_reason@ == "stop"@,
        r.usage.prompt_tokens == 0 && r.usage.completion_tokens == 0 && r.usage.total_tokens == 0,
{
    let mut choices: Vec<Choice> = Vec::new();
    choices.push(
        Choice {
            index: 0,
            message: Message {
                role: String::from_str("assistant"),
                content: MessageContent::Plain(text),
            },
            finish_reason: String::from_str("stop"),
        },
    );
    ChatCompletionResponse {
        id,
        object: String::from_str("chat.completion"),
        created,
        model,
        choices,
        usage: Usage { prompt_tokens: 0, completion_tokens: 0, total_tokens: 0 },
    }
}

/// Dresses a stream of raw tokens for a structured-output client: the first
/// token gets the first declared field's opening marker, and when the
/// stream ends a completion marker is appended once.
pub struct StreamFormatter {
    /// The request was a structured-output template.
    pub is_dspy: bool,
    /// The first declared output field, if any.
    pub first_field: Option<Vec<u8>>,
    /// The opening marker has been sent.
    pub header_sent: bool,
    /// The closing completion marker has been sent.
    pub completion_sent: bool,
}

impl StreamFormatter {
    /// A formatter for one streamed completion.
    pub fn new(is_dspy: bool, first_field: Option<Vec<u8>>) -> (r: Self)
        ensures
            r.is_dspy == is_dspy,
            r.first_field == first_field,
            !r.header_sent,
            !r.completion_sent,
    {
        StreamFormatter { is_dspy, first_field, header_sent: false, completion_sent: false }
    }

    /// Passes one token through, prefixing the very first one with the
    /// field marker when the client expects structured output.
    pub fn on_token(&mut self, token: Vec<u8>) -> (r: Vec<u8>)
        ensures
            final(self).is_dspy == old(self).is_dspy,
            final(self).first_field == old(self).first_field,
            final(self).completion_sent == old(self).completion_sent,
            old(self).is_dspy && !old(self).header_sent && old(self).first_field is Some ==> r@
                == "[[ ## ".spec_bytes() + old(self).first_field->0@ + " ## ]]\n".spec_bytes()
                + token@ && final(self).header_sent,
            !(old(self).is_dspy && !old(self).header_sent && old(self).first_field is Some) ==> r@
                == token@ && final(self).header_sent == old(self).header_sent,
    {
        if self.is_dspy && !self.header_sent {
            match &self.first_field {
                Some(field) => {
                    let mut out: Vec<u8> = Vec::new();
                    out.extend_from_slice("[[ ## ".as_bytes());
                    out.extend_from_slice(field.as_slice());
                    out.extend_from_slice(" ## ]]\n".as_bytes());
                    out.extend_from_slice(token.as_slice());
                    self.header_sent = true;
                    out
                },
                None => token,
            }
        } else {
            token
        }
    }

    /// Called when the raw stream ends: a structured-output client is owed
    /// one final completion marker.
    pub fn on_end(&mut self) -> (r: Option<Vec<u8>>)
        ensures
            final(self).is_dspy == old(self).is_dspy,
            final(self).first_field == old(self).first_field,
            final(self).header_sent == old(self).header_sent,
            old(self).is_dspy && !old(self).completion_sent ==> r is Some && r->0@
                == "\n\n[[ ## completed ## ]]\n".spec_bytes() && final(self).completion_sent,
            !(old(self).is_dspy && !old(self).completion_sent) ==> r is None && final(self).completion_sent == old(self).completion_sent,
    {
        if self.is_dspy && !self.completion_sent {
            self.completion_sent = true;
            let mut out: Vec<u8> = Vec::new();
            out.extend_from_slice("\n\n[[ ## completed ## ]]\n".as_bytes());
            Some(out)
        } else {
            None
        }
    }
}

/// Wraps dressed tokens into streamed chunks: the first chunk names the
/// assistant role, and the chunk that carries the completion marker — the
/// first such one — carries the `stop` finish reason.
pub struct ChunkBuilder {
    /// No chunk has been produced yet.
    pub first_chunk: bool,
    /// A chunk with the `stop` finish reason has been produced.
    pub sent_completion: bool,
}

impl ChunkBuilder {
    /// A builder for one streamed completion.
    pub fn new() -> (r: Self)
        ensures
            r.first_chunk,
            !r.sent_completion,
    {
        ChunkBuilder { first_chunk: true, sent_completion: false }
    }

    /// Wraps one dressed token into a chunk.
    pub fn next_chunk(&mut self, id: &String, created: u64, model: &String, token: Vec<u8>) -> (r:
        ChatCompletionChunk)
        ensures
            !final(self).first_chunk,
            r.id@ == id@,
            r.object@ == "chat.completion.chunk"@,
            r.created == created,
            r.model@ == model@,
            r.choices@.len() == 1,
            r.choices@[0].index == 0,
            r.choices@[0].delta.content == Some(token),
            old(self).first_chunk ==> r.choices@[0].delta.role is Some
                && r.choices@[0].delta.role->0@ == "assistant"@,
            !old(self).first_chunk ==> r.choices@[0].delta.role is None,
            contains_seq(token@, "[[ ## completed ## ]]".spec_bytes()) && !old(self).sent_completion ==> r.choices@[0].finish_reason is Some
                && r.choices@[0].finish_reason->0@ == "stop"@ && final(self).sent_completion,
            !(contains_seq(token@, "[[ ## completed ## ]]".spec_bytes()) && !old(self).sent_completion) ==> r.choices@[0].finish_reason is None && final(self).sent_completion == old(self).sent_completion,
    {
        let is_completion = contains_sub(token.as_slice(), "[[ ## completed ## ]]".as_bytes());
        let finish_reason = if is_completion && !self.sent_completion {
            self.sent_completion = true;
            Some(String::from_str("stop"))
        } else {
            None
        };
        let role = if self.first_chunk {
            Some(String::from_str("assistant"))
        } else {
            None
        };
        self.first_chunk = false;
        let mut choices: Vec<ChoiceChunk> = Vec::new();
        choices.push(
            ChoiceChunk { index: 0, delta: Delta { role, content: Some(token) }, finish_reason },
        );
        ChatCompletionChunk { id: id.clone(), object: "chat.completion.chunk", created, model: model.clone(), choices }
    }
}

/// Relies on uuid's version-4 generator and its hyphenated lower-case
/// rendering, which is always 36 characters long.  The value is random;
/// nothing but its length is promised.
#[verifier::external_body]
fn fresh_uuid_string() -> (r: String)
    ensures
        r@.len() == 36,
{
    uuid::Uuid::new_v4().to_string()
}

/// A fresh completion identifier: `chatcmpl-` followed by a random
/// hyphenated identifier of 36 characters.
pub fn completion_id() -> (r: String)
    ensures
        r@.len() == 45,
        r@.subrange(0, 9) == "chatcmpl-"@,
{
    let mut out = String::from_str("chatcmpl-");
    let tail = fresh_uuid_string();
    out.append(tail.as_str());
    proof {
        reveal_strlit("chatcmpl-");
        assert(out@.subrange(0, 9) =~= "chatcmpl-"@);
    }
    out
}

} // verus!
