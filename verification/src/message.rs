//! Messages of a conversation.

use vstd::prelude::*;
use vstd::std_specs::convert::FromSpecImpl;

use crate::json;
use crate::selection;
use crate::text;

verus! {

// ---------------------------------------------------------------------------
// Roles and images
// ---------------------------------------------------------------------------

/// Who sent a message.
#[derive(Debug, Clone, Copy, PartialEq, Eq, Structural)]
pub enum Role {
    User,
    Assistant,
}

/// The name of a role.
pub open spec fn role_name(role: Role) -> Seq<char> {
    match role {
        Role::User => "user"@,
        Role::Assistant => "assistant"@,
    }
}

impl Role {
    /// The name of the role.
    pub fn to_text(&self) -> (out: String)
        ensures
            out@ == role_name(*self),
    {
        match self {
            Role::User => String::from_str("user"),
            Role::Assistant => String::from_str("assistant"),
        }
    }
}

/// An encoded image.
#[derive(Debug, PartialEq, Eq)]
pub struct ImageSource {
    pub encoding: String,
    pub media_type: String,
    pub data: String,
}

/// What an image source says.
pub struct ImageView {
    pub encoding: Seq<char>,
    pub media_type: Seq<char>,
    pub data: Seq<char>,
}

impl View for ImageSource {
    type V = ImageView;

    open spec fn view(&self) -> ImageView {
        ImageView { encoding: self.encoding@, media_type: self.media_type@, data: self.data@ }
    }
}

impl Clone for ImageSource {
    fn clone(&self) -> (r: Self)
        ensures
            r@ == self@,
    {
        ImageSource {
            encoding: String::from_str(self.encoding.as_str()),
            media_type: String::from_str(self.media_type.as_str()),
            data: String::from_str(self.data.as_str()),
        }
    }
}

impl ImageSource {
    /// An image in base64.
    pub fn new_base64(media_type: &str, data: &str) -> (r: Self)
        ensures
            r@ == (ImageView { encoding: "base64"@, media_type: media_type@, data: data@ }),
    {
        ImageSource {
            encoding: String::from_str("base64"),
            media_type: String::from_str(media_type),
            data: String::from_str(data),
        }
    }
}

// ---------------------------------------------------------------------------
// Tool results
// ---------------------------------------------------------------------------

/// A part of what a tool returned.
#[derive(Debug, PartialEq, Eq)]
pub enum ToolResultPart {
    Image { source: ImageSource },
    Text { text: String },
}

/// What a part of a result says.
pub enum ResultPartView {
    Image { source: ImageView },
    Text { text: Seq<char> },
}

impl View for ToolResultPart {
    type V = ResultPartView;

    open spec fn view(&self) -> ResultPartView {
        match self {
            ToolResultPart::Image { source } => ResultPartView::Image { source: source@ },
            ToolResultPart::Text { text } => ResultPartView::Text { text: text@ },
        }
    }
}

impl Clone for ToolResultPart {
    fn clone(&self) -> (r: Self)
        ensures
            r@ == self@,
    {
        match self {
            ToolResultPart::Image { source } => ToolResultPart::Image { source: source.clone() },
            ToolResultPart::Text { text } => ToolResultPart::Text {
                text: String::from_str(text.as_str()),
            },
        }
    }
}

impl ToolResultPart {
    /// A part of text.
    pub fn text(text: &str) -> (r: Self)
        ensures
            r@ == (ResultPartView::Text { text: text@ }),
    {
        ToolResultPart::Text { text: String::from_str(text) }
    }

    /// A part with an image.
    pub fn image(source: ImageSource) -> (r: Self)
        ensures
            r@ == (ResultPartView::Image { source: source@ }),
    {
        ToolResultPart::Image { source }
    }
}

/// What the parts of a result say.
pub open spec fn result_parts(parts: Seq<ToolResultPart>) -> Seq<ResultPartView> {
    parts.map_values(|p: ToolResultPart| p@)
}

/// The texts among the parts of a result.
pub open spec fn part_texts(parts: Seq<ResultPartView>) -> Seq<Seq<char>>
    decreases parts.len(),
{
    if parts.len() == 0 {
        Seq::empty()
    } else {
        let before = part_texts(parts.drop_last());
        match parts.last() {
            ResultPartView::Text { text } => before.push(text),
            ResultPartView::Image { .. } => before,
        }
    }
}

/// What a tool returned.
#[derive(Debug, PartialEq, Eq)]
pub enum ToolResult {
    Text(String),
    Multipart(Vec<ToolResultPart>),
}

/// What a result says.
pub enum ResultView {
    Text(Seq<char>),
    Multipart(Seq<ResultPartView>),
}

impl View for ToolResult {
    type V = ResultView;

    open spec fn view(&self) -> ResultView {
        match self {
            ToolResult::Text(s) => ResultView::Text(s@),
            ToolResult::Multipart(parts) => ResultView::Multipart(result_parts(parts@)),
        }
    }
}

fn copy_parts(parts: &Vec<ToolResultPart>) -> (out: Vec<ToolResultPart>)
    ensures
        result_parts(out@) == result_parts(parts@),
{
    let mut out: Vec<ToolResultPart> = Vec::new();
    let mut i: usize = 0;
    assert(result_parts(out@) =~= result_parts(parts@).take(0));
    while i < parts.len()
        invariant
            i <= parts.len(),
            result_parts(out@) == result_parts(parts@).take(i as int),
        decreases parts.len() - i,
    {
        let copy = parts[i].clone();
        assert(result_parts(out@.push(copy)) =~= result_parts(out@).push(copy@));
        assert(result_parts(parts@).take(i + 1) =~= result_parts(parts@).take(i as int).push(
            copy@,
        ));
        out.push(copy);
        i = i + 1;
    }
    assert(result_parts(parts@).take(i as int) =~= result_parts(parts@));
    out
}

impl Clone for ToolResult {
    fn clone(&self) -> (r: Self)
        ensures
            r@ == self@,
    {
        match self {
            ToolResult::Text(s) => ToolResult::Text(String::from_str(s.as_str())),
            ToolResult::Multipart(parts) => ToolResult::Multipart(copy_parts(parts)),
        }
    }
}

/// A result as text: its texts, one to a line.
pub open spec fn result_text(result: ResultView) -> Seq<char> {
    match result {
        ResultView::Text(s) => s,
        ResultView::Multipart(parts) => text::joined(part_texts(parts), "\n"@),
    }
}

impl ToolResult {
    /// A result of text.
    pub fn from_string(s: &str) -> (r: Self)
        ensures
            r@ == ResultView::Text(s@),
    {
        ToolResult::Text(String::from_str(s))
    }

    /// A result of several parts.
    pub fn from_multipart(parts: Vec<ToolResultPart>) -> (r: Self)
        ensures
            r@ == ResultView::Multipart(result_parts(parts@)),
    {
        ToolResult::Multipart(parts)
    }

    /// Whether the result is one text.
    pub fn is_string(&self) -> (r: bool)
        ensures
            r == (self@ is Text),
    {
        match self {
            ToolResult::Text(_) => true,
            ToolResult::Multipart(_) => false,
        }
    }

    /// The result as text; images are left out.
    pub fn to_text(&self) -> (out: String)
        ensures
            out@ == result_text(self@),
    {
        match self {
            ToolResult::Text(s) => String::from_str(s.as_str()),
            ToolResult::Multipart(parts) => {
                let ghost all = result_parts(parts@);
                let mut found: Vec<String> = Vec::new();
                let mut i: usize = 0;
                assert(text::texts(found@) =~= part_texts(all.take(0)));
                while i < parts.len()
                    invariant
                        i <= parts.len(),
                        all == result_parts(parts@),
                        text::texts(found@) == part_texts(all.take(i as int)),
                    decreases parts.len() - i,
                {
                    assert(all.take(i + 1).drop_last() =~= all.take(i as int));
                    assert(all.take(i + 1).last() == parts@[i as int]@);
                    if let ToolResultPart::Text { text } = &parts[i] {
                        text::push_to_list(&mut found, text.as_str());
                    }
                    i = i + 1;
                }
                assert(all.take(i as int) =~= all);
                text::join(&found, "\n")
            },
        }
    }
}

impl Default for ToolResult {
    /// An empty text.
    fn default() -> (r: Self)
        ensures
            r@ == ResultView::Text(Seq::empty()),
    {
        ToolResult::Text(String::new())
    }
}

impl FromSpecImpl<String> for ToolResult {
    open spec fn obeys_from_spec() -> bool {
        true
    }

    open spec fn from_spec(s: String) -> Self {
        ToolResult::Text(s)
    }
}

impl From<String> for ToolResult {
    fn from(s: String) -> (r: Self) {
        ToolResult::Text(s)
    }
}

impl FromSpecImpl<&str> for ToolResult {
    open spec fn obeys_from_spec() -> bool {
        false
    }

    open spec fn from_spec(s: &str) -> Self {
        arbitrary()
    }
}

impl From<&str> for ToolResult {
    fn from(s: &str) -> (r: Self)
        ensures
            r@ == ResultView::Text(s@),
    {
        ToolResult::Text(String::from_str(s))
    }
}

// ---------------------------------------------------------------------------
// Messages
// ---------------------------------------------------------------------------

/// A part of a message. The input of a tool call is a JSON text.
#[derive(Debug)]
pub enum MessagePart {
    Text { text: String },
    Image { source: ImageSource },
    ToolCall { id: String, name: String, input: String },
    ToolResult { call_id: String, output: ToolResult, is_error: Option<bool> },
}

/// What a part of a message says.
pub enum PartView {
    Text { text: Seq<char> },
    Image { source: ImageView },
    ToolCall { id: Seq<char>, name: Seq<char>, input: Seq<char> },
    ToolResult { call_id: Seq<char>, output: ResultView, is_error: Option<bool> },
}

impl View for MessagePart {
    type V = PartView;

    open spec fn view(&self) -> PartView {
        match self {
            MessagePart::Text { text } => PartView::Text { text: text@ },
            MessagePart::Image { source } => PartView::Image { source: source@ },
            MessagePart::ToolCall { id, name, input } => PartView::ToolCall {
                id: id@,
                name: name@,
                input: input@,
            },
            MessagePart::ToolResult { call_id, output, is_error } => PartView::ToolResult {
                call_id: call_id@,
                output: output@,
                is_error: *is_error,
            },
        }
    }
}

impl Clone for MessagePart {
    fn clone(&self) -> (r: Self)
        ensures
            r@ == self@,
    {
        match self {
            MessagePart::Text { text } => MessagePart::Text {
                text: String::from_str(text.as_str()),
            },
            MessagePart::Image { source } => MessagePart::Image { source: source.clone() },
            MessagePart::ToolCall { id, name, input } => MessagePart::ToolCall {
                id: String::from_str(id.as_str()),
                name: String::from_str(name.as_str()),
                input: String::from_str(input.as_str()),
            },
            MessagePart::ToolResult { call_id, output, is_error } => MessagePart::ToolResult {
                call_id: String::from_str(call_id.as_str()),
                output: output.clone(),
                is_error: *is_error,
            },
        }
    }
}

/// What a part of a message is shown as.
pub open spec fn shown(part: PartView) -> Seq<char> {
    match part {
        PartView::Text { text } => text,
        PartView::ToolCall { name, input, .. } => "[Tool: "@ + name + " with input: "@
            + json::canonical(input) + "]"@,
        PartView::ToolResult { output, .. } => "[Tool Result: "@ + result_text(output) + "]"@,
        PartView::Image { source } => "[Image: "@ + source.media_type + "]"@,
    }
}

/// What the parts of a message are shown as.
pub open spec fn all_shown(parts: Seq<PartView>) -> Seq<Seq<char>> {
    parts.map_values(|p: PartView| shown(p))
}

impl MessagePart {
    /// A part of text.
    pub fn text(text: &str) -> (r: Self)
        ensures
            r@ == (PartView::Text { text: text@ }),
    {
        MessagePart::Text { text: String::from_str(text) }
    }

    /// A call of a tool with a JSON input.
    pub fn tool_call(id: &str, name: &str, input: &str) -> (r: Self)
        ensures
            r@ == (PartView::ToolCall { id: id@, name: name@, input: input@ }),
    {
        MessagePart::ToolCall {
            id: String::from_str(id),
            name: String::from_str(name),
            input: String::from_str(input),
        }
    }

    /// The result of a tool call.
    pub fn tool_result(call_id: &str, output: ToolResult, is_error: bool) -> (r: Self)
        ensures
            r@ == (PartView::ToolResult {
                call_id: call_id@,
                output: output@,
                is_error: Some(is_error),
            }),
    {
        MessagePart::ToolResult {
            call_id: String::from_str(call_id),
            output,
            is_error: Some(is_error),
        }
    }

    /// Whether the part is text.
    pub fn is_text(&self) -> (r: bool)
        ensures
            r == (self@ is Text),
    {
        matches!(self, MessagePart::Text { .. })
    }

    /// Whether the part calls a tool.
    pub fn is_tool_call(&self) -> (r: bool)
        ensures
            r == (self@ is ToolCall),
    {
        matches!(self, MessagePart::ToolCall { .. })
    }

    /// Whether the part is the result of a tool call.
    pub fn is_tool_result(&self) -> (r: bool)
        ensures
            r == (self@ is ToolResult),
    {
        matches!(self, MessagePart::ToolResult { .. })
    }

    /// The text of a part of text.
    pub fn as_text(&self) -> (r: Option<&str>)
        ensures
            match self@ {
                PartView::Text { text } => r is Some && r->0@ == text,
                _ => r is None,
            },
    {
        match self {
            MessagePart::Text { text } => Some(text.as_str()),
            _ => None,
        }
    }

    /// What the part is shown as.
    fn to_chunk(&self) -> (out: String)
        ensures
            out@ == shown(self@),
    {
        match self {
            MessagePart::Text { text } => String::from_str(text.as_str()),
            MessagePart::ToolCall { name, input, .. } => {
                let canonical = json::canonical_text(input.as_str());
                let mut out = String::from_str("[Tool: ");
                text::push_text(&mut out, name.as_str());
                text::push_text(&mut out, " with input: ");
                text::push_text(&mut out, canonical.as_str());
                text::push_text(&mut out, "]");
                out
            },
            MessagePart::ToolResult { output, .. } => {
                let mut out = String::from_str("[Tool Result: ");
                let body = output.to_text();
                text::push_text(&mut out, body.as_str());
                text::push_text(&mut out, "]");
                out
            },
            MessagePart::Image { source } => {
                let mut out = String::from_str("[Image: ");
                text::push_text(&mut out, source.media_type.as_str());
                text::push_text(&mut out, "]");
                out
            },
        }
    }
}

/// A message of a conversation.
#[derive(Debug)]
pub struct Message {
    pub role: Role,
    pub parts: Vec<MessagePart>,
}

/// What a message says.
pub struct MessageView {
    pub role: Role,
    pub parts: Seq<PartView>,
}

impl View for Message {
    type V = MessageView;

    open spec fn view(&self) -> MessageView {
        MessageView { role: self.role, parts: self.parts@.map_values(|p: MessagePart| p@) }
    }
}

impl Clone for Message {
    fn clone(&self) -> (r: Self)
        ensures
            r@ == self@,
    {
        let mut parts: Vec<MessagePart> = Vec::new();
        let mut i: usize = 0;
        while i < self.parts.len()
            invariant
                i <= self.parts.len(),
                parts.len() == i,
                forall|k: int| 0 <= k < i ==> (#[trigger] parts@[k])@ == self.parts@[k]@,
            decreases self.parts.len() - i,
        {
            parts.push(self.parts[i].clone());
            i = i + 1;
        }
        let r = Message { role: self.role, parts };
        assert(r@.parts =~= self@.parts);
        r
    }
}

impl Message {
    /// A message of text from the user.
    pub fn user(text: &str) -> (r: Self)
        ensures
            r@ == (MessageView { role: Role::User, parts: seq![PartView::Text { text: text@ }] }),
    {
        Message::of_text(Role::User, text)
    }

    /// A message of text from the assistant.
    pub fn assistant(text: &str) -> (r: Self)
        ensures
            r@ == (MessageView {
                role: Role::Assistant,
                parts: seq![PartView::Text { text: text@ }],
            }),
    {
        Message::of_text(Role::Assistant, text)
    }

    fn of_text(role: Role, text: &str) -> (r: Self)
        ensures
            r@ == (MessageView { role, parts: seq![PartView::Text { text: text@ }] }),
    {
        let mut parts: Vec<MessagePart> = Vec::new();
        parts.push(MessagePart::text(text));
        let r = Message { role, parts };
        assert(r@.parts =~= seq![PartView::Text { text: text@ }]);
        r
    }

    /// A message with these parts.
    pub fn new(role: Role, parts: Vec<MessagePart>) -> (r: Self)
        ensures
            r@ == (MessageView { role, parts: parts@.map_values(|p: MessagePart| p@) }),
    {
        Message { role, parts }
    }

    /// The message as text, each part on a line of its own.
    pub fn to_text(&self) -> (out: String)
        ensures
            out@ == text::joined(all_shown(self@.parts), "\n"@),
    {
        let ghost all = self@.parts;
        let mut chunks: Vec<String> = Vec::new();
        let mut i: usize = 0;
        assert(text::texts(chunks@) =~= all_shown(all.take(0)));
        while i < self.parts.len()
            invariant
                i <= self.parts.len(),
                all == self@.parts,
                text::texts(chunks@) == all_shown(all.take(i as int)),
            decreases self.parts.len() - i,
        {
            let chunk = self.parts[i].to_chunk();
            assert(all_shown(all.take(i + 1)) =~= all_shown(all.take(i as int)).push(chunk@));
            text::push_to_list(&mut chunks, chunk.as_str());
            i = i + 1;
        }
        assert(all.take(i as int) =~= all);
        text::join(&chunks, "\n")
    }
}

/// The texts of a result are those of its text parts, all of them and in their
/// order: the result names their places.
pub proof fn every_text_part_counts(parts: Seq<ResultPartView>) -> (places: Seq<int>)
    ensures
        selection::selects(places, parts.len(), |i: int| parts[i] is Text),
        part_texts(parts) == places.map_values(|i: int| parts[i]->text),
    decreases parts.len(),
{
    let rule = |i: int| parts[i] is Text;
    if parts.len() == 0 {
        selection::lemma_none(rule);
        let none = Seq::<int>::empty();
        assert(part_texts(parts) =~= none.map_values(|i: int| parts[i]->text));
        none
    } else {
        let fewer = parts.drop_last();
        let n = fewer.len();
        let before = every_text_part_counts(fewer);
        let shorter = |i: int| fewer[i] is Text;
        assert(selection::selects(before, n, rule)) by {
            assert forall|p: int| 0 <= p < n && #[trigger] rule(p) implies before.contains(p) by {
                assert(shorter(p));
            }
            assert forall|j: int| 0 <= j < before.len() implies 0 <= #[trigger] before[j] < n
                && rule(before[j]) by {
                assert(shorter(before[j]));
            }
        }
        selection::lemma_next(before, n, rule);
        let places = if rule(n as int) {
            before.push(n as int)
        } else {
            before
        };
        assert(part_texts(parts) =~= places.map_values(|i: int| parts[i]->text));
        places
    }
}

/// A result that is one text is that text; of several parts the texts are put
/// one to a line.
pub proof fn a_result_reads_as_its_texts(result: ResultView)
    ensures
        result matches ResultView::Text(s) ==> result_text(result) == s,
        result matches ResultView::Multipart(parts) ==> result_text(result) == text::joined(
            part_texts(parts),
            seq!['\n'],
        ),
{
    reveal_strlit("\n");
    assert("\n"@ =~= seq!['\n']);
}

/// A text is shown as it is, a call by its tool and its input, its result by
/// what it says, and an image by its type; every part in its place.
pub proof fn every_part_is_shown(parts: Seq<PartView>, i: int)
    requires
        0 <= i < parts.len(),
    ensures
        all_shown(parts).len() == parts.len(),
        parts[i] matches PartView::Text { text } ==> all_shown(parts)[i] == text,
        parts[i] matches PartView::ToolCall { name, input, .. } ==> all_shown(parts)[i]
            == "[Tool: "@ + name + " with input: "@ + json::canonical(input) + "]"@,
        parts[i] matches PartView::ToolResult { output, .. } ==> all_shown(parts)[i]
            == "[Tool Result: "@ + result_text(output) + "]"@,
        parts[i] matches PartView::Image { source } ==> all_shown(parts)[i] == "[Image: "@
            + source.media_type + "]"@,
        role_name(Role::User) == "user"@,
        role_name(Role::Assistant) == "assistant"@,
{
}

} // verus!
