use vstd::prelude::*;

verus! {

/// The answer services a query can be sent to.
#[derive(Clone, Copy, Debug, PartialEq, Eq, Structural)]
pub enum AIProvider {
    Gemini,
    ChatGPT,
    Claude,
}

/// Most tokens an answer may take.
pub const MAX_ANSWER_TOKENS: u32 = 500;

pub struct GeminiRequest {
    pub contents: Vec<Content>,
}

pub struct Content {
    pub parts: Vec<Part>,
}

pub struct Part {
    pub text: String,
}

pub struct GeminiResponse {
    pub candidates: Vec<Candidate>,
}

pub struct Candidate {
    pub content: Content,
}

pub struct ChatGPTRequest {
    pub model: String,
    pub messages: Vec<ChatMessage>,
    pub max_tokens: u32,
}

pub struct ChatMessage {
    pub role: String,
    pub content: String,
}

pub struct ChatGPTResponse {
    pub choices: Vec<ChatChoice>,
}

pub struct ChatChoice {
    pub message: ChatMessage,
}

pub struct ClaudeRequest {
    pub model: String,
    pub messages: Vec<ClaudeMessage>,
    pub max_tokens: u32,
}

pub struct ClaudeMessage {
    pub role: String,
    pub content: Vec<ClaudeContent>,
}

pub struct ClaudeContent {
    pub content_type: String,
    pub text: String,
}

pub struct ClaudeResponse {
    pub content: Vec<ClaudeContent>,
}

/// A Gemini request holding the query as its single part.
pub fn gemini_request(query: String) -> (r: GeminiRequest)
    ensures
        r.contents@.len() == 1,
        r.contents@[0].parts@.len() == 1,
        r.contents@[0].parts@[0].text == query,
{
    let mut parts: Vec<Part> = Vec::new();
    parts.push(Part { text: query });
    let mut contents: Vec<Content> = Vec::new();
    contents.push(Content { parts });
    GeminiRequest { contents }
}

/// The text of the first part of the first candidate, if there is one.
pub fn gemini_answer(resp: &GeminiResponse) -> (r: Option<String>)
    ensures
        resp.candidates@.len() > 0 && resp.candidates@[0].content.parts@.len() > 0 ==> r == Some(
            resp.candidates@[0].content.parts@[0].text,
        ),
        !(resp.candidates@.len() > 0 && resp.candidates@[0].content.parts@.len() > 0) ==> r is None,
{
    if resp.candidates.len() > 0 && resp.candidates[0].content.parts.len() > 0 {
        Some(resp.candidates[0].content.parts[0].text.clone())
    } else {
        None
    }
}

/// A ChatGPT request: the query as the one user message.
pub fn chatgpt_request(query: String) -> (r: ChatGPTRequest)
    ensures
        r.model@ == "gpt-3.5-turbo"@,
        r.max_tokens == MAX_ANSWER_TOKENS,
        r.messages@.len() == 1,
        r.messages@[0].role@ == "user"@,
        r.messages@[0].content == query,
{
    let mut messages: Vec<ChatMessage> = Vec::new();
    messages.push(ChatMessage { role: String::from_str("user"), content: query });
    ChatGPTRequest { model: String::from_str("gpt-3.5-turbo"), messages, max_tokens: MAX_ANSWER_TOKENS }
}

/// The content of the first choice, if there is one.
pub fn chatgpt_answer(resp: &ChatGPTResponse) -> (r: Option<String>)
    ensures
        resp.choices@.len() > 0 ==> r == Some(resp.choices@[0].message.content),
        resp.choices@.len() == 0 ==> r is None,
{
    if resp.choices.len() > 0 {
        Some(resp.choices[0].message.content.clone())
    } else {
        None
    }
}

/// A messages request to the Anthropic service for `model`: the query as the one text block of one
/// user message.
pub fn claude_request(model: String, query: String) -> (r: ClaudeRequest)
    ensures
        r.model == model,
        r.max_tokens == MAX_ANSWER_TOKENS,
        r.messages@.len() == 1,
        r.messages@[0].role@ == "user"@,
        r.messages@[0].content@.len() == 1,
        r.messages@[0].content@[0].content_type@ == "text"@,
        r.messages@[0].content@[0].text == query,
{
    let mut content: Vec<ClaudeContent> = Vec::new();
    content.push(ClaudeContent { content_type: String::from_str("text"), text: query });
    let mut messages: Vec<ClaudeMessage> = Vec::new();
    messages.push(ClaudeMessage { role: String::from_str("user"), content });
    ClaudeRequest { model, messages, max_tokens: MAX_ANSWER_TOKENS }
}

/// The text of the first content block, if there is one.
pub fn claude_answer(resp: &ClaudeResponse) -> (r: Option<String>)
    ensures
        resp.content@.len() > 0 ==> r == Some(resp.content@[0].text),
        resp.content@.len() == 0 ==> r is None,
{
    if resp.content.len() > 0 {
        Some(resp.content[0].text.clone())
    } else {
        None
    }
}

/// The suffix that asks for a detailed explanation of a term.
pub open spec fn detail_suffix() -> Seq<char> {
    "とはなんですか。詳細に説明してください"@
}

/// The query that asks for a detailed explanation of `term`.
pub fn detailed_query(term: &str) -> (r: String)
    ensures
        r@ == term@ + detail_suffix(),
{
    let mut q = String::from_str(term);
    q.append("とはなんですか。詳細に説明してください");
    q
}

} // verus!
