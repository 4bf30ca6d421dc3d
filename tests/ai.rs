use pdf_viewer::ai::{
    chatgpt_answer, chatgpt_request, claude_answer, claude_request, detailed_query, gemini_answer,
    gemini_request,
};
use pdf_viewer::{
    Candidate, ChatChoice, ChatGPTResponse, ChatMessage, ClaudeContent, ClaudeResponse, Content,
    GeminiResponse, Part,
};

#[test]
fn requests_carry_the_query() {
    let g = gemini_request("q1".to_string());
    assert_eq!(g.contents[0].parts[0].text, "q1");
    let c = chatgpt_request("q2".to_string());
    assert_eq!((c.model.as_str(), c.max_tokens), ("gpt-3.5-turbo", 500));
    assert_eq!((c.messages[0].role.as_str(), c.messages[0].content.as_str()), ("user", "q2"));
    let a = claude_request("m-1".to_string(), "q3".to_string());
    assert_eq!((a.model.as_str(), a.max_tokens), ("m-1", 500));
    assert_eq!(a.messages[0].role, "user");
    assert_eq!(a.messages[0].content[0].content_type, "text");
    assert_eq!(a.messages[0].content[0].text, "q3");
}

#[test]
fn answers_take_the_first_text() {
    let g = GeminiResponse {
        candidates: vec![Candidate {
            content: Content { parts: vec![Part { text: "A".to_string() }, Part { text: "B".to_string() }] },
        }],
    };
    assert_eq!(gemini_answer(&g), Some("A".to_string()));
    assert_eq!(gemini_answer(&GeminiResponse { candidates: Vec::new() }), None);
    let c = ChatGPTResponse {
        choices: vec![ChatChoice {
            message: ChatMessage { role: "assistant".to_string(), content: "C".to_string() },
        }],
    };
    assert_eq!(chatgpt_answer(&c), Some("C".to_string()));
    assert_eq!(chatgpt_answer(&ChatGPTResponse { choices: Vec::new() }), None);
    let a = ClaudeResponse {
        content: vec![ClaudeContent { content_type: "text".to_string(), text: "D".to_string() }],
    };
    assert_eq!(claude_answer(&a), Some("D".to_string()));
    assert_eq!(claude_answer(&ClaudeResponse { content: Vec::new() }), None);
}

#[test]
fn detailed_query_appends_the_request_for_detail() {
    assert_eq!(detailed_query("Rust"), "Rustとはなんですか。詳細に説明してください");
}
