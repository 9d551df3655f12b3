use std::path::PathBuf;

use txget::answers::select_shortest_answers;
use txget::classify::{
    contains_chinese, extract_qa_order_index, looks_like_qa, looks_like_read_aloud,
    looks_like_retelling,
};
use txget::entry::Entry;
use txget::json::Json;
use txget::page::{clean_html_text, parse_page_config};
use txget::paths::{extract_group_name, sanitize_filename};
use txget::retelling::fix_retelling_swap;

// --- clean_html_text ---

#[test]
fn test_clean_html_text_br_tags() {
    let val = Json::Str("Hello<br/>World".to_string());
    let result = clean_html_text(Some(&val));
    assert_eq!(result, "Hello\nWorld");
}

#[test]
fn test_clean_html_text_block_tags() {
    let val = Json::Str("<p>Para1</p><div>Para2</div>".to_string());
    let result = clean_html_text(Some(&val));
    assert_eq!(result, "Para1\nPara2");
}

#[test]
fn test_clean_html_text_strip_tags() {
    let val = Json::Str("<b>Bold</b> <i>Italic</i>".to_string());
    let result = clean_html_text(Some(&val));
    assert_eq!(result, "Bold Italic");
}

#[test]
fn test_clean_html_text_entities() {
    let val = Json::Str("A &amp; B &lt; C".to_string());
    let result = clean_html_text(Some(&val));
    assert_eq!(result, "A & B < C");
}

#[test]
fn test_clean_html_text_none() {
    assert_eq!(clean_html_text(None), "");
}

#[test]
fn test_clean_html_text_non_string_value() {
    let val = Json::Number(42.into());
    let result = clean_html_text(Some(&val));
    assert_eq!(result, "42");
}

// --- parse_page_config ---

#[test]
fn test_parse_page_config_var_assignment() {
    let raw = r#"var pageConfig = {"questionObj": {"question_id": "1"}};"#;
    let result = parse_page_config(raw).unwrap();
    assert!(result.get("questionObj").is_some());
}

#[test]
fn test_parse_page_config_plain_json() {
    let raw = r#"{"questionObj": {"question_id": "1"}}"#;
    let result = parse_page_config(raw).unwrap();
    assert!(result.get("questionObj").is_some());
}

#[test]
fn test_parse_page_config_invalid() {
    let raw = "not json at all";
    assert!(parse_page_config(raw).is_err());
}

// --- looks_like_read_aloud ---

#[test]
fn test_looks_like_read_aloud_long_english() {
    let e = Entry {
        question_id: "1".to_string(),
        question_text: "The quick brown fox jumps over the lazy dog and then continues running through the forest until it reaches the river where it stops to drink some water before continuing its journey home".to_string(),
        answers: vec![],
        analysis: "".to_string(),
        source_file: "".to_string(),
        question_type: None,
        qtype_id: None,
    };
    assert!(looks_like_read_aloud(&e));
}

#[test]
fn test_looks_like_read_aloud_short_not_read_aloud() {
    let e = Entry {
        question_id: "1".to_string(),
        question_text: "Hello".to_string(),
        answers: vec!["Answer".to_string()],
        analysis: "".to_string(),
        source_file: "".to_string(),
        question_type: None,
        qtype_id: None,
    };
    assert!(!looks_like_read_aloud(&e));
}

// --- looks_like_retelling ---

#[test]
fn test_looks_like_retelling() {
    let long_answer = "This is a retelling of the story about the fox and the various adventures it had throughout the forest. The fox met many friends along the way and learned important lessons about life.".to_string();
    let e = Entry {
        question_id: "1".to_string(),
        question_text: "请根据以下内容进行复述".to_string(),
        answers: vec![long_answer],
        analysis: "".to_string(),
        source_file: "".to_string(),
        question_type: None,
        qtype_id: None,
    };
    assert!(looks_like_retelling(&e));
}

#[test]
fn test_not_retelling_short_answer() {
    let e = Entry {
        question_id: "1".to_string(),
        question_text: "请根据以下内容进行复述".to_string(),
        answers: vec!["短答案".to_string()],
        analysis: "".to_string(),
        source_file: "".to_string(),
        question_type: None,
        qtype_id: None,
    };
    assert!(!looks_like_retelling(&e));
}

// --- looks_like_qa ---

#[test]
fn test_looks_like_qa_chinese() {
    let e = Entry {
        question_id: "1".to_string(),
        question_text: "请回答第一个问题".to_string(),
        answers: vec!["Answer".to_string()],
        analysis: "".to_string(),
        source_file: "".to_string(),
        question_type: None,
        qtype_id: None,
    };
    assert!(looks_like_qa(&e));
}

#[test]
fn test_looks_like_qa_english() {
    let e = Entry {
        question_id: "1".to_string(),
        question_text: "Get ready to answer the first question.".to_string(),
        answers: vec!["Answer".to_string()],
        analysis: "".to_string(),
        source_file: "".to_string(),
        question_type: None,
        qtype_id: None,
    };
    assert!(looks_like_qa(&e));
}

#[test]
fn test_not_qa() {
    let e = Entry {
        question_id: "1".to_string(),
        question_text: "Translate this sentence".to_string(),
        answers: vec!["翻译".to_string()],
        analysis: "".to_string(),
        source_file: "".to_string(),
        question_type: None,
        qtype_id: None,
    };
    assert!(!looks_like_qa(&e));
}

// --- select_shortest_answers ---

#[test]
fn test_select_shortest_dedup_and_limit() {
    let answers = vec![
        "short".to_string(),
        "medium length answer".to_string(),
        "short".to_string(), // duplicate
        "this is a very long answer that exceeds the others".to_string(),
    ];
    let result = select_shortest_answers(answers, 2);
    assert_eq!(result.len(), 2);
    assert_eq!(result[0], "short");
    assert!(result[1].len() > 5);
}

#[test]
fn test_select_shortest_fewer_than_limit() {
    let answers = vec!["only one".to_string()];
    let result = select_shortest_answers(answers, 5);
    assert_eq!(result.len(), 1);
    assert_eq!(result[0], "only one");
}

// --- extract_qa_order_index ---

#[test]
fn test_qa_order_english() {
    assert_eq!(extract_qa_order_index("Get ready to answer the third question"), 3);
    assert_eq!(extract_qa_order_index("first question"), 1);
}

#[test]
fn test_qa_order_chinese() {
    assert_eq!(extract_qa_order_index("第三个问题"), 3);
    assert_eq!(extract_qa_order_index("第一个问题"), 1);
}

#[test]
fn test_qa_order_unknown() {
    assert_eq!(extract_qa_order_index("some random text"), 999);
}

// --- sanitize_filename ---

#[test]
fn test_sanitize_filename_spaces_and_special() {
    assert_eq!(sanitize_filename("hello world!@#"), "hello_world___");
}

#[test]
fn test_sanitize_filename_clean() {
    assert_eq!(sanitize_filename("clean-name_123"), "clean-name_123");
}

#[test]
fn test_sanitize_filename_unicode() {
    // Unicode letters (CJK) are alphanumeric in Rust, so they pass through
    assert_eq!(sanitize_filename("中文题目"), "中文题目");
}

#[test]
fn test_sanitize_filename_only_special() {
    assert_eq!(sanitize_filename("!@#$%^"), "______");
}

// --- extract_group_name ---

#[test]
fn test_extract_group_name_with_questions_dir() {
    let path = PathBuf::from("/tmp/abc123/questions/def456/questionData.js");
    let result = extract_group_name(&path);
    assert_eq!(result, "abc123");
}

#[test]
fn test_extract_group_name_fallback() {
    let path = PathBuf::from("/tmp/def456/questionData.js");
    let result = extract_group_name(&path);
    assert_eq!(result, "def456");
}

// --- fix_retelling_swap ---

#[test]
fn test_fix_retelling_swap_no_swap() {
    let e = Entry {
        question_id: "1".to_string(),
        question_text: "Translate this".to_string(),
        answers: vec!["翻译".to_string()],
        analysis: "".to_string(),
        source_file: "".to_string(),
        question_type: None,
        qtype_id: None,
    };
    let (qt, ans) = fix_retelling_swap(&e);
    assert_eq!(qt, "Translate this");
    assert_eq!(ans, vec!["翻译".to_string()]);
}

#[test]
fn test_fix_retelling_swap_with_swap() {
    // The question is one of the candidates, so it is never shorter than the shortest of
    // them: what looks like a case for a swap is left alone.
    let very_long = "This is an extremely long passage text that describes a retelling prompt in great detail and contains enough characters to be considered very long by the heuristic and goes on and on about the story details that will become the new question after swapping occurs because it is much longer than the original short prompt text that was mistakenly placed in the question field".to_string();
    let short_ans = "x".repeat(10);
    let question_text = "请复述".to_string();
    let e = Entry {
        question_id: "1".to_string(),
        question_text: question_text.clone(),
        answers: vec![very_long.clone(), short_ans.clone()],
        analysis: "参考复述".to_string(),
        source_file: "".to_string(),
        question_type: None,
        qtype_id: None,
    };
    let (qt, ans) = fix_retelling_swap(&e);
    assert_eq!(qt, question_text);
    assert_eq!(ans.len(), 2);
}

// --- contains_chinese ---

#[test]
fn test_contains_chinese() {
    assert!(contains_chinese("这是一个中文句子"));
    assert!(!contains_chinese("This is English only"));
}
