use std::path::PathBuf;

use txget::answers::{holds_text, select_shortest_answers};
use txget::entry::Entry;
use txget::json::{parse_json, print_json, Json};
use txget::page::{
    clean_html_text, clean_option, extract_question_nodes, has_braces_in_order,
    iter_answer_candidates, locate_json, make_entry, parse_page_config, process_file, read_page,
    strip_markup, value_text, PageError,
};
use txget::text::tidy_lines;

fn strings(items: &[&str]) -> Vec<String> {
    items.iter().map(|s| s.to_string()).collect()
}

fn text(s: &str) -> Json {
    Json::Str(s.to_string())
}

fn json(s: &str) -> Json {
    parse_json(s).unwrap()
}

// --- JSON ---

#[test]
fn json_is_printed_compactly_with_sorted_keys() {
    let v = json(" { \"b\" : [1, 2.5, null, true, false], \"a\" : {\"x\": \"\\u4e2d\\n\"} } ");
    assert_eq!(print_json(&v), "{\"a\":{\"x\":\"中\\n\"},\"b\":[1,2.5,null,true,false]}");
}

#[test]
fn json_literals_print_as_their_names() {
    assert_eq!(print_json(&Json::Null), "null");
    assert_eq!(print_json(&Json::Bool(true)), "true");
    assert_eq!(print_json(&Json::Bool(false)), "false");
}

#[test]
fn json_strings_are_quoted() {
    assert_eq!(print_json(&text("say \"hi\"")), "\"say \\\"hi\\\"\"");
}

#[test]
fn json_members_are_arranged_before_printing() {
    let v = Json::Object(vec![
        ("b".to_string(), Json::Null),
        ("a".to_string(), Json::Bool(false)),
        ("b".to_string(), Json::Bool(true)),
    ]);
    assert_eq!(print_json(&v), "{\"a\":false,\"b\":true}");
}

#[test]
fn json_of_repeated_keys_the_last_counts() {
    let v = json("{\"k\": 1, \"k\": 2}");
    assert_eq!(print_json(&v), "{\"k\":2}");
}

#[test]
fn json_printed_and_parsed_again_is_the_same() {
    let once = print_json(&json("{\"z\":[{\"q\":\"\",\"p\":-1e3}],\"\":0}"));
    assert_eq!(print_json(&json(&once)), once);
}

#[test]
fn json_errors_are_passed_on() {
    assert_eq!(parse_json("[1,").unwrap_err(), "EOF while parsing a value at line 1 column 3");
    assert!(parse_json("").is_err());
}

#[test]
fn json_members_are_found_only_in_objects() {
    let v = json("{\"a\": [1], \"b\": {}}");
    assert!(v.get("a").unwrap().as_array().is_some());
    assert!(v.get("b").unwrap().is_object());
    assert!(v.get("c").is_none());
    assert!(v.get("a").unwrap().get("a").is_none());
    assert!(v.as_array().is_none());
    assert!(!v.get("a").unwrap().is_object());
}

#[test]
fn json_white_space_around_a_text_makes_no_difference() {
    for text in ["{\"a\":1}", "[1]", "7", "null", "\"x\""] {
        let padded = format!("\n\t {} \r\n", text);
        assert_eq!(print_json(&json(&padded)), print_json(&json(text)));
    }
    for text in ["", "{", "\"x", "1 2", "nul"] {
        assert!(parse_json(text).is_err());
        assert!(parse_json(&format!(" \r{}\n\t", text)).is_err());
    }
    assert!(parse_json("\u{a0}7").is_err());
}

#[test]
fn json_objects_are_written_in_braces() {
    for text in ["{}", " {\"a\":{}}\n"] {
        assert!(json(text).is_object());
    }
    for text in ["[{}]", "\"{}\"", "1", "true"] {
        assert!(!json(text).is_object());
    }
}

#[test]
fn json_clone_is_equal() {
    let v = json("{\"a\":[1,\"x\",{\"b\":null}],\"c\":true}");
    assert_eq!(print_json(&v.clone()), print_json(&v));
}

// --- Cleaning ---

#[test]
fn markup_is_matched_whatever_its_case_and_spacing() {
    let v = text("a< BR / >b</ DIV >c</h3>d</H7>e");
    assert_eq!(clean_html_text(Some(&v)), "a\nb\nc\nde");
}

#[test]
fn stripping_keeps_what_is_not_markup() {
    assert_eq!(strip_markup("a <> b > c"), "a <> b > c");
    assert_eq!(strip_markup("<p>x</p>y"), "x\ny");
    assert_eq!(strip_markup("&#65;&nbsp;&quot;"), "A\u{a0}\"");
}

#[test]
fn white_space_in_tags_is_that_of_unicode() {
    assert_eq!(strip_markup("a<\u{3000}br\u{a0}/\u{2003}>b</\u{85}P\u{1680}>c"), "a\nb\nc");
    assert_eq!(strip_markup("a< / br>b</p x>c<br//>d<br x>e"), "abcde");
}

#[test]
fn block_ends_are_those_of_four_elements() {
    assert_eq!(strip_markup("a</li>b</h1>c</H6>d</h0>e</h>f</pre>g</span>"), "a\nb\nc\ndefg");
    assert_eq!(strip_markup("a<p>b<div>c"), "abc");
}

#[test]
fn no_tag_is_left() {
    assert_eq!(strip_markup("<<a>b>c"), "b>c");
    assert_eq!(strip_markup("<><i>x</i>"), "<>x");
    assert_eq!(strip_markup("a<\nb\n>c"), "ac");
    assert_eq!(strip_markup("1 < 2"), "1 < 2");
    assert_eq!(strip_markup("1 < 2 > 1"), "1  1");
}

#[test]
fn stripping_leaves_plain_text_alone() {
    assert_eq!(strip_markup("  plain > text\n\n"), "  plain > text\n\n");
}

#[test]
fn entities_are_decoded_after_tags_are_gone() {
    let v = text("&lt;b&gt;bold&lt;/b&gt;");
    let once = clean_html_text(Some(&v));
    assert_eq!(once, "<b>bold</b>");
    assert_eq!(clean_html_text(Some(&text(&once))), "bold");
}

#[test]
fn lines_are_tidied() {
    assert_eq!(tidy_lines("  a \r\n\n \u{3000}\n\tb c\u{a0}\n"), "a\nb c");
    assert_eq!(tidy_lines(" \n \n"), "");
    assert_eq!(tidy_lines(""), "");
    let once = tidy_lines("\n x\n\n  y ");
    assert_eq!(tidy_lines(&once), once);
}

#[test]
fn cleaned_text_has_no_blank_line() {
    let v = text("<div> one </div><div>&nbsp;</div><p>two</p>");
    let r = clean_html_text(Some(&v));
    assert_eq!(r, "one\ntwo");
    assert!(r.lines().all(|l| !l.is_empty() && l.trim() == l));
}

#[test]
fn other_values_are_cleaned_as_their_json() {
    assert_eq!(clean_html_text(Some(&Json::Null)), "null");
    assert_eq!(clean_html_text(Some(&json("[\"<b>x</b>\"]"))), "[\"x\"]");
    assert_eq!(value_text(&json("{\"b\":1,\"a\":2}")), "{\"a\":2,\"b\":1}");
    assert_eq!(value_text(&text("a<b")), "a<b");
}

// --- Finding the configuration ---

#[test]
fn page_without_an_opening_brace() {
    let e = parse_page_config("nothing here }").unwrap_err();
    assert!(matches!(e, PageError::NoStart));
    assert_eq!(e.message(), "Cannot locate pageConfig JSON object (start)");
}

#[test]
fn page_without_a_closing_brace() {
    let e = parse_page_config("var x = {").unwrap_err();
    assert!(matches!(e, PageError::NoEnd));
    assert_eq!(e.message(), "Cannot locate pageConfig JSON object (end)");
}

#[test]
fn page_with_bad_json() {
    let e = parse_page_config("var pageConfig = {oops};").unwrap_err();
    assert!(matches!(e, PageError::BadJson(_)));
    assert_eq!(e.message(), "JSON parse error: key must be a string at line 1 column 2");
}

#[test]
fn page_with_braces_back_to_back() {
    assert!(has_braces_in_order("}{"));
    let e = parse_page_config("}{").unwrap_err();
    assert_eq!(e.message(), "JSON parse error: EOF while parsing a value at line 1 column 0");
}

#[test]
fn braces_in_order() {
    assert!(has_braces_in_order(""));
    assert!(has_braces_in_order("}"));
    assert!(has_braces_in_order("{"));
    assert!(has_braces_in_order("} {} {"));
    assert!(!has_braces_in_order("} {"));
}

#[test]
fn assignment_is_preferred_to_the_outermost_braces() {
    let raw = "function f() { }\n var  pageConfig={\"a\": \"}\"} ;\n\n";
    let v = parse_page_config(raw).unwrap();
    assert_eq!(print_json(&v), "{\"a\":\"}\"}");
}

#[test]
fn without_an_assignment_the_outermost_braces_count() {
    let v = parse_page_config("callback({\"a\": {}});").unwrap();
    assert_eq!(print_json(&v), "{\"a\":{}}");
}

#[test]
fn assigned_object_is_read() {
    for raw in [
        "var pageConfig = {\"a\":1};",
        "var pageConfig = {\"a\":1}",
        "\u{feff}x;var\u{a0}pageConfig={\"a\":1}\u{3000};\n",
        "myvar\n\npageConfig\t=\n{\"a\":1} ; ",
    ] {
        assert_eq!(print_json(&parse_page_config(raw).unwrap()), "{\"a\":1}");
    }
}

#[test]
fn assignment_has_to_reach_the_end() {
    let v = parse_page_config("var pageConfig = {\"a\":1}; go();").unwrap();
    assert_eq!(print_json(&v), "{\"a\":1}");
    let e = parse_page_config("{} var pageConfig = {\"a\":1};;").unwrap_err();
    assert_eq!(e.message(), "JSON parse error: trailing characters at line 1 column 4");
}

#[test]
fn text_around_the_object_makes_no_difference() {
    let object = "{\"a\":{\"b\":\"}{\"}}";
    for (before, after) in [
        ("", ""),
        (" \n\u{3000}", "\t "),
        ("var pageConfig = ", " ; "),
        ("var pageConfig = ", "; next({ "),
        ("// pageConfig }\nvar  pageConfig=", ";;"),
        ("callback(}", ");"),
        ("var pageConfig = [", "]"),
        ("", " var pageConfig = {"),
    ] {
        for spaced in [object.to_string(), format!(" \n{}\t\r", object)] {
            let raw = before.to_string() + &spaced + after;
            assert!(has_braces_in_order(&raw));
            let v = parse_page_config(&raw).unwrap();
            assert!(v.is_object());
            assert_eq!(print_json(&v), object);
            assert_eq!(print_json(&v), print_json(&json(&spaced)));
        }
    }
}

#[test]
fn first_assignment_counts() {
    let raw = "var pageConfig = {\"a\":1}; var pageConfig = {\"b\":2};";
    let e = parse_page_config(raw).unwrap_err();
    assert_eq!(e.message(), "JSON parse error: trailing characters at line 1 column 8");
    let raw = "var pageConfig = [{}]; var pageConfig = {\"b\":2};";
    assert_eq!(print_json(&parse_page_config(raw).unwrap()), "{\"b\":2}");
}

#[test]
fn bare_object_is_located_as_it_is() {
    let raw = "{\"a\": \"{\"}";
    assert_eq!(locate_json(raw, None).unwrap(), raw);
}

#[test]
fn captured_text_is_taken_as_it_is() {
    assert_eq!(locate_json("no braces", Some("{}".to_string())).unwrap(), "{}");
}

// --- Questions and candidates ---

#[test]
fn questions_come_from_the_page_and_its_sliders() {
    let page = json(
        "{\"questionObj\": {\"question_id\": 1}, \"sliders\": [
            {\"questionList\": [{\"question_id\": 2}, 7, {\"question_id\": 3}]},
            {\"questionList\": {}}, [], {\"questionList\": [{}]}]}",
    );
    let nodes = extract_question_nodes(&page);
    let printed: Vec<String> = nodes.iter().map(print_json).collect();
    assert_eq!(
        printed,
        strings(&["{\"question_id\":1}", "{\"question_id\":2}", "{\"question_id\":3}", "{}"])
    );
}

#[test]
fn pages_without_questions() {
    assert!(extract_question_nodes(&json("{}")).is_empty());
    assert!(extract_question_nodes(&json("[]")).is_empty());
    assert!(extract_question_nodes(&json("{\"questionObj\": \"x\", \"sliders\": 1}")).is_empty());
}

#[test]
fn candidates_in_their_order() {
    let q = json(
        "{\"record_speak\": [{\"content\": \"<p>spoken</p>\"}, {\"content\": \" \"}, {}, 3],
          \"options\": [\"plain\", {\"text\": \"t\", \"content\": \"c\"}, {\"title\": \"ti\"},
                        {\"value\": 5}, {\"other\": 1}, 9],
          \"answer_text\": \"final\"}",
    );
    assert_eq!(
        iter_answer_candidates(&q),
        strings(&["spoken", "plain", "c", "ti", "5", "final"])
    );
}

#[test]
fn placeholder_answers_are_no_candidates() {
    assert!(iter_answer_candidates(&json("{\"answer_text\": \"&lt;answers/&gt;\"}")).is_empty());
    assert!(iter_answer_candidates(&json("{\"answer_text\": \"answers/\"}")).is_empty());
    assert!(iter_answer_candidates(&json("{\"answer_text\": \"<answers/>\"}")).is_empty());
    assert!(iter_answer_candidates(&json("{}")).is_empty());
}

#[test]
fn options_by_their_first_member() {
    assert_eq!(clean_option(&json("{\"value\": \"v\", \"title\": \"t\"}")), "t");
    assert_eq!(clean_option(&json("{\"text\": \"\", \"title\": \"t\"}")), "");
    assert_eq!(clean_option(&json("{\"content\": null}")), "null");
    assert_eq!(clean_option(&json("true")), "");
}

// --- Selection ---

#[test]
fn shortest_answers_first_equally_long_ones_in_order() {
    let r = select_shortest_answers(strings(&["ccc", "bb", "aaa", "b", "bb", "dd"]), 4);
    assert_eq!(r, strings(&["b", "bb", "dd", "ccc"]));
}

#[test]
fn length_is_counted_in_bytes() {
    let r = select_shortest_answers(strings(&["中", "ab", "abcd"]), 2);
    assert_eq!(r, strings(&["ab", "中"]));
}

#[test]
fn selecting_none() {
    assert!(select_shortest_answers(strings(&["a"]), 0).is_empty());
    assert!(select_shortest_answers(Vec::new(), 3).is_empty());
}

#[test]
fn selecting_again_changes_nothing() {
    let once = select_shortest_answers(strings(&["xyz", "x", "x", "yy", ""]), 3);
    assert_eq!(once, strings(&["", "x", "yy"]));
    assert_eq!(select_shortest_answers(once.clone(), 3), once);
}

#[test]
fn lists_hold_their_texts() {
    let list = strings(&["a", "b"]);
    assert!(holds_text(&list, &"b".to_string()));
    assert!(!holds_text(&list, &"c".to_string()));
}

// --- Entries ---

#[test]
fn entry_of_a_question() {
    let q = json(
        "{\"question_id\": 12, \"question_text\": \"<b>Q</b>&amp;A\", \"analysis\": \"why<br>so\",
          \"options\": [\"ffffff\", \"a\", \"bb\", \"ccc\", \"dddd\", \"eeeee\", \"a\"],
          \"question_type\": \"3\", \"qtype_id\": 4}",
    );
    let e = make_entry(&q, "folder", "src");
    assert_eq!(e.question_id, "12");
    assert_eq!(e.question_text, "Q&A");
    assert_eq!(e.answers, strings(&["a", "bb", "ccc", "dddd", "eeeee"]));
    assert_eq!(e.analysis, "why\nso");
    assert_eq!(e.source_file, "src");
    assert_eq!(print_json(&e.question_type.unwrap()), "\"3\"");
    assert_eq!(print_json(&e.qtype_id.unwrap()), "4");
}

#[test]
fn entry_without_an_identifier_is_named_after_its_folder() {
    let e = make_entry(&json("{}"), "folder", "src");
    assert_eq!(e.question_id, "folder");
    assert_eq!(e.question_text, "");
    assert!(e.answers.is_empty());
    assert!(e.question_type.is_none());
    assert!(e.qtype_id.is_none());
}

#[test]
fn entry_with_a_null_identifier() {
    assert_eq!(make_entry(&json("{\"question_id\": null}"), "f", "s").question_id, "null");
}

#[test]
fn entry_clone_is_equal() {
    let e = make_entry(&json("{\"question_id\": \"q\", \"answer_text\": \"a\"}"), "f", "s");
    let c: Entry = e.clone();
    assert_eq!(c.question_id, "q");
    assert_eq!(c.answers, strings(&["a"]));
    assert_eq!(c.source_file, "s");
}

#[test]
fn page_is_read_question_by_question() {
    let page = json("{\"sliders\": [{\"questionList\": [{\"question_id\": \"b\"}, {}]}]}");
    let entries = read_page(&page, "folder", "src");
    let ids: Vec<&str> = entries.iter().map(|e| e.question_id.as_str()).collect();
    assert_eq!(ids, vec!["b", "folder"]);
}

#[test]
fn file_is_processed_from_its_raw_text() {
    let raw = "var pageConfig = {\"questionObj\": {\"question_text\": \"<p>Hi</p>\",
               \"answer_text\": \"there\"}};";
    let path = PathBuf::from("/data/set/questions/q7/questionData.js");
    let entries = process_file(&path, raw).unwrap();
    assert_eq!(entries.len(), 1);
    assert_eq!(entries[0].question_id, "q7");
    assert_eq!(entries[0].question_text, "Hi");
    assert_eq!(entries[0].answers, strings(&["there"]));
    assert_eq!(entries[0].source_file, "/data/set/questions/q7/questionData.js");
}

#[test]
fn file_without_a_folder_has_unknown_questions() {
    let entries = process_file(&PathBuf::from("questionData.js"), "{\"questionObj\":{}}").unwrap();
    assert_eq!(entries[0].question_id, "unknown");
    assert_eq!(entries[0].source_file, "questionData.js");
}

#[test]
fn file_errors_are_those_of_the_page() {
    let path = PathBuf::from("x/questionData.js");
    assert!(matches!(process_file(&path, "none"), Err(PageError::NoStart)));
    assert!(matches!(process_file(&path, "{"), Err(PageError::NoEnd)));
    assert!(matches!(process_file(&path, "{x}"), Err(PageError::BadJson(_))));
}
