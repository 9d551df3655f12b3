use std::path::PathBuf;

use txget::archive::{
    check_entry_path, input_kind, is_page_name, InputKind, PathPart, PathTraversal,
};
use txget::classify::{
    any_contains_letter, any_long, contains_letter, extract_qa_order_index, has_qa_wording,
    hints_at_retelling, is_chinese, is_letter, looks_like_qa, looks_like_read_aloud,
    looks_like_retelling, qa_order_of, section_of, zh_digit_value, Section,
};
use txget::entry::Entry;
use txget::fonts::{bold_file, first_found, font_candidates, missing_font_message, search_dirs};
use txget::groups::{
    group_label, output_dir, output_file_name, output_names, summary_line, Groups,
};
use txget::json::Json;
use txget::layout::{
    heading_size, layout_document, layout_events, read_markdown, Layout, Markdown, Step,
};
use txget::paths::{
    directories, extract_group_name, folder_name_of, group_name_of, sanitize_filename,
};
use txget::render::{render_entry, render_entry_with_text};
use txget::retelling::{fix_retelling_swap, length_extremes, swap_answers};
use txget::sections::{arrange_sections, render_group, sort_by_id, sort_by_place, split_sections};
use txget::text::{
    chars_of, contains_text, copy_texts, is_text_le, is_white_space, join_texts, push_decimal,
    substring, text_eq, text_len, trim,
};
use txget::Args;

fn strings(items: &[&str]) -> Vec<String> {
    items.iter().map(|s| s.to_string()).collect()
}

fn entry(id: &str, question: &str, answers: &[&str]) -> Entry {
    Entry {
        question_id: id.to_string(),
        question_text: question.to_string(),
        answers: strings(answers),
        analysis: String::new(),
        source_file: String::new(),
        question_type: None,
        qtype_id: None,
    }
}

fn ids(entries: &[Entry]) -> Vec<String> {
    entries.iter().map(|e| e.question_id.clone()).collect()
}

// --- Text ---

#[test]
fn white_space_is_that_of_unicode() {
    assert!((0..=0x10ffff_u32)
        .filter_map(char::from_u32)
        .all(|c| is_white_space(c) == c.is_whitespace()));
}

#[test]
fn text_is_trimmed() {
    assert_eq!(trim(" \u{3000}a b\n"), "a b");
    assert_eq!(trim("a"), "a");
    assert_eq!(trim(" \t "), "");
    assert_eq!(trim(&trim("  x  ")), "x");
}

#[test]
fn text_is_compared_and_measured() {
    assert!(text_eq("中a", "中a"));
    assert!(!text_eq("a", "ab"));
    assert!(!text_eq("ab", "ac"));
    assert_eq!(text_len("中a"), 4);
    assert_eq!(chars_of("中a"), vec!['中', 'a']);
    assert_eq!(substring(&vec!['a', 'b', 'c'], 1, 3), "bc");
    assert_eq!(copy_texts(&strings(&["x", "y"])), strings(&["x", "y"]));
}

#[test]
fn text_is_searched() {
    assert!(contains_text("abcabd", "abd"));
    assert!(contains_text("abc", ""));
    assert!(contains_text("", ""));
    assert!(contains_text("abc", "c"));
    assert!(!contains_text("ab", "abc"));
    assert!(!contains_text("abc", "ac"));
}

#[test]
fn text_is_ordered_by_bytes() {
    assert!(is_text_le("", "a"));
    assert!(is_text_le("a", "a"));
    assert!(is_text_le("Z", "a"));
    assert!(is_text_le("a", "ab"));
    assert!(is_text_le("z", "中"));
    assert!(is_text_le("10", "9"));
    assert!(!is_text_le("ab", "a"));
    assert!(!is_text_le("b", "ab"));
}

#[test]
fn numbers_are_written_in_decimal() {
    let mut s = "n=".to_string();
    push_decimal(&mut s, 0);
    s.push(' ');
    push_decimal(&mut s, 1203);
    s.push(' ');
    push_decimal(&mut s, u128::MAX);
    assert_eq!(s, "n=0 1203 340282366920938463463374607431768211455");
}

#[test]
fn texts_are_joined() {
    assert_eq!(join_texts(&strings(&["a", "", "b"]), ", "), "a, , b");
    assert_eq!(join_texts(&strings(&["a"]), ", "), "a");
    assert_eq!(join_texts(&Vec::new(), ", "), "");
}

#[test]
fn chinese_characters_have_no_case_and_are_kept_in_names() {
    let all: String = ('\u{4e00}'..='\u{9fff}').collect();
    assert_eq!(all.to_lowercase(), all);
    assert_eq!(sanitize_filename(&all), all);
    let ascii: String = ('\0'..='\u{7f}').collect();
    assert_eq!(ascii.to_lowercase(), ascii.to_ascii_lowercase());
    let safe = sanitize_filename(&ascii);
    for (c, r) in ascii.chars().zip(safe.chars()) {
        assert_eq!(r, if c.is_ascii_alphanumeric() || c == '-' { c } else { '_' });
    }
}

// --- Classification ---

#[test]
fn scripts_are_told_apart() {
    assert!(is_letter('a') && is_letter('Z') && !is_letter('1') && !is_letter('é'));
    assert!(is_chinese('\u{4e00}') && is_chinese('\u{9fff}'));
    assert!(!is_chinese('\u{4dff}') && !is_chinese('\u{a000}') && !is_chinese('。'));
    assert!(contains_letter("中a") && !contains_letter("中1"));
    assert!(any_contains_letter(&strings(&["1", "b"])));
    assert!(!any_contains_letter(&strings(&["1", "中"])));
}

#[test]
fn reading_aloud_needs_180_bytes() {
    assert!(looks_like_read_aloud(&entry("1", &"a".repeat(180), &[])));
    assert!(!looks_like_read_aloud(&entry("1", &"a".repeat(179), &[])));
}

#[test]
fn reading_aloud_needs_more_than_thirty_letters() {
    let at_limit = "a".repeat(30) + &".".repeat(150);
    let above = "a".repeat(31) + &".".repeat(149);
    assert!(!looks_like_read_aloud(&entry("1", &at_limit, &[])));
    assert!(looks_like_read_aloud(&entry("1", &above, &[])));
}

#[test]
fn reading_aloud_needs_three_letters_for_each_chinese_character() {
    let at_limit = "a".repeat(120) + &"中".repeat(40);
    let above = "a".repeat(121) + &"中".repeat(40);
    assert!(!looks_like_read_aloud(&entry("1", &at_limit, &[])));
    assert!(looks_like_read_aloud(&entry("1", &above, &[])));
}

#[test]
fn reading_aloud_has_no_answer() {
    assert!(!looks_like_read_aloud(&entry("1", &"a".repeat(200), &["x"])));
}

#[test]
fn retelling_is_hinted_at() {
    for q in ["梗概", "关键词", "复述", "a retelling", "retell it"] {
        assert!(hints_at_retelling(q, ""));
    }
    assert!(hints_at_retelling("", "参考复述") && hints_at_retelling("", "请复述"));
    assert!(!hints_at_retelling("", "retell"));
    assert!(!hints_at_retelling("RETELL", ""));
}

#[test]
fn retelling_is_found_in_any_case() {
    let long = "x".repeat(120);
    assert!(looks_like_retelling(&entry("1", "RETELL the story", &["a", &long])));
    assert!(!looks_like_retelling(&entry("1", "RETELL the story", &["a", &long[1..]])));
    assert!(!looks_like_retelling(&entry("1", "RETELL the story", &[])));
    assert!(any_long(&strings(&["abc"]), 3) && !any_long(&strings(&["abc"]), 4));
}

#[test]
fn series_are_recognized_by_wording() {
    assert!(has_qa_wording("第 x 个问题"));
    assert!(has_qa_wording("the question."));
    assert!(!has_qa_wording("第二问"));
    assert!(!has_qa_wording("the question"));
}

#[test]
fn series_are_recognized_by_announcement() {
    assert!(looks_like_qa(&entry("1", "GET READY to answer the Tenth Question", &[])));
    assert!(!looks_like_qa(&entry("1", "Get ready to answer the last question", &[])));
    assert!(looks_like_qa(&entry("1", "A QUESTION.", &[])));
    assert!(looks_like_qa(&entry("1", "get ready to anſwer the firſt queſtion", &[])));
    assert!(!looks_like_qa(&entry("1", "get ready to answer the  first question", &[])));
}

#[test]
fn places_in_english() {
    assert_eq!(extract_qa_order_index("The TENTH Question"), 10);
    assert_eq!(extract_qa_order_index("请听 Third QUESTION 并回答"), 3);
    assert_eq!(extract_qa_order_index("second question, then the first question"), 1);
    assert_eq!(qa_order_of("sixth question", "第二个问题"), 6);
}

#[test]
fn places_in_chinese() {
    assert_eq!(extract_qa_order_index("第十个问题"), 10);
    assert_eq!(extract_qa_order_index("先第四个问题，再第二个问题"), 4);
    assert_eq!(extract_qa_order_index("第十一个问题"), 999);
    assert_eq!(qa_order_of("", "第第九个问题"), 9);
    assert_eq!(qa_order_of("", "第九个问"), 999);
}

#[test]
fn chinese_numerals_have_values() {
    let values: Vec<i32> = "一二三四五六七八九十".chars().map(zh_digit_value).collect();
    assert_eq!(values, vec![1, 2, 3, 4, 5, 6, 7, 8, 9, 10]);
    assert_eq!(zh_digit_value('百'), 999);
}

#[test]
fn first_fitting_section_counts() {
    let long = "y".repeat(120);
    assert_eq!(section_of(&entry("1", &"a".repeat(180), &[])), Section::ReadAloud);
    let both = "retell ".repeat(30);
    assert_eq!(section_of(&entry("1", &both, &[])), Section::ReadAloud);
    assert_eq!(section_of(&entry("1", &both, &[&long])), Section::Retelling);
    assert_eq!(section_of(&entry("1", "复述第一个问题", &[&long])), Section::Retelling);
    assert_eq!(section_of(&entry("1", "复述第一个问题", &["a"])), Section::Qa);
    assert_eq!(section_of(&entry("1", "翻译", &["translate"])), Section::Translation);
    assert_eq!(section_of(&entry("1", "翻译", &["翻"])), Section::Other);
    assert_eq!(section_of(&entry("1", "translate", &["a"])), Section::Other);
}

// --- Retelling ---

#[test]
fn extremes_of_lengths() {
    let r = length_extremes(&vec![3, 7, 2, 7, 2]);
    assert_eq!((r.longest, r.second, r.shortest), (Some(1), Some(3), Some(2)));
    let r = length_extremes(&vec![5, 9, 4]);
    assert_eq!((r.longest, r.second, r.shortest), (Some(1), Some(0), Some(2)));
    let r = length_extremes(&vec![0, 0]);
    assert_eq!((r.longest, r.second, r.shortest), (None, None, Some(0)));
    let r = length_extremes(&Vec::new());
    assert_eq!((r.longest, r.second, r.shortest), (None, None, None));
}

#[test]
fn answers_are_swapped() {
    let answers = strings(&["long", "short", "other", "short"]);
    let (long, short) = ("long".to_string(), "short".to_string());
    assert_eq!(swap_answers(&answers, &long, &short, Some(&long)), strings(&["short", "other"]));
    let answers = strings(&["long", "short"]);
    let next = "next".to_string();
    assert_eq!(swap_answers(&answers, &long, &short, Some(&next)), strings(&["short", "next"]));
    assert_eq!(swap_answers(&answers, &long, &short, Some(&short)), strings(&["short"]));
    assert_eq!(swap_answers(&answers, &long, &short, None), strings(&["short"]));
}

#[test]
fn question_and_answers_stay_what_they_are() {
    let long = "z".repeat(500);
    let e = entry("1", "retell", &[&long, "a much shorter answer"]);
    let (q, a) = fix_retelling_swap(&e);
    assert_eq!(q, "retell");
    assert_eq!(a, e.answers);
    let e = entry("1", "复述 a longer question", &["x", &long]);
    let (q, a) = fix_retelling_swap(&e);
    assert_eq!(q, e.question_text);
    assert_eq!(a, e.answers);
}

// --- Rendering ---

#[test]
fn entry_with_everything() {
    let e = Entry {
        question_id: "q1".to_string(),
        question_text: "问".to_string(),
        answers: strings(&["one", "two"]),
        analysis: "because".to_string(),
        source_file: "a/b.js".to_string(),
        question_type: Some(Json::Str("t".to_string())),
        qtype_id: Some(Json::Number(7.into())),
    };
    assert_eq!(
        render_entry(&e, true, true),
        "### q1\n- 来源：`a/b.js`\n- 题型：`question_type=\"t\"`，`qtype_id=7`\n\n\
         #### 题目\n问\n\n#### 参考答案\n1. one\n2. two\n\n#### 解析/线索\nbecause\n\n"
    );
    assert_eq!(
        render_entry(&e, false, false),
        "### q1\n- 题型：`question_type=\"t\"`，`qtype_id=7`\n\n\
         #### 题目\n问\n\n#### 参考答案\n1. one\n2. two\n\n"
    );
}

#[test]
fn entry_with_nothing() {
    assert_eq!(
        render_entry(&entry("q", "", &[]), true, false),
        "### q\n- 题型：`question_type=null`，`qtype_id=null`\n\n\
         #### 题目\n_（空）_\n\n#### 参考答案\n_未提取到可见答案_\n\n"
    );
}

#[test]
fn entry_with_another_text() {
    let e = entry("q", "own", &["mine"]);
    assert_eq!(
        render_entry_with_text("given", &strings(&["theirs"]), &e, false, false),
        "### q\n- 题型：`question_type=null`，`qtype_id=null`\n\n\
         #### 题目\ngiven\n\n#### 参考答案\n1. theirs\n\n"
    );
}

#[test]
fn what_is_left_out_makes_no_difference() {
    let e = entry("q", "own", &["mine"]);
    let mut f = e.clone();
    f.analysis = "other".to_string();
    f.source_file = "elsewhere".to_string();
    assert_eq!(render_entry(&e, false, false), render_entry(&f, false, false));
    assert_ne!(render_entry(&e, true, false), render_entry(&f, true, false));
    assert_ne!(render_entry(&e, false, true), render_entry(&f, false, true));
}

// --- Sections ---

#[test]
fn entries_are_sorted_by_identifier() {
    let sorted = sort_by_id(vec![
        entry("b", "1", &[]),
        entry("a", "2", &[]),
        entry("b", "3", &[]),
        entry("10", "4", &[]),
        entry("9", "5", &[]),
    ]);
    let texts: Vec<&str> = sorted.iter().map(|e| e.question_text.as_str()).collect();
    assert_eq!(texts, vec!["4", "5", "2", "1", "3"]);
}

#[test]
fn entries_are_sorted_by_place() {
    let sorted = sort_by_place(vec![
        entry("z", "nowhere", &[]),
        entry("y", "second question", &[]),
        entry("x", "第二个问题", &[]),
        entry("w", "第十个问题", &[]),
        entry("v", "First Question", &[]),
    ]);
    assert_eq!(ids(&sorted), strings(&["v", "x", "y", "w", "z"]));
}

fn mixed_entries() -> Vec<Entry> {
    let long = "y".repeat(120);
    vec![
        entry("t2", "翻译", &["b"]),
        entry("o1", "other", &["a"]),
        entry("q2", "第二个问题", &["a"]),
        entry("r1", "retell", &[&long]),
        entry("t1", "翻译", &["a"]),
        entry("q1", "第一个问题", &["a"]),
        entry("a1", &"a".repeat(180), &[]),
    ]
}

#[test]
fn entries_are_split_by_section() {
    let s = split_sections(mixed_entries());
    assert_eq!(ids(&s.read_aloud), strings(&["a1"]));
    assert_eq!(ids(&s.translation), strings(&["t2", "t1"]));
    assert_eq!(ids(&s.qa), strings(&["q2", "q1"]));
    assert_eq!(ids(&s.retelling), strings(&["r1"]));
    assert_eq!(ids(&s.others), strings(&["o1"]));
}

#[test]
fn sections_are_arranged() {
    let s = arrange_sections(mixed_entries());
    assert_eq!(ids(&s.read_aloud), strings(&["a1"]));
    assert_eq!(ids(&s.translation), strings(&["t1", "t2"]));
    assert_eq!(ids(&s.qa), strings(&["q1", "q2"]));
    assert_eq!(ids(&s.retelling), strings(&["r1"]));
    assert_eq!(ids(&s.others), strings(&["o1"]));
    let total = s.read_aloud.len() + s.translation.len() + s.qa.len() + s.retelling.len()
        + s.others.len();
    assert_eq!(total, mixed_entries().len());
}

#[test]
fn group_without_entries_has_no_document() {
    assert!(render_group("g", Vec::new(), true, true).is_none());
}

#[test]
fn document_of_a_group() {
    let e = entry("t", "翻译", &["x"]);
    let o = entry("o", "other", &[]);
    let own = "### t\n- 题型：`question_type=null`，`qtype_id=null`\n\n#### 题目\n翻译\n\n\
               #### 参考答案\n1. x\n\n";
    assert_eq!(
        render_group("组", vec![e.clone()], false, false).unwrap(),
        format!(
            "# 题目与答案提取结果 — 组\n\n- 题目总数：1\n- 第一部分（跟随朗读）：0\n\
             - 第二部分（翻译题）：1\n- 第三部分（问答题）：0\n- 第四部分（Retelling）：0\n\n\
             ## 第一部分：跟随文章朗读\n\n## 第二部分：翻译题（中文题目 -> 英文答案）\n\n{}\
             ## 第三部分：问答题（按第几个问题顺序）\n\n## 第四部分：Retelling\n\n",
            own
        )
    );
    let with_other = render_group("组", vec![o, e], false, false).unwrap();
    assert!(with_other.contains("- 题目总数：2\n"));
    assert!(with_other.contains("- 其他未归类：1\n\n## 第一部分"));
    assert!(with_other.contains("## 其他未归类\n\n### o\n"));
}

#[test]
fn document_holds_every_entry() {
    let doc = render_group("g", mixed_entries(), true, true).unwrap();
    for e in mixed_entries() {
        assert!(doc.contains(&render_entry(&e, true, true)));
    }
}

#[test]
fn document_without_sources_does_not_depend_on_them() {
    let mut moved = mixed_entries();
    for e in moved.iter_mut() {
        e.source_file = "moved".to_string();
    }
    assert_eq!(
        render_group("g", moved.clone(), true, false),
        render_group("g", mixed_entries(), true, false)
    );
    assert_ne!(
        render_group("g", moved, true, true),
        render_group("g", mixed_entries(), true, true)
    );
}

// --- Groups and files ---

#[test]
fn groups_are_collected_in_order() {
    let mut g = Groups::new();
    assert_eq!((g.len(), g.total()), (0, 0));
    g.add("b".to_string(), vec![entry("1", "", &[])]);
    g.add("c".to_string(), Vec::new());
    g.add("a".to_string(), vec![entry("2", "", &[]), entry("3", "", &[])]);
    g.add("b".to_string(), vec![entry("0", "", &[])]);
    assert_eq!((g.len(), g.total()), (3, 4));
    let all: Vec<(String, Vec<String>)> =
        g.into_groups().into_iter().map(|(n, es)| (n, ids(&es))).collect();
    assert_eq!(
        all,
        vec![
            ("a".to_string(), strings(&["2", "3"])),
            ("b".to_string(), strings(&["1", "0"])),
            ("c".to_string(), Vec::new()),
        ]
    );
}

#[test]
fn groups_are_labelled() {
    assert_eq!(group_label("Unit 1", 4), "Unit_1");
    assert_eq!(group_label("DeadBeef09", 4), "set5");
    assert_eq!(group_label("deadbeefg", 4), "deadbeefg");
    assert_eq!(group_label("", 9), "set10");
    assert_ne!(group_label("ab", 0), group_label("cd", 1));
}

#[test]
fn files_are_named() {
    let name = |single, stem, extension| {
        output_file_name(single, "out.txt", stem, extension, "ab c", 0)
    };
    assert_eq!(name(true, Some("out"), Some("txt")), "out.txt");
    assert_eq!(name(false, Some("out"), Some("txt")), "out_ab_c.txt");
    assert_eq!(name(false, None, None), "qa_output_ab_c.md");
    assert_eq!(output_file_name(false, "o", Some("o"), None, "abc", 1), "o_set2.md");
}

#[test]
fn files_of_all_groups_are_named() {
    let named = |names: &[&str]| output_names("out.txt", Some("out"), Some("txt"), &strings(names));
    assert_eq!(named(&["ab c"]), strings(&["out.txt"]));
    assert!(named(&[]).is_empty());
    assert_eq!(
        named(&["0f", "ab c", "ff"]),
        strings(&["out_set1.txt", "out_ab_c.txt", "out_set3.txt"])
    );
}

#[test]
fn files_go_beside_an_archive_or_into_the_input() {
    assert_eq!(output_dir(InputKind::Zip, "x/a.zip", Some("x")), "x");
    assert_eq!(output_dir(InputKind::SevenZip, "a.7z", Some("")), "");
    assert_eq!(output_dir(InputKind::SevenZip, "/", None), ".");
    assert_eq!(output_dir(InputKind::Directory, "x/y", Some("x")), "x/y");
    assert_eq!(output_dir(InputKind::Page, "x/questionData.js", Some("x")), ".");
}

#[test]
fn summaries() {
    assert_eq!(summary_line(0, 0), "Done. Extracted 0 questions.");
    assert_eq!(summary_line(12, 1), "Done. Extracted 12 questions.");
    assert_eq!(summary_line(12, 3), "Done. Extracted 12 questions across 3 sets.");
}

#[test]
fn names_are_sanitized() {
    assert_eq!(sanitize_filename("a/b\\c:d.é½\u{200b}"), "a_b_c_d_é½_");
    assert_eq!(sanitize_filename(""), "");
    let once = sanitize_filename("x y/z");
    assert_eq!(sanitize_filename(&once), once);
}

// --- Paths ---

#[test]
fn directories_of_a_path() {
    let dirs = directories(&PathBuf::from("/a/../b/f"));
    assert_eq!(dirs, vec![Some("a".to_string()), None, Some("b".to_string())]);
    assert!(directories(&PathBuf::from("f")).is_empty());
    assert!(directories(&PathBuf::from("/f")).is_empty());
    assert!(directories(&PathBuf::from("/")).is_empty());
    assert!(directories(&PathBuf::from("")).is_empty());
}

#[test]
fn groups_of_paths() {
    let group = |p: &str| extract_group_name(&PathBuf::from(p));
    assert_eq!(group("a/questions/b/questions/c/questionData.js"), "b");
    assert_eq!(group("set/questions/x/y/z/questionData.js"), "set");
    assert_eq!(group("questions/x/questionData.js"), "x");
    assert_eq!(group("/questions/questionData.js"), "questions");
    assert_eq!(group("../questions/x/questionData.js"), "x");
    assert_eq!(group("questionData.js"), "unknown");
    assert_eq!(group("../questionData.js"), "unknown");
}

#[test]
fn groups_of_directories() {
    let some = |s: &str| Some(s.to_string());
    assert_eq!(group_name_of(&vec![some("s"), some("questions"), None]), "s");
    assert_eq!(group_name_of(&vec![None, some("questions"), some("q")]), "q");
    assert_eq!(group_name_of(&Vec::new()), "unknown");
    assert_eq!(folder_name_of(&vec![some("a"), some("b")]), "b");
    assert_eq!(folder_name_of(&vec![some("a"), None]), "unknown");
}

// --- Archives ---

fn name(s: &str) -> PathPart {
    PathPart::Name(s.as_bytes().to_vec())
}

#[test]
fn entries_below_the_destination_are_extracted() {
    let dest = vec![PathPart::Root, name("tmp")];
    let out = vec![PathPart::Root, name("tmp"), name("a"), PathPart::Current, name("b")];
    assert_eq!(check_entry_path(false, &dest, &out), Ok(()));
    assert_eq!(check_entry_path(false, &dest, &dest), Ok(()));
}

#[test]
fn entries_that_leave_the_destination_are_refused() {
    let dest = vec![PathPart::Root, name("tmp")];
    let up = vec![PathPart::Root, name("tmp"), name("a"), PathPart::Parent];
    let aside = vec![PathPart::Root, name("tmp2"), PathPart::Parent];
    let above = vec![PathPart::Root];
    assert_eq!(check_entry_path(false, &dest, &up), Err(PathTraversal::Escapes));
    assert_eq!(check_entry_path(false, &dest, &aside), Err(PathTraversal::Outside));
    assert_eq!(check_entry_path(false, &dest, &above), Err(PathTraversal::Outside));
    assert_eq!(check_entry_path(true, &dest, &up), Err(PathTraversal::Absolute));
    let drive = vec![PathPart::Prefix(b"C:".to_vec())];
    let other = vec![PathPart::Prefix(b"D:".to_vec())];
    assert_eq!(check_entry_path(false, &drive, &other), Err(PathTraversal::Outside));
}

#[test]
fn refusals_are_explained() {
    assert_eq!(
        PathTraversal::Absolute.message("/x"),
        "Path traversal: absolute path in archive: /x"
    );
    assert_eq!(
        PathTraversal::Escapes.message("../x"),
        "Path traversal: path escapes destination: ../x"
    );
    assert_eq!(
        PathTraversal::Outside.message("x"),
        "Path traversal: path outside destination: x"
    );
}

#[test]
fn inputs_are_told_apart() {
    let page = Some("questionData.js");
    assert_eq!(input_kind(true, false, Some("zip"), Some("a.zip")), Some(InputKind::Zip));
    assert_eq!(input_kind(true, false, Some("7z"), Some("a.7z")), Some(InputKind::SevenZip));
    assert_eq!(input_kind(false, true, Some("zip"), Some("a.zip")), Some(InputKind::Directory));
    assert_eq!(input_kind(true, false, Some("js"), page), Some(InputKind::Page));
    assert_eq!(input_kind(true, false, Some("ZIP"), Some("a.ZIP")), None);
    assert_eq!(input_kind(false, false, Some("js"), page), None);
    assert_eq!(input_kind(true, false, None, None), None);
    assert!(is_page_name(page) && !is_page_name(Some("data.js")) && !is_page_name(None));
}

#[test]
fn default_options() {
    let args = Args::default();
    assert_eq!(args.file, ".");
    assert_eq!(args.output, "qa_output.md");
    assert!(!args.include_analysis && !args.include_source && !args.pdf);
    assert!(args.font_dir.is_none());
}

// --- Layout ---

fn shown(steps: &[Step]) -> Vec<String> {
    steps.iter().map(|s| format!("{:?}", s)).collect()
}

#[test]
fn markdown_is_read() {
    let events: Vec<String> =
        read_markdown("# T\n\n1. `c`\n").iter().map(|e| format!("{:?}", e)).collect();
    assert_eq!(
        events,
        strings(&[
            "HeadingStart(1)",
            "Text(\"T\")",
            "HeadingEnd",
            "ListStart(Some(1))",
            "ItemStart",
            "Code(\"c\")",
            "ItemEnd",
            "ListEnd",
        ])
    );
}

#[test]
fn document_is_laid_out() {
    let steps = layout_document("# Title\n\none\ntwo\n\n- a\n- b\n\n1. x `y`\n\n### Sub\n\nend");
    assert_eq!(
        shown(&steps),
        strings(&[
            "FontSize(11)",
            "FontSize(18)",
            "Paragraph(\"Title\")",
            "FontSize(11)",
            "Break",
            "Paragraph(\"one\\ntwo\")",
            "UnorderedList([\"a\", \"b\"])",
            "Break",
            "OrderedList([\"x y\"])",
            "Break",
            "FontSize(13)",
            "Paragraph(\"Sub\")",
            "FontSize(11)",
            "Break",
            "Paragraph(\"end\")",
        ])
    );
}

#[test]
fn blank_text_is_not_laid_out() {
    let steps = layout_events(&vec![
        Markdown::Text(" ".to_string()),
        Markdown::ParagraphEnd,
        Markdown::ListStart(None),
        Markdown::ItemStart,
        Markdown::Text("\t".to_string()),
        Markdown::ItemEnd,
        Markdown::ListEnd,
        Markdown::HeadingStart(2),
        Markdown::HeadingEnd,
    ]);
    assert_eq!(
        shown(&steps),
        strings(&["FontSize(11)", "Break", "FontSize(15)", "FontSize(11)", "Break"])
    );
}

#[test]
fn text_is_gathered_across_breaks() {
    let steps = layout_events(&vec![
        Markdown::Text(" a".to_string()),
        Markdown::SoftBreak,
        Markdown::Other,
        Markdown::Code("b".to_string()),
        Markdown::HardBreak,
        Markdown::Text("c ".to_string()),
    ]);
    assert_eq!(shown(&steps), strings(&["FontSize(11)", "Paragraph(\"a\\nb\\nc\")"]));
}

#[test]
fn text_before_an_item_is_dropped() {
    let mut layout = Layout::new();
    layout.advance(&Markdown::Text("lost".to_string()));
    layout.advance(&Markdown::ItemStart);
    layout.flush();
    assert_eq!(shown(&layout.steps), strings(&["FontSize(11)"]));
}

#[test]
fn headings_have_sizes() {
    let sizes: Vec<u8> = (1..=6).map(heading_size).collect();
    assert_eq!(sizes, vec![18, 15, 13, 11, 11, 11]);
}

// --- Fonts ---

#[test]
fn fonts_in_the_given_directory() {
    let fonts = font_candidates(Some("/f"));
    let regular: Vec<&str> = fonts.iter().map(|f| f.regular.as_str()).collect();
    assert!(fonts.iter().all(|f| f.dir == "/f"));
    assert_eq!(
        regular,
        vec!["LXGWWenKai-Regular.ttf", "NotoSansCJK-Regular.ttc", "NotoSansCJKsc-Regular.ttc"]
    );
}

#[test]
fn fonts_in_all_directories() {
    let fonts = font_candidates(None);
    assert_eq!(fonts.len(), 15);
    assert_eq!(fonts[0].dir, "/usr/share/fonts/TTF");
    assert_eq!(fonts[4].dir, "/usr/share/fonts/opentype/noto");
    assert_eq!(fonts[4].bold, "NotoSansCJK-Bold.ttc");
    assert_eq!(fonts[14].dir, "/usr/share/fonts/noto");
    assert_eq!(search_dirs(None).len(), 5);
    assert_eq!(search_dirs(Some("x")), strings(&["x"]));
}

#[test]
fn first_font_that_is_there() {
    assert_eq!(first_found(&vec![false, true, true]), Some(1));
    assert_eq!(first_found(&vec![false, false]), None);
    assert_eq!(first_found(&Vec::new()), None);
}

#[test]
fn bold_falls_back_to_regular() {
    let fonts = font_candidates(Some("d"));
    assert_eq!(bold_file(&fonts[0], true), "LXGWWenKai-Medium.ttf");
    assert_eq!(bold_file(&fonts[0], false), "LXGWWenKai-Regular.ttf");
}

#[test]
fn missing_fonts_are_explained() {
    assert_eq!(
        missing_font_message(Some("/f")),
        "No CJK font found in /f. Searched for: LXGWWenKai-Regular.ttf, \
         NotoSansCJK-Regular.ttc, NotoSansCJKsc-Regular.ttc"
    );
    assert_eq!(
        missing_font_message(None),
        "No CJK font found. Searched in:\n  - /usr/share/fonts/TTF\n  \
         - /usr/share/fonts/opentype/noto\n  - /usr/share/fonts/noto-cjk\n  \
         - /usr/share/fonts/truetype/noto\n  - /usr/share/fonts/noto\n\
         Install with: sudo pacman -S noto-fonts-cjk\n\
         Or specify a font directory with --font-dir <path>"
    );
}
