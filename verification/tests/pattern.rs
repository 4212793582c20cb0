use app_meta::pattern::{compile, Segment};
use app_meta::KeyPattern;

fn pattern_of(template: &str) -> KeyPattern {
    KeyPattern::new(template.to_owned())
}

#[test]
fn test_key_pattern() {
    let pattern = KeyPattern::new("xxxx_{}_{}".to_owned());
    assert!(pattern.match_key("xxxx_abc_123"));
}

#[test]
fn unconsumed_suffix_is_no_match() {
    assert!(!pattern_of("xxxx_{}_{}").match_key("xxxx_abc_123_extra"));
}

#[test]
fn empty_placeholder_run_is_no_match() {
    assert!(!pattern_of("xxxx_{}_{}").match_key("xxxx__123"));
}

#[test]
fn prefix_of_key_is_no_match() {
    assert!(!pattern_of("xxxx_{}").match_key("xxxx_abc_123"));
    assert!(!pattern_of("xxxx_{}_{}").match_key("xxxx_abc"));
    assert!(!pattern_of("xxxx_{}_{}").match_key("xxxx_abc_"));
}

#[test]
fn adjacent_placeholders_share_a_run() {
    assert!(pattern_of("xxxx{}{}").match_key("xxxxabc123"));
    assert!(pattern_of("xxxx{}{}").match_key("xxxxab"));
}

#[test]
fn adjacent_placeholders_need_a_character_each() {
    assert!(!pattern_of("xxxx{}{}").match_key("xxxxa"));
    assert!(!pattern_of("{}{}{}").match_key("ab"));
    assert!(pattern_of("{}{}{}").match_key("abc"));
}

#[test]
fn placeholder_at_either_end() {
    assert!(pattern_of("{}_tail").match_key("head9_tail"));
    assert!(!pattern_of("{}_tail").match_key("_tail"));
    assert!(pattern_of("head_{}").match_key("head_Zz0"));
    assert!(!pattern_of("head_{}").match_key("head_"));
    assert!(pattern_of("{}").match_key("a"));
    assert!(!pattern_of("{}").match_key(""));
}

#[test]
fn placeholder_takes_letters_and_digits_only() {
    assert!(pattern_of("a_{}").match_key("a_azAZ09"));
    assert!(!pattern_of("a_{}").match_key("a_b-c"));
    assert!(!pattern_of("a_{}").match_key("a_b_c"));
    assert!(!pattern_of("a_{}").match_key("a_b c"));
    assert!(!pattern_of("a_{}").match_key("a_\u{e9}"));
    assert!(!pattern_of("a_{}").match_key("a_\u{661}"));
}

#[test]
fn literal_inside_a_run_is_found() {
    assert!(pattern_of("{}a{}").match_key("1a2a3"));
    assert!(pattern_of("{}a").match_key("aaa"));
    assert!(!pattern_of("{}a").match_key("a"));
    assert!(pattern_of("{}ab{}").match_key("xabyab1"));
    assert!(!pattern_of("{}ab{}").match_key("xab"));
    assert!(pattern_of("{}a{}b").match_key("1a2b3b"));
}

#[test]
fn template_without_placeholder_matches_itself_only() {
    assert!(pattern_of("plain").match_key("plain"));
    assert!(!pattern_of("plain").match_key("plain1"));
    assert!(!pattern_of("plain").match_key("plai"));
    assert!(!pattern_of("plain").match_key("Plain"));
    assert!(pattern_of("").match_key(""));
    assert!(!pattern_of("").match_key("a"));
}

#[test]
fn characters_special_to_other_pattern_languages_are_literal() {
    assert!(pattern_of("a.b").match_key("a.b"));
    assert!(!pattern_of("a.b").match_key("axb"));
    assert!(pattern_of("a+").match_key("a+"));
    assert!(!pattern_of("a+").match_key("aa"));
    assert!(pattern_of("a|{}").match_key("a|b"));
    assert!(!pattern_of("a|{}").match_key("a"));
    assert!(!pattern_of("a|{}").match_key("b"));
    assert!(pattern_of("(").match_key("("));
    assert!(pattern_of("[a-z]_{}").match_key("[a-z]_1"));
    assert!(!pattern_of("[a-z]_{}").match_key("q_1"));
    assert!(pattern_of("^{}$").match_key("^a$"));
    assert!(!pattern_of("^{}$").match_key("a"));
    assert!(pattern_of("a\\d").match_key("a\\d"));
    assert!(!pattern_of("a\\d").match_key("a1"));
}

#[test]
fn lone_braces_are_literal() {
    assert!(pattern_of("{").match_key("{"));
    assert!(pattern_of("}").match_key("}"));
    assert!(pattern_of("{{}").match_key("{a"));
    assert!(!pattern_of("{{}").match_key("a"));
    assert!(pattern_of("{}}").match_key("a}"));
    assert!(pattern_of("}{").match_key("}{"));
    assert!(pattern_of("{ }").match_key("{ }"));
    assert!(!pattern_of("{ }").match_key("a"));
}

#[test]
fn literal_outside_ascii_matches_itself() {
    assert!(pattern_of("cl\u{e9}_{}").match_key("cl\u{e9}_1"));
    assert!(!pattern_of("cl\u{e9}_{}").match_key("cle_1"));
    assert!(pattern_of("\u{1f600}{}").match_key("\u{1f600}x"));
}

#[test]
fn semantically_close_templates_differ() {
    assert!(pattern_of("a_{}").match_key("a_1"));
    assert!(!pattern_of("a{}").match_key("a_1"));
    assert!(pattern_of("a{}").match_key("a1"));
    assert!(!pattern_of("a_{}").match_key("a1"));
}

#[test]
fn match_chars_agrees_with_match_key() {
    let key: Vec<char> = "xxxx_abc_123".chars().collect();
    assert!(pattern_of("xxxx_{}_{}").match_chars(&key));
    let other: Vec<char> = "xxxx__123".chars().collect();
    assert!(!pattern_of("xxxx_{}_{}").match_chars(&other));
}

#[test]
fn equality_is_by_template_text() {
    assert!(pattern_of("a_{}") == pattern_of("a_{}"));
    assert!(pattern_of("a_{}") != pattern_of("a{}"));
    assert!(pattern_of("{}{}") != pattern_of("{}"));
    let p = pattern_of("user_{}");
    let q = p.clone();
    assert!(p == q);
    assert_eq!(q.0, "user_{}");
}

#[test]
fn new_keeps_the_template() {
    assert_eq!(KeyPattern::new("k_{}_{}".to_owned()).0, "k_{}_{}");
    assert_eq!(KeyPattern::new(String::new()).0, "");
}

#[test]
fn compile_reads_segments_from_the_left() {
    let segs = compile("a{}{");
    assert_eq!(segs.len(), 3);
    assert!(matches!(segs[0], Segment::Literal('a')));
    assert!(matches!(segs[1], Segment::Placeholder));
    assert!(matches!(segs[2], Segment::Literal('{')));
    let segs = compile("{{}}");
    assert_eq!(segs.len(), 3);
    assert!(matches!(segs[0], Segment::Literal('{')));
    assert!(matches!(segs[1], Segment::Placeholder));
    assert!(matches!(segs[2], Segment::Literal('}')));
    assert!(compile("").is_empty());
}

#[test]
fn long_key_of_many_runs() {
    let mut template = String::new();
    let mut key = String::new();
    for i in 0..50 {
        template.push_str("s{}_");
        key.push_str(&format!("sv{}_", i));
    }
    assert!(pattern_of(&template).match_key(&key));
    key.push('x');
    assert!(!pattern_of(&template).match_key(&key));
}
