use sapf_lsp::documents::DocumentStore;
use sapf_lsp::knowledge::{CategoryData, KnowledgeBase};
use sapf_lsp::query::{complete_prefix, completion, hover, CompletionKind};
use sapf_lsp::scanner::{scan_line, Span, TokenKind};
use sapf_lsp::text::{chars_of, get_word_at_position, split_lines, trim_chars};
use sapf_lsp::tokens::{document_tokens, semantic_tokens_full, EncodedToken};

fn category(description: &str, items: &[(&str, &str)]) -> CategoryData {
    CategoryData {
        description: description.to_string(),
        items: items.iter().map(|(k, d)| (k.to_string(), d.to_string())).collect(),
    }
}

fn math_kb() -> KnowledgeBase {
    KnowledgeBase::new(vec![(
        "math".to_string(),
        category("Math operators", &[("add", "Adds two numbers")]),
    )])
}

fn two_kb() -> KnowledgeBase {
    KnowledgeBase::new(vec![
        (
            "arith".to_string(),
            category("Arithmetic", &[("max", "Larger of two"), ("add", "Sum"), ("min", "Smaller")]),
        ),
        (
            "seq".to_string(),
            category("Sequences", &[("map", "Apply to each"), ("len", "Length"), ("add", "Append")]),
        ),
    ])
}

fn store_with(uri: &str, text: &str) -> DocumentStore {
    let mut s = DocumentStore::new();
    s.did_open(uri.to_string(), text.to_string());
    s
}

fn labels(kb: &KnowledgeBase, prefix: &str) -> Vec<String> {
    complete_prefix(kb, prefix).into_iter().map(|e| e.label).collect()
}

fn tok(dl: usize, ds: usize, len: usize, ty: u32) -> EncodedToken {
    EncodedToken { delta_line: dl, delta_start: ds, length: len, token_type: ty }
}

fn kw(words: &[&str]) -> Vec<Vec<char>> {
    words.iter().map(|w| w.chars().collect()).collect()
}

#[test]
fn math_scenario_hover_on_category_word() {
    let kb = math_kb();
    let store = store_with("file:///a.sapf", "math add 1 2");
    assert_eq!(hover(&kb, &store, "file:///a.sapf", 0, 2), Some("Math operators".to_string()));
    assert_eq!(hover(&kb, &store, "file:///a.sapf", 0, 6), Some("Adds two numbers".to_string()));
}

#[test]
fn math_scenario_hover_sees_whole_whitespace_token() {
    // The hover tokenizer splits on whitespace only: the word is "math.add".
    let kb = math_kb();
    let store = store_with("file:///a.sapf", "math.add 1 2");
    assert_eq!(hover(&kb, &store, "file:///a.sapf", 0, 2), None);
    assert_eq!(
        get_word_at_position("math.add 1 2", 0, 2),
        Some("math.add".to_string())
    );
}

#[test]
fn math_scenario_completion_after_dot() {
    let kb = math_kb();
    let items = complete_prefix(&kb, "math.");
    assert_eq!(items.len(), 1);
    assert_eq!(items[0].label, "add");
    assert_eq!(items[0].documentation, "Adds two numbers");
    assert_eq!(items[0].insert_text, "add");
    assert_eq!(items[0].kind, CompletionKind::Keyword);
    assert!(!items[0].retrigger);
    let store = store_with("u", "math.add 1 2");
    let at = completion(&kb, &store, "u", 0, 5);
    assert_eq!(at.len(), 1);
    assert_eq!(at[0].label, "add");
}

#[test]
fn math_scenario_semantic_tokens() {
    let kb = math_kb();
    let store = store_with("u", "math.add 1 2");
    let toks = semantic_tokens_full(&kb, &store, "u").unwrap();
    assert_eq!(toks, vec![tok(0, 5, 3, 0), tok(0, 4, 1, 2), tok(0, 2, 1, 2)]);
}

#[test]
fn prefix_without_dot_and_without_category() {
    let kb = two_kb();
    let items = complete_prefix(&kb, "ma");
    assert!(items.iter().all(|e| e.kind == CompletionKind::Keyword));
    assert_eq!(labels(&kb, "ma"), vec!["max".to_string(), "map".to_string()]);
}

#[test]
fn category_completion_inserts_dot_and_retriggers() {
    let kb = two_kb();
    let items = complete_prefix(&kb, "ar");
    assert_eq!(items.len(), 1);
    assert_eq!(items[0].label, "arith");
    assert_eq!(items[0].insert_text, "arith.");
    assert_eq!(items[0].documentation, "Arithmetic");
    assert_eq!(items[0].kind, CompletionKind::Category);
    assert!(items[0].retrigger);
}

#[test]
fn empty_prefix_offers_categories_then_keywords_once() {
    let kb = two_kb();
    assert_eq!(
        labels(&kb, ""),
        vec!["arith", "seq", "max", "add", "min", "map", "len"]
            .into_iter()
            .map(String::from)
            .collect::<Vec<_>>()
    );
}

#[test]
fn item_prefix_is_trimmed() {
    let kb = two_kb();
    assert_eq!(labels(&kb, "seq.  l"), vec!["len".to_string()]);
    assert_eq!(labels(&kb, "seq.a"), vec!["add".to_string()]);
    assert!(labels(&kb, "nope.a").is_empty());
}

#[test]
fn completion_labels_start_with_prefix() {
    let kb = two_kb();
    for p in ["", "a", "m", "ma", "se", "seq.", "seq.m", "arith.m"] {
        let item_part = match p.split_once('.') {
            Some((_, rest)) => rest.trim(),
            None => p,
        };
        for e in complete_prefix(&kb, p) {
            match e.kind {
                CompletionKind::Category => assert!(e.label.starts_with(p)),
                CompletionKind::Keyword => assert!(e.label.starts_with(item_part)),
            }
        }
    }
}

#[test]
fn completion_out_of_range_is_empty() {
    let kb = two_kb();
    let store = store_with("u", "ma");
    assert!(completion(&kb, &store, "u", 0, 3).is_empty());
    assert!(completion(&kb, &store, "u", 1, 0).is_empty());
    assert!(completion(&kb, &store, "other", 0, 0).is_empty());
    assert_eq!(completion(&kb, &store, "u", 0, 2).len(), 2);
}

#[test]
fn hover_unknown_document_or_position() {
    let kb = math_kb();
    let store = store_with("u", "math");
    assert_eq!(hover(&kb, &store, "v", 0, 0), None);
    assert_eq!(hover(&kb, &store, "u", 3, 0), None);
    assert_eq!(hover(&kb, &store, "u", 0, 9), None);
}

#[test]
fn duplicate_keyword_first_category_wins() {
    let kb = two_kb();
    assert_eq!(kb.lookup_keyword("add"), Some("Sum".to_string()));
    assert_eq!(kb.lookup_keyword("len"), Some("Length".to_string()));
    assert_eq!(kb.lookup_keyword("arith"), None);
    let store = store_with("u", "add");
    assert_eq!(hover(&kb, &store, "u", 0, 1), Some("Sum".to_string()));
}

#[test]
fn all_keywords_covers_every_item_once() {
    let kb = two_kb();
    let all = kb.get_all_keywords();
    let keys: Vec<&str> = all.iter().map(|(k, _)| k.as_str()).collect();
    assert_eq!(keys, vec!["max", "add", "min", "map", "len"]);
    for (_, cat) in &kb.categories {
        for (k, _) in &cat.items {
            assert!(all.iter().any(|(k2, _)| k2 == k));
        }
    }
    assert_eq!(all[1].1, "Sum");
}

#[test]
fn lookup_category_by_exact_name() {
    let kb = two_kb();
    assert_eq!(kb.lookup("seq").map(|c| c.description.clone()), Some("Sequences".to_string()));
    assert!(kb.lookup("Seq").is_none());
    assert!(kb.lookup("se").is_none());
}

#[test]
fn store_round_trip_and_replacement() {
    let mut s = DocumentStore::new();
    assert_eq!(s.get_document_content("u"), None);
    s.did_open("u".to_string(), "first".to_string());
    assert_eq!(s.get_document_content("u"), Some("first".to_string()));
    s.did_change("u".to_string(), vec!["second".to_string()]);
    assert_eq!(s.get_document_content("u"), Some("second".to_string()));
    s.did_change("u".to_string(), vec!["a".to_string(), "b".to_string()]);
    assert_eq!(s.get_document_content("u"), Some("b".to_string()));
    s.did_change("u".to_string(), vec![]);
    assert_eq!(s.get_document_content("u"), Some("b".to_string()));
    s.did_open("v".to_string(), "other".to_string());
    assert_eq!(s.get_document_content("u"), Some("b".to_string()));
    assert_eq!(s.get_document_content("v"), Some("other".to_string()));
    s.did_open("u".to_string(), "again".to_string());
    assert_eq!(s.get_document_content("u"), Some("again".to_string()));
}

#[test]
fn word_at_position_inclusive_ends() {
    let text = "  foo bar\nbaz";
    assert_eq!(get_word_at_position(text, 0, 1), None);
    assert_eq!(get_word_at_position(text, 0, 2), Some("foo".to_string()));
    assert_eq!(get_word_at_position(text, 0, 5), Some("foo".to_string()));
    assert_eq!(get_word_at_position(text, 0, 6), Some("bar".to_string()));
    assert_eq!(get_word_at_position(text, 0, 9), Some("bar".to_string()));
    assert_eq!(get_word_at_position(text, 0, 10), None);
    assert_eq!(get_word_at_position(text, 1, 3), Some("baz".to_string()));
    assert_eq!(get_word_at_position(text, 2, 0), None);
    assert_eq!(get_word_at_position(text, 0, 4), get_word_at_position(text, 0, 4));
}

#[test]
fn word_at_position_counts_characters() {
    assert_eq!(get_word_at_position("é x+y", 0, 2), Some("x+y".to_string()));
    assert_eq!(get_word_at_position("é\tab", 0, 3), Some("ab".to_string()));
}

#[test]
fn lines_follow_line_feeds() {
    let split = |t: &str| split_lines(&chars_of(t));
    assert_eq!(split("").len(), 0);
    assert_eq!(split("a\n").len(), 1);
    assert_eq!(split("a\r\nb"), vec![vec!['a'], vec!['b']]);
    assert_eq!(split("a\n\nb"), vec![vec!['a'], vec![], vec!['b']]);
    assert_eq!(split("\n"), vec![Vec::<char>::new()]);
    assert_eq!(split("x\r"), vec![vec!['x', '\r']]);
}

#[test]
fn trim_removes_outer_whitespace() {
    assert_eq!(trim_chars(&chars_of("  a b \t")), vec!['a', ' ', 'b']);
    assert!(trim_chars(&chars_of("   ")).is_empty());
}

#[test]
fn scanner_classifies_operators_numbers_keywords() {
    let line: Vec<char> = "x = add(1.2.3, y) * 7".chars().collect();
    let spans = scan_line(&line, &kw(&["add", "x"]));
    let sp = |start, length, kind| Span { start, length, kind };
    assert_eq!(
        spans,
        vec![
            sp(0, 1, TokenKind::Function),
            sp(2, 1, TokenKind::Operator),
            sp(4, 3, TokenKind::Function),
            sp(8, 5, TokenKind::Number),
            sp(18, 1, TokenKind::Operator),
            sp(20, 1, TokenKind::Number),
        ]
    );
}

#[test]
fn scanner_words_and_underscores() {
    let line: Vec<char> = "a_b1 +- x2y 9a".chars().collect();
    let spans = scan_line(&line, &kw(&["a_b1", "x2y", "a"]));
    let sp = |start, length, kind| Span { start, length, kind };
    assert_eq!(
        spans,
        vec![
            sp(0, 4, TokenKind::Function),
            sp(5, 1, TokenKind::Operator),
            sp(6, 1, TokenKind::Operator),
            sp(8, 3, TokenKind::Function),
            sp(12, 1, TokenKind::Number),
            sp(13, 1, TokenKind::Function),
        ]
    );
}

#[test]
fn scanner_is_deterministic_and_ordered() {
    let line: Vec<char> = "1+2 foo / bar= 33.4".chars().collect();
    let k = kw(&["foo", "bar"]);
    let a = scan_line(&line, &k);
    let b = scan_line(&line, &k);
    assert_eq!(a, b);
    for w in a.windows(2) {
        assert!(w[0].start + w[0].length <= w[1].start);
    }
    assert!(a.iter().all(|s| s.length > 0 && s.start + s.length <= line.len()));
}

#[test]
fn tokens_delta_encoding_across_lines() {
    let kb = two_kb();
    let toks = document_tokens(&kb, "1 + max\n\n  len 2\n");
    assert_eq!(
        toks,
        vec![
            tok(0, 0, 1, 2),
            tok(0, 2, 1, 1),
            tok(0, 2, 3, 0),
            tok(2, 2, 3, 0),
            tok(0, 4, 1, 2),
        ]
    );
}

#[test]
fn tokens_first_on_later_line_uses_absolute_start() {
    let kb = two_kb();
    assert_eq!(document_tokens(&kb, "foo\n  =").as_slice(), &[tok(1, 2, 1, 1)]);
    assert!(document_tokens(&kb, "").is_empty());
    assert_eq!(semantic_tokens_full(&kb, &DocumentStore::new(), "u"), None);
}

#[test]
fn tokens_count_characters_not_bytes() {
    let kb = two_kb();
    assert_eq!(document_tokens(&kb, "é map").as_slice(), &[tok(0, 2, 3, 0)]);
}
