use parrot_rs::config::default_config;
use parrot_rs::evaluate_config;
use parrot_rs::file::{
    is_fasl_file, is_lisp_file, normalize_path, path_to_node_name, paths_are_eq, to_rel_path,
};
use parrot_rs::fts::index::Index;
use parrot_rs::fts::models::Document;
use parrot_rs::parsing::{bool_to_nil_or_t, nil_or_string, option_str};
use parrot_rs::state::{get_state_value, set_state_value};
use parrot_rs::text::{
    add_leading_and_trailing_slash, escape_form, escape_quotes, get_surrounding_context, quote,
    tokenize_lowercase, tokenize_lowercase_unique, trim_escaped_quotes, trim_parens,
    trim_quote_op, trim_quotes, u64_hash, unescape_quotes,
};
use parrot_rs::ConfigValueStatus;

#[test]
fn escaping_round_trips_quotes() {
    assert_eq!(escape_quotes("say \"hi\""), "say \\\"hi\\\"");
    assert_eq!(unescape_quotes("say \\\"hi\\\""), "say \"hi\"");
    assert_eq!(escape_form("a\"b\\c"), "a\\\"b\\\\c");
}

#[test]
fn trimming_takes_wrappers_off() {
    assert_eq!(trim_quotes("\"abc\"".to_string()), "abc");
    assert_eq!(trim_quotes("abc".to_string()), "abc");
    assert_eq!(trim_escaped_quotes("\\\"abc\\\"".to_string()), "abc");
    assert_eq!(trim_parens("(abc)".to_string()), "abc");
    assert_eq!(trim_quote_op("#'car".to_string()), "car");
    assert_eq!(trim_quote_op("'car".to_string()), "ar");
    assert_eq!(quote("car"), "'car");
    assert_eq!(quote("'car"), "'car");
    assert_eq!(quote("#'car"), "#'car");
}

#[test]
fn slashes_lean_toward_the_separator_in_use() {
    assert_eq!(add_leading_and_trailing_slash("a/b".to_string()), "/a/b/");
    assert_eq!(add_leading_and_trailing_slash("a\\b".to_string()), "\\a\\b\\");
    assert_eq!(add_leading_and_trailing_slash("/a/b/".to_string()), "/a/b/");
}

#[test]
fn tokenizing_lowercases_before_hashing() {
    assert_eq!(tokenize_lowercase_unique("TEST test"), vec!["test".to_string()]);
    assert_eq!(tokenize_lowercase("Apple banana Apple"), tokenize_lowercase("apple BANANA apple"));
    assert_eq!(u64_hash("abc"), u64_hash("abc"));
    assert_ne!(u64_hash("abc"), u64_hash("abd"));
}

#[test]
fn context_window_widens_at_the_edges() {
    let (ctx, start) = get_surrounding_context("abcdefghij", 1, 2);
    assert_eq!(start, 0);
    assert_eq!(ctx, "abcd");
    let (ctx2, start2) = get_surrounding_context("abcdefghij", 5, 2);
    assert_eq!(start2, 3);
    assert_eq!(ctx2, "defg");
}

#[test]
fn file_kinds_follow_the_extension() {
    assert!(is_lisp_file("src/foo.lisp"));
    assert!(is_lisp_file("src/foo.cl"));
    assert!(!is_lisp_file("src/foo.fasl"));
    assert!(is_fasl_file("out/foo.fasl"));
    assert!(!is_fasl_file("out/foo"));
    assert!(!is_lisp_file(".lisp"));
}

#[test]
fn path_helpers_normalize_and_strip() {
    assert_eq!(normalize_path("a\\b\\c.lisp"), "a/b/c.lisp");
    assert_eq!(path_to_node_name("a/b/c.lisp"), "c.lisp");
    assert_eq!(path_to_node_name("a/b/"), "b");
    assert!(paths_are_eq("a/b", "a/b"));
    assert!(!paths_are_eq("a/b", "a/c"));
    assert_eq!(to_rel_path("/root", "/root/sub/f.lisp"), "sub/f.lisp");
}

#[test]
fn protocol_literals_render_optional_values() {
    assert_eq!(nil_or_string(Some("x".to_string())), "\"x\"");
    assert_eq!(nil_or_string(None), "nil");
    assert_eq!(option_str("nil"), None);
    assert_eq!(option_str("text"), Some("text".to_string()));
    assert_eq!(bool_to_nil_or_t(&true), "T");
    assert_eq!(bool_to_nil_or_t(&false), "nil");
}

#[test]
fn state_store_replaces_and_appends() {
    let mut state: Vec<(String, String)> = Vec::new();
    assert!(get_state_value(&state, "k").is_none());
    set_state_value(&mut state, "k".to_string(), "v1".to_string());
    assert_eq!(get_state_value(&state, "k"), Some("v1".to_string()));
    set_state_value(&mut state, "k".to_string(), "v2".to_string());
    assert_eq!(get_state_value(&state, "k"), Some("v2".to_string()));
    set_state_value(&mut state, "other".to_string(), "v3".to_string());
    assert_eq!(get_state_value(&state, "k"), Some("v2".to_string()));
    assert_eq!(get_state_value(&state, "other"), Some("v3".to_string()));
}

#[test]
fn config_diagnostics_follow_the_checks() {
    let mut c = default_config();
    assert_eq!(c.slynk_socket, "127.0.0.1:4005");
    let d = evaluate_config(&c, false, false, true);
    assert!(!d.ok);
    assert!(matches!(d.path_to_sbcl, ConfigValueStatus::ValueMissing));
    c.path_to_sbcl = Some("/usr/bin/sbcl".to_string());
    c.path_to_core = Some("/opt/core".to_string());
    let d2 = evaluate_config(&c, true, true, true);
    assert!(d2.ok);
    assert!(matches!(d2.path_to_sbcl, ConfigValueStatus::Okay(_)));
    let d3 = evaluate_config(&c, false, true, true);
    assert!(!d3.ok);
    assert!(matches!(d3.path_to_sbcl, ConfigValueStatus::ValueInvalid(_)));
}

#[test]
fn document_counts_terms_and_name_tokens() {
    let tokens: Vec<u64> = vec![7, 7, 9];
    let doc = Document::new("sub/hello.lisp", &tokens);
    assert_eq!(doc.term_freq(7), 2);
    assert_eq!(doc.term_freq(9), 1);
    assert_eq!(doc.term_freq(8), 0);
    assert_eq!(doc.name_lower_str(), "hello.lisp");
    let name_grams = parrot_rs::text::ngram_tokenize_lowercase("hello.lisp", 3);
    assert!(doc.token_is_in_name(name_grams[0]));
}

#[test]
fn index_adds_finds_and_removes_documents() {
    let mut index = Index::new();
    let files = vec![
        ("/root/a.lisp".to_string(), Some("(defun a ())".to_string())),
        ("/root/sub/b.lisp".to_string(), Some("(defun b ())".to_string())),
    ];
    index.build("/root".to_string(), &files);
    let id_a = index.get_doc_id("a.lisp").expect("a.lisp is indexed");
    assert!(index.get_documents_id("a.lisp").is_some());
    assert_eq!(index.get_documents_in_dir_rec("sub").len(), 1);
    let removed = index.remove_document(id_a);
    assert_eq!(removed.path_str(), "a.lisp");
    assert!(index.get_doc_id("a.lisp").is_none());
    let again = index.add_document("/root/a.lisp", Some("(defun a ())".to_string()));
    assert!(again.is_ok());
    let gone = index.remove_document_if_existing("/root/sub/b.lisp");
    assert!(gone.is_some());
    assert!(index.remove_document_if_existing("/root/sub/b.lisp").is_none());
}

#[test]
fn dir_rename_rekeys_documents() {
    let mut index = Index::new();
    let files = vec![("/root/old/a.lisp".to_string(), Some("x".to_string()))];
    index.build("/root".to_string(), &files);
    index.handle_dir_rename("/root/old", "/root/new");
    assert!(index.get_doc_id("old/a.lisp").is_none());
    assert!(index.get_doc_id("new/a.lisp").is_some());
}

#[test]
fn files_deletion_drops_them_from_the_index() {
    let mut index = Index::new();
    let files = vec![
        ("/root/a.lisp".to_string(), Some("x".to_string())),
        ("/root/b.lisp".to_string(), Some("y".to_string())),
    ];
    index.build("/root".to_string(), &files);
    index.handle_files_deletion(&vec!["/root/a.lisp".to_string()]);
    assert!(index.get_doc_id("a.lisp").is_none());
    assert!(index.get_doc_id("b.lisp").is_some());
}

#[test]
fn line_lookup_by_byte_offset() {
    let text = "first\nsecönd\nthird";
    let (ix, pos, line) = parrot_rs::text::get_line_from_byte_offset(text, 0);
    assert_eq!((ix, pos, line.as_str()), (0, 0, "first\n"));
    // "ö" weighs two bytes, so byte 10 is the fourth character of line 1
    let (ix2, pos2, line2) = parrot_rs::text::get_line_from_byte_offset(text, 10);
    assert_eq!((ix2, pos2, line2.as_str()), (1, 4, "secönd\n"));
    let (ix3, pos3, line3) = parrot_rs::text::get_line_from_byte_offset(text, text.len());
    assert_eq!((ix3, pos3, line3.as_str()), (2, 5, "third"));
}

#[test]
fn line_lookup_counts_tabs_as_four() {
    let text = "\tabc\n";
    let (ix, pos, line) = parrot_rs::text::get_line_from_byte_offset(text, 2);
    assert_eq!((ix, pos, line.as_str()), (0, 5, "\tabc\n"));
}

#[test]
fn ranking_puts_most_hits_first() {
    let index = Index::new();
    let ranked = index.rank_ngrams(
        vec![(1, 2), (2, 9), (3, 5)],
        parrot_rs::fts::models::SearchMode::Files,
    );
    assert_eq!(ranked, vec![2, 3, 1]);
}

#[test]
fn content_write_replaces_the_stored_text() {
    let mut index = Index::new();
    let files = vec![("/root/a.lisp".to_string(), Some("old text".to_string()))];
    index.build("/root".to_string(), &files);
    index.handle_file_content_write("/root/a.lisp", "new text".to_string());
    let stored: Vec<&(u32, String)> = index.index_file_contents.iter().collect();
    assert_eq!(stored.len(), 1);
    assert_eq!(stored[0].1, "new text");
}
