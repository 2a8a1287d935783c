use liscaf::rewrite::{
    apply_mappings, bytes_to_text, is_vcs_path, replace_all, report_update, report_write_failure,
    rewrite_content,
};
use liscaf::text::{chars_of, string_of};
use liscaf::tokens::split_name_to_tokens;
use liscaf::variants::generate_variant_mappings;

fn pair(a: &str, b: &str) -> (String, String) {
    (a.to_string(), b.to_string())
}

fn replace(text: &str, from: &str, to: &str) -> String {
    string_of(&replace_all(&chars_of(text), &chars_of(from), &chars_of(to)))
}

fn acme_to_shiny() -> Vec<(String, String)> {
    generate_variant_mappings(&split_name_to_tokens("acme-app"), &split_name_to_tokens("shiny-app"))
}

#[test]
fn acme_app_becomes_shiny_app() {
    let m = acme_to_shiny();
    let input = "struct AcmeApp; mod acme_app; const ACME-APP: u8 = 0; ACME_APP acme-app acmeApp";
    let output = apply_mappings(input, &m);
    assert_eq!(
        output,
        "struct ShinyApp; mod shiny_app; const ACME-APP: u8 = 0; SHINY_APP shiny-app shinyApp"
    );
}

#[test]
fn forms_that_are_no_variant_stay() {
    let m = acme_to_shiny();
    assert_eq!(apply_mappings("ACME-APP Acme-App acme.app aCmEaPp", &m), "ACME-APP Acme-App acme.app aCmEaPp");
}

#[test]
fn every_variant_is_replaced_by_its_counterpart() {
    let m = acme_to_shiny();
    for (o, n) in m.iter() {
        assert_eq!(&apply_mappings(o, &m), n);
        let text = format!("<{}>", o);
        assert_eq!(apply_mappings(&text, &m), format!("<{}>", n));
    }
}

#[test]
fn rewriting_the_output_again_changes_nothing() {
    let m = acme_to_shiny();
    let input = "AcmeApp acme_app ACME_APP acme-app acmeApp acmeapp ACMEAPP Acme_App other";
    let once = apply_mappings(input, &m);
    assert_eq!(once, "ShinyApp shiny_app SHINY_APP shiny-app shinyApp shinyapp SHINYAPP Shiny_App other");
    assert_eq!(apply_mappings(&once, &m), once);
}

#[test]
fn text_without_an_original_is_left_alone() {
    let m = acme_to_shiny();
    assert_eq!(apply_mappings("nothing to see", &m), "nothing to see");
    assert_eq!(apply_mappings("", &m), "");
}

#[test]
fn no_mappings_change_nothing() {
    assert_eq!(apply_mappings("AcmeApp", &[]), "AcmeApp");
}

#[test]
fn pairs_are_applied_one_after_the_other() {
    let m = vec![pair("a", "b"), pair("b", "c")];
    assert_eq!(apply_mappings("a b", &m), "c c");
    let m = vec![pair("b", "c"), pair("a", "b")];
    assert_eq!(apply_mappings("a b", &m), "b c");
}

#[test]
fn replacement_can_bring_back_an_original() {
    // the new name holds the old one: a second run rewrites again
    let m = generate_variant_mappings(&["a".to_string()], &["ba".to_string()]);
    let once = apply_mappings("a", &m);
    assert_eq!(once, "ba");
    assert_eq!(apply_mappings(&once, &m), "bba");
}

#[test]
fn replace_all_is_left_to_right_without_overlap() {
    assert_eq!(replace("aaa", "aa", "b"), "ba");
    assert_eq!(replace("aaaa", "aa", "b"), "bb");
    assert_eq!(replace("abab", "ab", "abab"), "abababab");
    assert_eq!(replace("xabcx", "abc", ""), "xx");
    assert_eq!(replace("abc", "abcd", "x"), "abc");
    assert_eq!(replace("", "a", "x"), "");
    assert_eq!(replace("héllo wörld", "ö", "oe"), "héllo woerld");
}

#[test]
fn replace_all_agrees_with_the_standard_library() {
    let texts = ["", "a", "aaa", "abcabc", "ababa", "xxabxxab", "mississippi"];
    let patterns = ["", "a", "aa", "ab", "aba", "ss", "issi", "z"];
    for t in texts {
        for p in patterns {
            assert_eq!(replace(t, p, "-"), t.replace(p, "-"), "{:?} {:?}", t, p);
            assert_eq!(replace(t, p, ""), t.replace(p, ""), "{:?} {:?}", t, p);
            assert_eq!(replace(t, p, "aab"), t.replace(p, "aab"), "{:?} {:?}", t, p);
        }
    }
}

#[test]
fn empty_pattern_stands_before_every_character_and_at_the_end() {
    assert_eq!(replace("abc", "", "X"), "XaXbXcX");
    assert_eq!(replace("", "", "X"), "X");
}

#[test]
fn bytes_with_nul_are_no_text() {
    assert_eq!(bytes_to_text(b"ab\0cd"), None);
    assert_eq!(bytes_to_text(&[0]), None);
}

#[test]
fn invalid_utf8_is_no_text() {
    assert_eq!(bytes_to_text(&[0xff, 0xfe]), None);
    assert_eq!(bytes_to_text(&[b'a', 0xc3]), None);
    assert_eq!(bytes_to_text(&[0xed, 0xa0, 0x80]), None);
}

#[test]
fn valid_utf8_is_text() {
    assert_eq!(bytes_to_text(b"hello"), Some("hello".to_string()));
    assert_eq!(bytes_to_text("héllo → wörld".as_bytes()), Some("héllo → wörld".to_string()));
    assert_eq!(bytes_to_text(b""), Some(String::new()));
}

#[test]
fn content_is_rewritten_only_if_it_changes() {
    let m = acme_to_shiny();
    assert_eq!(rewrite_content(b"name = \"acme-app\"\n", &m), Some("name = \"shiny-app\"\n".to_string()));
    assert_eq!(rewrite_content(b"name = \"other\"\n", &m), None);
    assert_eq!(rewrite_content(b"", &m), None);
}

#[test]
fn binary_content_is_not_rewritten() {
    let m = acme_to_shiny();
    assert_eq!(rewrite_content(b"acme-app\0", &m), None);
    assert_eq!(rewrite_content(&[b'a', b'c', b'm', b'e', b'-', b'a', b'p', b'p', 0xff], &m), None);
}

#[test]
fn vcs_paths_are_recognised() {
    let path = |items: &[&str]| items.iter().map(|s| s.to_string()).collect::<Vec<String>>();
    assert!(is_vcs_path(&path(&["tmp", ".git", "config"])));
    assert!(is_vcs_path(&path(&[".git"])));
    assert!(!is_vcs_path(&path(&["tmp", ".github", "workflows"])));
    assert!(!is_vcs_path(&path(&["tmp", "git", ".gitignore"])));
    assert!(!is_vcs_path(&path(&[])));
}

#[test]
fn update_reports() {
    assert_eq!(report_update("/tmp/x/a.txt", false), "REPL: Updated file: /tmp/x/a.txt");
    assert_eq!(report_update("/tmp/x/a.txt", true), "DRY REPL: Would update file: /tmp/x/a.txt");
    assert_eq!(
        report_write_failure("/tmp/x/a.txt", "permission denied"),
        "WARN: Failed to write file /tmp/x/a.txt: permission denied"
    );
}
