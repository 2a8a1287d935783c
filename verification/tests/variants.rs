use liscaf::text::{chars_of, string_of};
use liscaf::variants::{
    generate_variant_mappings, join, render, select_pairs, variant_pairs_of, Style,
};

fn strings(items: &[&str]) -> Vec<String> {
    items.iter().map(|s| s.to_string()).collect()
}

fn pair(a: &str, b: &str) -> (String, String) {
    (a.to_string(), b.to_string())
}

fn rows(items: &[&str]) -> Vec<Vec<char>> {
    items.iter().map(|s| s.chars().collect()).collect()
}

fn rendered(style: Style, items: &[&str]) -> String {
    string_of(&render(style, &rows(items)))
}

#[test]
fn all_eight_variants_sorted() {
    let mappings = generate_variant_mappings(&strings(&["acme", "app"]), &strings(&["shiny", "app"]));
    assert_eq!(
        mappings,
        vec![
            pair("ACMEAPP", "SHINYAPP"),
            pair("ACME_APP", "SHINY_APP"),
            pair("AcmeApp", "ShinyApp"),
            pair("Acme_App", "Shiny_App"),
            pair("acme-app", "shiny-app"),
            pair("acmeApp", "shinyApp"),
            pair("acme_app", "shiny_app"),
            pair("acmeapp", "shinyapp"),
        ]
    );
}

#[test]
fn single_token_variants_collapse() {
    let mappings = generate_variant_mappings(&strings(&["acme"]), &strings(&["shiny"]));
    assert_eq!(
        mappings,
        vec![pair("ACME", "SHINY"), pair("Acme", "Shiny"), pair("acme", "shiny")]
    );
}

#[test]
fn different_token_counts() {
    let mappings = generate_variant_mappings(&strings(&["acme", "app"]), &strings(&["tool"]));
    assert_eq!(
        mappings,
        vec![
            pair("ACMEAPP", "TOOL"),
            pair("ACME_APP", "TOOL"),
            pair("AcmeApp", "Tool"),
            pair("Acme_App", "Tool"),
            pair("acme-app", "tool"),
            pair("acmeApp", "tool"),
            pair("acme_app", "tool"),
            pair("acmeapp", "tool"),
        ]
    );
}

#[test]
fn empty_original_gives_no_pairs() {
    let mappings = generate_variant_mappings(&[], &strings(&["shiny", "app"]));
    assert_eq!(mappings, Vec::<(String, String)>::new());
}

#[test]
fn empty_replacement_gives_no_pairs() {
    let mappings = generate_variant_mappings(&strings(&["acme", "app"]), &[]);
    assert_eq!(mappings, Vec::<(String, String)>::new());
}

#[test]
fn both_empty_gives_no_pairs() {
    assert_eq!(generate_variant_mappings(&[], &[]), Vec::<(String, String)>::new());
}

#[test]
fn mapping_set_has_no_empty_side_no_duplicate_and_is_sorted() {
    let names = [
        strings(&["acme", "app"]),
        strings(&["a"]),
        strings(&["x", "y", "z"]),
        strings(&["é", "ß"]),
        strings(&[]),
    ];
    for o in names.iter() {
        for n in names.iter() {
            let m = generate_variant_mappings(o, n);
            for p in m.iter() {
                assert!(!p.0.is_empty());
                assert!(!p.1.is_empty());
            }
            for w in m.windows(2) {
                assert!(w[0] < w[1]);
            }
        }
    }
}

#[test]
fn same_original_with_two_replacements_keeps_both() {
    // one token: kebab and concat give the same original and the same
    // replacement, so they are one pair; two tokens on the new side keep
    // them apart
    let mappings = generate_variant_mappings(&strings(&["acme"]), &strings(&["shiny", "app"]));
    assert_eq!(
        mappings,
        vec![
            pair("ACME", "SHINYAPP"),
            pair("ACME", "SHINY_APP"),
            pair("Acme", "ShinyApp"),
            pair("Acme", "Shiny_App"),
            pair("acme", "shiny-app"),
            pair("acme", "shinyApp"),
            pair("acme", "shiny_app"),
            pair("acme", "shinyapp"),
        ]
    );
}

#[test]
fn each_style_renders_its_form() {
    let t = ["my", "cool", "app"];
    assert_eq!(rendered(Style::Kebab, &t), "my-cool-app");
    assert_eq!(rendered(Style::Snake, &t), "my_cool_app");
    assert_eq!(rendered(Style::UpperSnake, &t), "MY_COOL_APP");
    assert_eq!(rendered(Style::ConcatLower, &t), "mycoolapp");
    assert_eq!(rendered(Style::ConcatUpper, &t), "MYCOOLAPP");
    assert_eq!(rendered(Style::Camel, &t), "myCoolApp");
    assert_eq!(rendered(Style::Pascal, &t), "MyCoolApp");
    assert_eq!(rendered(Style::PascalSnake, &t), "My_Cool_App");
}

#[test]
fn no_tokens_render_as_nothing() {
    for style in [
        Style::Kebab,
        Style::Snake,
        Style::UpperSnake,
        Style::ConcatLower,
        Style::ConcatUpper,
        Style::Camel,
        Style::Pascal,
        Style::PascalSnake,
    ] {
        assert_eq!(rendered(style, &[]), "");
    }
}

#[test]
fn camel_keeps_first_token_as_it_is() {
    assert_eq!(rendered(Style::Camel, &["MY", "app"]), "MYApp");
}

#[test]
fn uppercase_beyond_ascii() {
    assert_eq!(rendered(Style::UpperSnake, &["é", "straße"]), "É_STRASSE");
}

#[test]
fn pascal_case_splits_a_token_at_digits() {
    assert_eq!(rendered(Style::Pascal, &["app2go"]), "App2Go");
}

#[test]
fn join_puts_separator_between_words() {
    let sep: Vec<char> = chars_of(", ");
    assert_eq!(string_of(&join(&rows(&["a", "b", "c"]), &sep)), "a, b, c");
    assert_eq!(string_of(&join(&rows(&["a"]), &sep)), "a");
    assert_eq!(string_of(&join(&rows(&[]), &sep)), "");
    assert_eq!(string_of(&join(&rows(&["", ""]), &sep)), ", ");
}

#[test]
fn variant_pairs_come_in_the_order_of_the_styles() {
    let pairs = variant_pairs_of(&strings(&["acme", "app"]), &strings(&["shiny", "app"]));
    assert_eq!(
        pairs,
        vec![
            pair("acme-app", "shiny-app"),
            pair("acme_app", "shiny_app"),
            pair("ACME_APP", "SHINY_APP"),
            pair("acmeapp", "shinyapp"),
            pair("ACMEAPP", "SHINYAPP"),
            pair("acmeApp", "shinyApp"),
            pair("AcmeApp", "ShinyApp"),
            pair("Acme_App", "Shiny_App"),
        ]
    );
}

#[test]
fn variant_pairs_of_nothing_are_eight_empty_pairs() {
    assert_eq!(variant_pairs_of(&[], &[]), vec![pair("", ""); 8]);
}

#[test]
fn selection_drops_empty_sides_sorts_and_removes_duplicates() {
    let candidates = vec![
        pair("b", "x"),
        pair("", "x"),
        pair("a", "y"),
        pair("b", "x"),
        pair("a", ""),
        pair("a", "x"),
        pair("B", "x"),
        pair("ab", "x"),
        pair("", ""),
    ];
    assert_eq!(
        select_pairs(&candidates),
        vec![pair("B", "x"), pair("a", "x"), pair("a", "y"), pair("ab", "x"), pair("b", "x")]
    );
    assert_eq!(select_pairs(&[]), Vec::<(String, String)>::new());
}

#[test]
fn selection_orders_by_code_point() {
    let candidates =
        vec![pair("é", "1"), pair("z", "1"), pair("\u{10000}", "1"), pair("\u{ffff}", "1")];
    let mut expected = candidates.clone();
    expected.sort();
    assert_eq!(select_pairs(&candidates), expected);
    assert_eq!(
        select_pairs(&candidates),
        vec![pair("z", "1"), pair("é", "1"), pair("\u{ffff}", "1"), pair("\u{10000}", "1")]
    );
}
