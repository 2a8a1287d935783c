//! The library against direct formulations over the standard library and
//! `convert_case`, on many generated inputs.

use convert_case::{Case, Casing};

use liscaf::merge::unique_suffixed_path;
use liscaf::rename::rename_target;
use liscaf::rewrite::apply_mappings;
use liscaf::templates::{
    is_supported_repo_url, normalize_repo_url, parse_template_entries, parse_template_line,
    TemplateEntry,
};
use liscaf::tokens::split_name_to_tokens;
use liscaf::variants::generate_variant_mappings;

/// A small deterministic generator of test inputs.
struct Source(u64);

impl Source {
    fn next(&mut self) -> u64 {
        self.0 = self.0.wrapping_mul(6364136223846793005).wrapping_add(1442695040888963407);
        self.0 >> 33
    }

    fn below(&mut self, n: usize) -> usize {
        (self.next() % (n as u64)) as usize
    }

    fn text(&mut self, alphabet: &[char], max_len: usize) -> String {
        let len = self.below(max_len + 1);
        (0..len).map(|_| alphabet[self.below(alphabet.len())]).collect()
    }
}

const NAME_CHARS: [char; 16] =
    ['a', 'b', 'Z', 'Q', '0', '7', '-', '_', ' ', '.', 'é', 'Ä', 'ß', 'Σ', '\u{2014}', 'ǅ'];

const LINE_CHARS: [char; 16] =
    ['a', 'B', '/', '|', '=', '#', ' ', '\t', '\n', '\r', '@', ':', 'h', 't', 'p', '\u{a0}'];

fn tokens_by_std(name: &str) -> Vec<String> {
    let parts: Vec<&str> =
        name.split(|c: char| !c.is_alphanumeric()).filter(|s| !s.is_empty()).collect();
    if parts.len() >= 2 {
        return parts.iter().map(|p| p.to_lowercase()).collect();
    }
    let mut tokens: Vec<String> = Vec::new();
    for c in name.chars() {
        match tokens.last_mut() {
            Some(last) if !c.is_uppercase() => last.push(c),
            _ => tokens.push(c.to_string()),
        }
    }
    tokens.iter().map(|t| t.to_lowercase()).collect()
}

fn mappings_by_std(o: &[String], n: &[String]) -> Vec<(String, String)> {
    let upper = |t: &[String]| t.iter().map(|s| s.to_uppercase()).collect::<Vec<_>>();
    let pascal = |t: &[String]| t.iter().map(|s| s.to_case(Case::Pascal)).collect::<Vec<_>>();
    let camel = |t: &[String]| {
        let mut words = pascal(t);
        if let Some(first) = words.first_mut() {
            *first = t[0].clone();
        }
        words
    };
    let forms = |t: &[String]| {
        vec![
            t.join("-"),
            t.join("_"),
            upper(t).join("_"),
            t.join(""),
            upper(t).join(""),
            camel(t).join(""),
            pascal(t).join(""),
            pascal(t).join("_"),
        ]
    };
    let mut pairs: Vec<(String, String)> = forms(o)
        .into_iter()
        .zip(forms(n))
        .filter(|(a, b)| !a.is_empty() && !b.is_empty())
        .collect();
    pairs.sort();
    pairs.dedup();
    pairs
}

fn rewrite_by_std(text: &str, mappings: &[(String, String)]) -> String {
    mappings.iter().fold(text.to_string(), |acc, (o, n)| acc.replace(o.as_str(), n.as_str()))
}

fn supported_by_std(url: &str) -> bool {
    let low = url.to_lowercase();
    ["https://", "http://", "ssh://"].iter().any(|s| low.starts_with(s))
        || (url.contains('@') && url.contains(':'))
}

fn normalized_by_std(url: &str) -> String {
    let t = url.trim();
    if !t.is_empty() && !supported_by_std(t) && t.contains('/') {
        format!("https://{}", t)
    } else {
        t.to_string()
    }
}

fn line_by_std(line: &str) -> (String, String) {
    for sep in ['|', '='] {
        if let Some((l, r)) = line.split_once(sep) {
            if !l.trim().is_empty() && !r.trim().is_empty() {
                return (l.trim().to_string(), r.trim().to_string());
            }
        }
    }
    (line.to_string(), line.to_string())
}

fn entries_by_std(content: &str) -> Vec<TemplateEntry> {
    content
        .lines()
        .map(|l| l.trim())
        .filter(|l| !l.is_empty() && !l.starts_with('#'))
        .map(line_by_std)
        .map(|(label, url)| TemplateEntry { label, url: normalized_by_std(&url) })
        .filter(|e| !e.url.is_empty())
        .collect()
}

fn first_free_by_search(base: &str, sep: &str, taken: &[String]) -> String {
    let mut name = base.to_string();
    let mut i = 1;
    while taken.contains(&name) {
        name = format!("{}{}{}", base, sep, i);
        i += 1;
    }
    name
}

#[test]
fn tokens_agree() {
    let mut source = Source(1);
    for _ in 0..3000 {
        let name = source.text(&NAME_CHARS, 8);
        assert_eq!(split_name_to_tokens(&name), tokens_by_std(&name), "{:?}", name);
    }
    for name in ["MyCoolApp", "my-cool_app", "XMLHttpRequest", "straße-ΣΑΣ", "İi", "ǅungla", ""] {
        assert_eq!(split_name_to_tokens(name), tokens_by_std(name), "{:?}", name);
    }
}

#[test]
fn mapping_sets_agree() {
    let mut source = Source(2);
    for _ in 0..1500 {
        let o = split_name_to_tokens(&source.text(&NAME_CHARS, 7));
        let n = split_name_to_tokens(&source.text(&NAME_CHARS, 7));
        assert_eq!(generate_variant_mappings(&o, &n), mappings_by_std(&o, &n), "{:?} {:?}", o, n);
    }
}

#[test]
fn mapping_sets_of_arbitrary_words_agree() {
    let mut source = Source(3);
    for _ in 0..1500 {
        let count_o = source.below(4);
        let count_n = source.below(4);
        let o: Vec<String> = (0..count_o).map(|_| source.text(&NAME_CHARS, 4)).collect();
        let n: Vec<String> = (0..count_n).map(|_| source.text(&NAME_CHARS, 4)).collect();
        assert_eq!(generate_variant_mappings(&o, &n), mappings_by_std(&o, &n), "{:?} {:?}", o, n);
    }
}

#[test]
fn rewrites_agree() {
    let mut source = Source(4);
    let alphabet = ['a', 'b', 'A', 'B', '-', '_'];
    for _ in 0..1500 {
        let o = split_name_to_tokens(&source.text(&alphabet, 4));
        let n = split_name_to_tokens(&source.text(&alphabet, 4));
        let m = generate_variant_mappings(&o, &n);
        let text = source.text(&alphabet, 24);
        assert_eq!(apply_mappings(&text, &m), rewrite_by_std(&text, &m), "{:?} {:?}", text, m);
    }
}

#[test]
fn addresses_agree() {
    let mut source = Source(5);
    for _ in 0..3000 {
        let url = source.text(&LINE_CHARS, 12);
        assert_eq!(is_supported_repo_url(&url), supported_by_std(&url), "{:?}", url);
        assert_eq!(normalize_repo_url(&url), normalized_by_std(&url), "{:?}", url);
    }
    for url in ["HTTP://x", "Ssh://x", "https:/x", "hİttp://", "ftp://a/b", " a/b ", "git@h:o/r"] {
        assert_eq!(is_supported_repo_url(url), supported_by_std(url), "{:?}", url);
        assert_eq!(normalize_repo_url(url), normalized_by_std(url), "{:?}", url);
    }
}

#[test]
fn lines_and_lists_agree() {
    let mut source = Source(6);
    for _ in 0..3000 {
        let content = source.text(&LINE_CHARS, 40);
        assert_eq!(parse_template_entries(&content), entries_by_std(&content), "{:?}", content);
        let line = source.text(&LINE_CHARS, 12);
        let (label, url) = parse_template_line(&line);
        assert_eq!((label, url), line_by_std(&line), "{:?}", line);
    }
}

#[test]
fn free_names_agree() {
    let mut source = Source(7);
    for _ in 0..1500 {
        let count = source.below(14);
        let taken: Vec<String> = (0..count)
            .map(|_| match source.below(13) {
                0 => "n.x".to_string(),
                k => format!("n.x{}", k),
            })
            .collect();
        assert_eq!(
            unique_suffixed_path(Some("n"), ".x", &taken),
            first_free_by_search("n.x", "", &taken),
            "{:?}",
            taken
        );
    }
}

#[test]
fn rename_targets_agree() {
    let mut source = Source(8);
    let m = generate_variant_mappings(&split_name_to_tokens("ab"), &split_name_to_tokens("n"));
    for _ in 0..1500 {
        let count = source.below(6);
        let taken: Vec<String> = (0..count)
            .map(|_| match source.below(5) {
                0 => "n".to_string(),
                k => format!("n_{}", k),
            })
            .collect();
        let name = ["ab", "AB", "Ab", "x", "n"][source.below(5)];
        let wanted = rewrite_by_std(name, &m);
        let expected =
            if wanted == name { None } else { Some(first_free_by_search(&wanted, "_", &taken)) };
        assert_eq!(rename_target(name, &m, &taken), expected, "{:?} {:?}", name, taken);
    }
}
