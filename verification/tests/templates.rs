use liscaf::config::{
    check_destination, check_repo_url, check_template_repo, clone_failure, git_unavailable,
    project_directory, repo_url_step, ConfigError, UrlStep,
};
use liscaf::templates::{
    chosen_url, is_supported_repo_url, load_template_entries, normalize_repo_url,
    parse_template_entries, parse_template_line, repositories_url, template_choices,
    template_source_kind, SourceKind, TemplateEntry,
};

fn entry(label: &str, url: &str) -> TemplateEntry {
    TemplateEntry { label: label.to_string(), url: url.to_string() }
}

fn pair(a: &str, b: &str) -> (String, String) {
    (a.to_string(), b.to_string())
}

#[test]
fn line_with_bar() {
    assert_eq!(parse_template_line("Rust CLI | owner/cli"), pair("Rust CLI", "owner/cli"));
    assert_eq!(parse_template_line("a|b|c"), pair("a", "b|c"));
}

#[test]
fn line_with_equals() {
    assert_eq!(parse_template_line("Rust CLI = owner/cli"), pair("Rust CLI", "owner/cli"));
    assert_eq!(parse_template_line("a=b=c"), pair("a", "b=c"));
}

#[test]
fn bar_wins_over_equals() {
    assert_eq!(parse_template_line("a=b|c"), pair("a=b", "c"));
    assert_eq!(parse_template_line("a|b=c"), pair("a", "b=c"));
}

#[test]
fn empty_side_of_bar_falls_back_to_equals() {
    assert_eq!(parse_template_line("a=b|"), pair("a", "b|"));
    assert_eq!(parse_template_line("|a=b"), pair("|a", "b"));
}

#[test]
fn bare_line_is_label_and_url() {
    assert_eq!(parse_template_line("owner/repo"), pair("owner/repo", "owner/repo"));
    assert_eq!(parse_template_line("a|"), pair("a|", "a|"));
    assert_eq!(parse_template_line("=b"), pair("=b", "=b"));
    assert_eq!(parse_template_line(" | "), pair(" | ", " | "));
    assert_eq!(parse_template_line(""), pair("", ""));
}

#[test]
fn entries_of_a_list() {
    let content = "# templates\n\nRust CLI | owner/cli\nweb=https://example.com/web.git\n  owner/bare  \r\n#skip|this\ngit@github.com:o/r.git\n";
    assert_eq!(
        parse_template_entries(content),
        vec![
            entry("Rust CLI", "https://owner/cli"),
            entry("web", "https://example.com/web.git"),
            entry("owner/bare", "https://owner/bare"),
            entry("git@github.com:o/r.git", "git@github.com:o/r.git"),
        ]
    );
}

#[test]
fn list_without_final_line_feed() {
    assert_eq!(parse_template_entries("a|o/r"), vec![entry("a", "https://o/r")]);
}

#[test]
fn empty_list_has_no_entries() {
    assert_eq!(parse_template_entries(""), vec![]);
    assert_eq!(parse_template_entries("\n\n  \n# only a comment\n"), vec![]);
}

#[test]
fn entry_without_slash_keeps_its_url() {
    assert_eq!(parse_template_entries("name"), vec![entry("name", "name")]);
}

#[test]
fn carriage_returns_do_not_reach_the_entries() {
    assert_eq!(
        parse_template_entries("a|o/r\r\nb|p/q\r\n"),
        vec![entry("a", "https://o/r"), entry("b", "https://p/q")]
    );
}

#[test]
fn fetched_list_is_parsed() {
    let r: Result<Vec<TemplateEntry>, String> = load_template_entries(Ok("a|o/r\n".to_string()));
    assert_eq!(r, Ok(vec![entry("a", "https://o/r")]));
}

#[test]
fn failed_fetch_is_handed_on() {
    let r: Result<Vec<TemplateEntry>, String> = load_template_entries(Err("offline".to_string()));
    assert_eq!(r, Err("offline".to_string()));
}

#[test]
fn bare_owner_and_repo_gets_https() {
    assert_eq!(normalize_repo_url("owner/repo"), "https://owner/repo");
    assert_eq!(normalize_repo_url("github.com/owner/repo"), "https://github.com/owner/repo");
    assert_eq!(normalize_repo_url("  owner/repo \n"), "https://owner/repo");
}

#[test]
fn addresses_with_a_scheme_pass_through() {
    assert_eq!(normalize_repo_url("https://github.com/o/r"), "https://github.com/o/r");
    assert_eq!(normalize_repo_url("http://github.com/o/r"), "http://github.com/o/r");
    assert_eq!(normalize_repo_url("ssh://git@github.com/o/r"), "ssh://git@github.com/o/r");
    assert_eq!(normalize_repo_url("HTTPS://GitHub.com/o/r"), "HTTPS://GitHub.com/o/r");
    assert_eq!(normalize_repo_url(" https://github.com/o/r "), "https://github.com/o/r");
}

#[test]
fn scp_like_addresses_pass_through() {
    assert_eq!(normalize_repo_url("git@github.com:o/r.git"), "git@github.com:o/r.git");
}

#[test]
fn address_without_slash_stays() {
    assert_eq!(normalize_repo_url("repo"), "repo");
    assert_eq!(normalize_repo_url(""), "");
    assert_eq!(normalize_repo_url("   "), "");
}

#[test]
fn other_schemes_get_https_in_front() {
    assert_eq!(normalize_repo_url("ftp://host/r"), "https://ftp://host/r");
}

#[test]
fn white_space_beyond_ascii_is_trimmed() {
    assert_eq!(normalize_repo_url("\u{a0}owner/repo\u{2003}"), "https://owner/repo");
}

#[test]
fn lowercase_beyond_ascii_decides_the_scheme() {
    assert_eq!(normalize_repo_url("HTTPS://exämple.com/r"), "HTTPS://exämple.com/r");
    assert!(is_supported_repo_url("SSH://exämple.com/r"));
    assert!(!is_supported_repo_url("exämple.com/r"));
}

#[test]
fn supported_addresses() {
    assert!(is_supported_repo_url("https://github.com/o/r"));
    assert!(is_supported_repo_url("http://github.com/o/r"));
    assert!(is_supported_repo_url("ssh://git@github.com/o/r"));
    assert!(is_supported_repo_url("Https://github.com/o/r"));
    assert!(is_supported_repo_url("git@github.com:o/r.git"));
    assert!(is_supported_repo_url(":@"));
}

#[test]
fn unsupported_addresses() {
    assert!(!is_supported_repo_url("owner/repo"));
    assert!(!is_supported_repo_url("ftp://host/r"));
    assert!(!is_supported_repo_url("git@github.com"));
    assert!(!is_supported_repo_url("host:path"));
    assert!(!is_supported_repo_url(""));
    assert!(!is_supported_repo_url(" https://github.com/o/r"));
}

#[test]
fn kinds_of_sources() {
    assert_eq!(template_source_kind("https://example.com/t", false), SourceKind::Http);
    assert_eq!(template_source_kind("http://example.com/t", true), SourceKind::Http);
    assert_eq!(template_source_kind("/home/me/templates", true), SourceKind::Directory);
    assert_eq!(template_source_kind("github.com/o/r", false), SourceKind::Repository);
    assert_eq!(template_source_kind("HTTPS://example.com/t", false), SourceKind::Repository);
}

#[test]
fn url_of_the_list() {
    assert_eq!(repositories_url("https://example.com/t"), "https://example.com/t/repositories.txt");
    assert_eq!(repositories_url("https://example.com/t/"), "https://example.com/t/repositories.txt");
    assert_eq!(repositories_url(""), "/repositories.txt");
}

#[test]
fn choices_end_with_manual_entry() {
    let entries = vec![entry("a", "https://o/a"), entry("b", "https://o/b")];
    assert_eq!(
        template_choices(&entries),
        vec!["a".to_string(), "b".to_string(), "Enter URL manually".to_string()]
    );
    assert_eq!(template_choices(&[]), vec!["Enter URL manually".to_string()]);
}

#[test]
fn choice_gives_the_url_of_the_first_entry_with_that_label() {
    let entries = vec![entry("a", "https://o/a"), entry("b", "https://o/b"), entry("a", "https://o/c")];
    assert_eq!(chosen_url(&entries, "a"), Some("https://o/a".to_string()));
    assert_eq!(chosen_url(&entries, "b"), Some("https://o/b".to_string()));
    assert_eq!(chosen_url(&entries, "c"), Some("c".to_string()));
    assert_eq!(chosen_url(&entries, "Enter URL manually"), None);
}

#[test]
fn manual_entry_wins_over_an_entry_of_that_label() {
    let entries = vec![entry("Enter URL manually", "https://o/a")];
    assert_eq!(chosen_url(&entries, "Enter URL manually"), None);
}

#[test]
fn repo_url_steps() {
    assert_eq!(repo_url_step("", true), Err(ConfigError::MissingRepoUrl));
    assert_eq!(repo_url_step("", false), Ok(UrlStep::Ask));
    assert_eq!(repo_url_step("o/r", true), Ok(UrlStep::Use));
    assert_eq!(repo_url_step("o/r", false), Ok(UrlStep::Confirm));
}

#[test]
fn repo_url_checks() {
    assert_eq!(check_repo_url("https://github.com/o/r"), Ok(()));
    assert_eq!(check_repo_url("o/r"), Err(ConfigError::UnsupportedRepoUrl));
    assert_eq!(check_template_repo("git@h:o/r"), Ok(()));
    assert_eq!(check_template_repo("o/r"), Err(ConfigError::UnsupportedTemplateSource));
}

#[test]
fn destination_checks() {
    assert_eq!(check_destination(true, true), Ok(()));
    assert_eq!(check_destination(true, false), Err(ConfigError::DestinationNotDirectory));
    assert_eq!(check_destination(false, false), Err(ConfigError::DestinationMissing));
}

#[test]
fn error_messages() {
    assert_eq!(
        ConfigError::MissingRepoUrl.message(""),
        "repo URL must be provided when running non-interactively"
    );
    assert_eq!(
        ConfigError::UnsupportedRepoUrl.message("o/r"),
        "Repo URL must be HTTPS, SSH (ssh://), or SCP-like (git@host:owner/repo.git)"
    );
    assert_eq!(
        ConfigError::UnsupportedTemplateSource.message("o/r"),
        "Template source repo URL is not supported: o/r"
    );
    assert_eq!(
        ConfigError::DestinationNotDirectory.message("/d/f"),
        "Destination is not a directory: /d/f"
    );
}

#[test]
fn project_directory_names() {
    assert_eq!(project_directory("shiny-app", false), "shiny-app");
    assert_eq!(project_directory("shiny-app", true), "shiny-app_from_template");
}

#[test]
fn clone_failures_name_the_exit_code() {
    assert_eq!(clone_failure(Some(128)), "git clone failed with code: 128");
    assert_eq!(clone_failure(Some(1)), "git clone failed with code: 1");
    assert_eq!(clone_failure(Some(0)), "git clone failed with code: 0");
    assert_eq!(clone_failure(Some(-7)), "git clone failed with code: -7");
    assert_eq!(clone_failure(None), "git clone failed with code: -1");
    assert_eq!(clone_failure(Some(i32::MAX)), format!("git clone failed with code: {}", i32::MAX));
    assert_eq!(clone_failure(Some(i32::MIN)), format!("git clone failed with code: {}", i32::MIN));
}

#[test]
fn missing_git_is_reported() {
    assert_eq!(git_unavailable("No such file or directory"), "Failed to run git: No such file or directory");
}
