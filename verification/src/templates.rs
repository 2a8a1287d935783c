//! The list of templates to choose from, and the addresses of repositories.
//!
//! The list is a text of lines. A line is `label|url`, `label=url` or a bare
//! URL that is its own label; empty lines and lines that begin with `#` say
//! nothing. The caller fetches the text; this module reads it.

use vstd::prelude::*;
use vstd::string::StringExecFns;

use crate::text::{
    append, chars_of, copy_of, find_char, has_char, lowercased, rows, same_text,
    slice_of, split_once, starts_with, string_of, to_lowercase, trim, trimmed,
};

verus! {

/// A template to choose: what the user sees, and where the repository is.
#[derive(Debug, Clone, PartialEq, Eq)]
pub struct TemplateEntry {
    pub label: String,
    pub url: String,
}

impl DeepView for TemplateEntry {
    type V = (Seq<char>, Seq<char>);

    open spec fn deep_view(&self) -> (Seq<char>, Seq<char>) {
        (self.label@, self.url@)
    }
}

/// Where a list of templates is read from.
#[derive(Debug, Clone, Copy, PartialEq, Eq)]
pub enum SourceKind {
    /// A base URL: the list is fetched over HTTP.
    Http,
    /// A directory on this machine that holds the list.
    Directory,
    /// A repository that holds the list and has to be cloned.
    Repository,
}

// ---------------------------------------------------------------------------
// Addresses of repositories
// ---------------------------------------------------------------------------

/// `url` begins with `http://`, `https://` or `ssh://`, in any mix of upper
/// and lower case.
pub open spec fn has_scheme(url: Seq<char>) -> bool {
    let low = lowercased(url);
    "https://"@.is_prefix_of(low) || "http://"@.is_prefix_of(low) || "ssh://"@.is_prefix_of(low)
}

/// `url` can be cloned from: it has one of the schemes, or it has the form
/// `user@host:path`, which is to say that it holds an `@` and a `:`.
pub open spec fn is_supported(url: Seq<char>) -> bool {
    has_scheme(url) || (url.contains('@') && url.contains(':'))
}

/// The address that `url` stands for: `url` without the white space around
/// it, and with `https://` in front where it has no scheme, is not of the
/// form `user@host:path` and holds a `/`, as `owner/repo` does.
pub open spec fn normalized(url: Seq<char>) -> Seq<char> {
    let t = trimmed(url);
    if t.len() == 0 {
        t
    } else if is_supported(t) {
        t
    } else if t.contains('/') {
        "https://"@ + t
    } else {
        t
    }
}

fn supported(url: &Vec<char>) -> (b: bool)
    ensures
        b == is_supported(url@),
{
    let low = to_lowercase(url);
    let https = chars_of("https://");
    let http = chars_of("http://");
    let ssh = chars_of("ssh://");
    if starts_with(&low, &https) || starts_with(&low, &http) {
        return true;
    }
    if starts_with(&low, &ssh) {
        return true;
    }
    has_char(url, '@') && has_char(url, ':')
}

/// Whether a repository can be cloned from `repo_url`: the address begins
/// with `https://`, `http://` or `ssh://`, in whatever case, or it is of
/// the form `user@host:path`.
pub fn is_supported_repo_url(repo_url: &str) -> (b: bool)
    ensures
        b == is_supported(repo_url@),
{
    let url = chars_of(repo_url);
    supported(&url)
}

fn normalize(url: &Vec<char>) -> (r: Vec<char>)
    ensures
        r@ == normalized(url@),
{
    let t = trim(url);
    if t.len() == 0 {
        return t;
    }
    if supported(&t) {
        return t;
    }
    if has_char(&t, '/') {
        let mut r = chars_of("https://");
        append(&mut r, &t);
        return r;
    }
    t
}

/// The address that `repo_url` stands for. White space around it is
/// dropped. An address with a scheme or of the form `user@host:path` stays
/// as it is; any other that holds a `/` gets `https://` in front.
pub fn normalize_repo_url(repo_url: &str) -> (r: String)
    ensures
        r@ == normalized(repo_url@),
{
    let url = chars_of(repo_url);
    let r = normalize(&url);
    string_of(&r)
}

// ---------------------------------------------------------------------------
// Lines
// ---------------------------------------------------------------------------

/// The label and the URL that `line` gives when cut at its first `sep`:
/// both without white space around them, and only if neither is empty.
pub open spec fn labelled(line: Seq<char>, sep: char) -> Option<(Seq<char>, Seq<char>)> {
    match split_once(line, sep) {
        Some((left, right)) => if trimmed(left).len() > 0 && trimmed(right).len() > 0 {
            Some((trimmed(left), trimmed(right)))
        } else {
            None
        },
        None => None,
    }
}

/// The label and the URL of `line`: what a cut at the first `|` gives, or
/// else what a cut at the first `=` gives, or else the line for both.
pub open spec fn parsed_line(line: Seq<char>) -> (Seq<char>, Seq<char>) {
    match labelled(line, '|') {
        Some(p) => p,
        None => match labelled(line, '=') {
            Some(p) => p,
            None => (line, line),
        },
    }
}

/// The lines of `s`: the pieces between its line feeds.
pub open spec fn lines_of(s: Seq<char>) -> Seq<Seq<char>>
    decreases s.len(),
{
    if s.len() == 0 {
        seq![Seq::empty()]
    } else {
        let rest = lines_of(s.drop_last());
        if s.last() == '\n' {
            rest.push(Seq::empty())
        } else {
            rest.update(rest.len() - 1, rest.last().push(s.last()))
        }
    }
}

/// The entry that `line` gives: none if the line without the white space
/// around it is empty or begins with `#`, or if its URL is empty once
/// normalized.
pub open spec fn entry_of_line(line: Seq<char>) -> Option<(Seq<char>, Seq<char>)> {
    let t = trimmed(line);
    if t.len() == 0 || t[0] == '#' {
        None
    } else {
        let (label, url) = parsed_line(t);
        if normalized(url).len() > 0 {
            Some((label, normalized(url)))
        } else {
            None
        }
    }
}

/// The entries that `lines` give, in the order of the lines.
pub open spec fn entries_of_lines(lines: Seq<Seq<char>>) -> Seq<(Seq<char>, Seq<char>)>
    decreases lines.len(),
{
    if lines.len() == 0 {
        Seq::empty()
    } else {
        let rest = entries_of_lines(lines.drop_last());
        match entry_of_line(lines.last()) {
            Some(e) => rest.push(e),
            None => rest,
        }
    }
}

/// The entries of a list of templates.
pub open spec fn entries_of(content: Seq<char>) -> Seq<(Seq<char>, Seq<char>)> {
    entries_of_lines(lines_of(content))
}

fn label_and_url(line: &Vec<char>, sep: char) -> (r: Option<(Vec<char>, Vec<char>)>)
    ensures
        (match r {
            Some((label, url)) => labelled(line@, sep) == Some((label@, url@)),
            None => labelled(line@, sep) is None,
        }),
{
    match find_char(line, sep) {
        None => None,
        Some(i) => {
            let left = slice_of(line, 0, i);
            let right = slice_of(line, i + 1, line.len());
            let label = trim(&left);
            let url = trim(&right);
            proof {
                assert(left@ =~= line@.take(i as int));
                assert(right@ =~= line@.skip(i + 1));
            }
            if label.len() > 0 && url.len() > 0 {
                Some((label, url))
            } else {
                None
            }
        },
    }
}

fn parse_line(line: &Vec<char>) -> (r: (Vec<char>, Vec<char>))
    ensures
        (r.0@, r.1@) == parsed_line(line@),
{
    match label_and_url(line, '|') {
        Some(p) => p,
        None => match label_and_url(line, '=') {
            Some(p) => p,
            None => (copy_of(line), copy_of(line)),
        },
    }
}

/// The label and the URL of one line of the list: the two sides of the
/// first `|`, or else of the first `=`, each without the white space around
/// it, where neither side is empty; else the whole line for both.
pub fn parse_template_line(line: &str) -> (r: (String, String))
    ensures
        (r.0@, r.1@) == parsed_line(line@),
{
    let chars = chars_of(line);
    let (label, url) = parse_line(&chars);
    (string_of(&label), string_of(&url))
}

fn split_lines(s: &Vec<char>) -> (r: Vec<Vec<char>>)
    ensures
        rows(r@) == lines_of(s@),
{
    let mut done: Vec<Vec<char>> = Vec::new();
    let mut current: Vec<char> = Vec::new();
    let mut i: usize = 0;
    assert(s@.take(0) =~= Seq::<char>::empty());
    assert(rows(done@).push(current@) =~= seq![Seq::<char>::empty()]);
    while i < s.len()
        invariant
            i <= s.len(),
            rows(done@).push(current@) == lines_of(s@.take(i as int)),
        decreases s.len() - i,
    {
        let c = s[i];
        let ghost before = s@.take(i as int);
        let ghost after = s@.take(i + 1);
        let ghost old_done = rows(done@);
        let ghost old_current = current@;
        proof {
            assert(after.drop_last() =~= before);
            assert(after.last() == c);
        }
        if c == '\n' {
            done.push(current);
            current = Vec::new();
            assert(rows(done@) =~= old_done.push(old_current));
            assert(current@ =~= Seq::<char>::empty());
        } else {
            current.push(c);
            proof {
                let rest = old_done.push(old_current);
                assert(rest.update(rest.len() - 1, rest.last().push(c)) =~= old_done.push(
                    current@,
                ));
            }
        }
        i += 1;
    }
    assert(s@.take(s.len() as int) =~= s@);
    let ghost old_done = rows(done@);
    let ghost old_current = current@;
    done.push(current);
    assert(rows(done@) =~= old_done.push(old_current));
    done
}

/// The entries of the list of templates `content`, in the order of its
/// lines. A line counts without the white space around it. Empty lines and
/// lines that begin with `#` give nothing, and neither does a line whose
/// URL is empty; the URL of every entry is normalized.
pub fn parse_template_entries(content: &str) -> (entries: Vec<TemplateEntry>)
    ensures
        entries.deep_view() == entries_of(content@),
{
    let chars = chars_of(content);
    let lines = split_lines(&chars);
    let ghost all = rows(lines@);
    let mut entries: Vec<TemplateEntry> = Vec::new();
    let mut i: usize = 0;
    assert(all.take(0) =~= Seq::<Seq<char>>::empty());
    assert(entries.deep_view() =~= entries_of_lines(all.take(0)));
    while i < lines.len()
        invariant
            i <= lines.len(),
            all == rows(lines@),
            entries.deep_view() == entries_of_lines(all.take(i as int)),
        decreases lines.len() - i,
    {
        let ghost before = entries.deep_view();
        proof {
            let next = all.take(i + 1);
            assert(next.drop_last() =~= all.take(i as int));
            assert(next.last() == lines@[i as int]@);
        }
        let t = trim(&lines[i]);
        if t.len() > 0 && t[0] != '#' {
            let (label, url) = parse_line(&t);
            let address = normalize(&url);
            if address.len() > 0 {
                let entry = TemplateEntry { label: string_of(&label), url: string_of(&address) };
                entries.push(entry);
                assert(entries.deep_view() =~= before.push((label@, address@)));
            }
        }
        i += 1;
    }
    assert(all.take(lines.len() as int) =~= all);
    entries
}

/// The entries of a list of templates that was fetched, or the reason why
/// it could not be fetched, handed on as it came.
pub fn load_template_entries<E>(fetched: Result<String, E>) -> (r: Result<Vec<TemplateEntry>, E>)
    ensures
        (match fetched {
            Ok(content) => r matches Ok(entries) && entries.deep_view() == entries_of(content@),
            Err(e) => r == Err::<Vec<TemplateEntry>, E>(e),
        }),
{
    match fetched {
        Ok(content) => Ok(parse_template_entries(content.as_str())),
        Err(e) => Err(e),
    }
}

// ---------------------------------------------------------------------------
// Where the list is
// ---------------------------------------------------------------------------

/// Where the list of templates named by `source` is read from: over HTTP if
/// `source` begins with `http://` or `https://`, written just so; else from
/// the directory `source` if there is one; else from a repository.
pub open spec fn source_kind_of(source: Seq<char>, exists_on_disk: bool) -> SourceKind {
    if "http://"@.is_prefix_of(source) || "https://"@.is_prefix_of(source) {
        SourceKind::Http
    } else if exists_on_disk {
        SourceKind::Directory
    } else {
        SourceKind::Repository
    }
}

/// Where the list of templates named by `source` is read from.
/// `exists_on_disk` says whether `source` is a path that exists.
pub fn template_source_kind(source: &str, exists_on_disk: bool) -> (kind: SourceKind)
    ensures
        kind == source_kind_of(source@, exists_on_disk),
{
    let s = chars_of(source);
    let http = chars_of("http://");
    let https = chars_of("https://");
    if starts_with(&s, &http) || starts_with(&s, &https) {
        SourceKind::Http
    } else if exists_on_disk {
        SourceKind::Directory
    } else {
        SourceKind::Repository
    }
}

/// The URL of the list under the base URL `base`: `base`, a `/` unless
/// `base` ends in one, and `repositories.txt`.
pub open spec fn list_url(base: Seq<char>) -> Seq<char> {
    if base.len() > 0 && base.last() == '/' {
        base + "repositories.txt"@
    } else {
        base + seq!['/'] + "repositories.txt"@
    }
}

/// The URL from which the list of templates under `base_url` is fetched.
pub fn repositories_url(base_url: &str) -> (url: String)
    ensures
        url@ == list_url(base_url@),
{
    let mut r = chars_of(base_url);
    if !(r.len() > 0 && r[r.len() - 1] == '/') {
        r.push('/');
    }
    let name = chars_of("repositories.txt");
    append(&mut r, &name);
    assert(r@ =~= list_url(base_url@));
    string_of(&r)
}

// ---------------------------------------------------------------------------
// Choosing a template
// ---------------------------------------------------------------------------

/// The labels of `entries`, in order.
pub open spec fn labels(entries: Seq<(Seq<char>, Seq<char>)>) -> Seq<Seq<char>> {
    Seq::new(entries.len(), |i: int| entries[i].0)
}

/// The URL that `choice` stands for: that of the first entry with this
/// label, or `choice` itself if no entry has it.
pub open spec fn url_for(entries: Seq<(Seq<char>, Seq<char>)>, choice: Seq<char>) -> Seq<char>
    decreases entries.len(),
{
    if entries.len() == 0 {
        choice
    } else if entries[0].0 == choice {
        entries[0].1
    } else {
        url_for(entries.skip(1), choice)
    }
}

/// What the user can choose from: the label of every entry, and last the
/// offer to enter a URL by hand.
pub fn template_choices(entries: &[TemplateEntry]) -> (choices: Vec<String>)
    ensures
        choices.deep_view() == labels(entries.deep_view()).push("Enter URL manually"@),
{
    let mut choices: Vec<String> = Vec::new();
    let mut i: usize = 0;
    while i < entries.len()
        invariant
            i <= entries.len(),
            choices.len() == i,
            forall|j: int| 0 <= j < i ==> (#[trigger] choices@[j])@ == entries@[j].label@,
        decreases entries.len() - i,
    {
        choices.push(entries[i].label.clone());
        i += 1;
    }
    choices.push(String::from_str("Enter URL manually"));
    assert(choices.deep_view() =~= labels(entries.deep_view()).push("Enter URL manually"@));
    choices
}

/// The URL that the user chose with `choice`, or nothing if the choice was
/// to enter one by hand.
pub fn chosen_url(entries: &[TemplateEntry], choice: &str) -> (url: Option<String>)
    ensures
        url is None <==> choice@ == "Enter URL manually"@,
        url matches Some(u) ==> u@ == url_for(entries.deep_view(), choice@),
{
    let wanted = chars_of(choice);
    let manual = chars_of("Enter URL manually");
    if same_text(&wanted, &manual) {
        return None;
    }
    let ghost all = entries.deep_view();
    let mut i: usize = 0;
    assert(all.skip(0) =~= all);
    while i < entries.len()
        invariant
            i <= entries.len(),
            all == entries.deep_view(),
            wanted@ == choice@,
            choice@ != "Enter URL manually"@,
            url_for(all, choice@) == url_for(all.skip(i as int), choice@),
        decreases entries.len() - i,
    {
        let label = chars_of(entries[i].label.as_str());
        proof {
            let rest = all.skip(i as int);
            assert(rest[0] == all[i as int]);
            assert(rest.skip(1) =~= all.skip(i + 1));
        }
        if same_text(&label, &wanted) {
            return Some(entries[i].url.clone());
        }
        i += 1;
    }
    Some(String::from_str(choice))
}

} // verus!
