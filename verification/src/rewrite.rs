//! Rewriting the contents of a file: literal replacement of every original of
//! a mapping set by its replacement, one pair after the other.

use vstd::prelude::*;
use vstd::slice::slice_to_vec;
use vstd::string::StringExecFns;
use vstd::utf8::{decode_utf8, encode_utf8, encode_utf8_decode_utf8, valid_utf8};

use crate::text::{append, chars_of, matches_at, occurs_at, occurs_in, same_text, string_of};
use crate::variants::Pair;

verus! {

// ---------------------------------------------------------------------------
// The model
// ---------------------------------------------------------------------------

/// `text` with every occurrence of `from` replaced by `to`, found from left
/// to right and never overlapping: where `from` stands at the beginning, `to`
/// is written and the search goes on behind the occurrence; otherwise the
/// first character is kept and the search goes on behind it.
///
/// The empty `from` stands before every character and at the end, so `to` is
/// written in all those places.
pub open spec fn replaced(text: Seq<char>, from: Seq<char>, to: Seq<char>) -> Seq<char>
    decreases text.len(),
{
    if from.len() == 0 {
        if text.len() == 0 {
            to
        } else {
            to + seq![text[0]] + replaced(text.skip(1), from, to)
        }
    } else if occurs_at(text, from, 0) {
        to + replaced(text.skip(from.len() as int), from, to)
    } else if text.len() == 0 {
        text
    } else {
        seq![text[0]] + replaced(text.skip(1), from, to)
    }
}

/// `text` after every pair of `mappings` was applied to it, in order, each to
/// what the pairs before it left.
pub open spec fn rewritten(text: Seq<char>, mappings: Seq<Pair>) -> Seq<char>
    decreases mappings.len(),
{
    if mappings.len() == 0 {
        text
    } else {
        replaced(rewritten(text, mappings.drop_last()), mappings.last().0, mappings.last().1)
    }
}

/// `bytes` are text: no byte is zero, and together they are valid UTF-8.
pub open spec fn is_text(bytes: Seq<u8>) -> bool {
    !bytes.contains(0u8) && valid_utf8(bytes)
}

/// One of the components of a path is the version-control directory `.git`.
pub open spec fn in_vcs(components: Seq<Seq<char>>) -> bool {
    components.contains(".git"@)
}

// ---------------------------------------------------------------------------
// Which entries are looked at
// ---------------------------------------------------------------------------

/// Whether a path with these components lies in version-control metadata,
/// which is neither rewritten nor merged.
pub fn is_vcs_path(components: &[String]) -> (b: bool)
    ensures
        b == in_vcs(components.deep_view()),
{
    let git = chars_of(".git");
    let mut i: usize = 0;
    while i < components.len()
        invariant
            i <= components.len(),
            git@ == ".git"@,
            forall|j: int| 0 <= j < i ==> components.deep_view()[j] != ".git"@,
        decreases components.len() - i,
    {
        let c = chars_of(components[i].as_str());
        if same_text(&c, &git) {
            assert(components.deep_view()[i as int] == ".git"@);
            return true;
        }
        i += 1;
    }
    false
}

// ---------------------------------------------------------------------------
// Bytes and text
// ---------------------------------------------------------------------------

/// `String::from_utf8`: the bytes become a string exactly when they are valid
/// UTF-8, and the string's UTF-8 encoding is then those bytes.
#[verifier::external_body]
fn std_from_utf8(bytes: Vec<u8>) -> (r: Option<String>)
    ensures
        r is Some <==> valid_utf8(bytes@),
        r matches Some(t) ==> encode_utf8(t@) == bytes@,
{
    match String::from_utf8(bytes) {
        Ok(t) => Some(t),
        Err(_) => None,
    }
}

/// Whether `bytes` holds a zero byte.
fn has_nul(bytes: &[u8]) -> (b: bool)
    ensures
        b == bytes@.contains(0u8),
{
    let mut i: usize = 0;
    while i < bytes.len()
        invariant
            i <= bytes.len(),
            forall|j: int| 0 <= j < i ==> bytes@[j] != 0u8,
        decreases bytes.len() - i,
    {
        if bytes[i] == 0 {
            return true;
        }
        i += 1;
    }
    false
}

/// The text that `bytes` encode, if they are text. A zero byte marks the
/// content as binary, whatever the other bytes are; bytes that are not valid
/// UTF-8 are no text either.
pub fn bytes_to_text(bytes: &[u8]) -> (r: Option<String>)
    ensures
        r is Some <==> is_text(bytes@),
        r matches Some(t) ==> t@ == decode_utf8(bytes@),
{
    if has_nul(bytes) {
        return None;
    }
    let r = std_from_utf8(slice_to_vec(bytes));
    proof {
        if r is Some {
            encode_utf8_decode_utf8(r->0@);
        }
    }
    r
}

// ---------------------------------------------------------------------------
// Replacing
// ---------------------------------------------------------------------------

/// `text` with every occurrence of `from` replaced by `to`.
pub fn replace_all(text: &Vec<char>, from: &Vec<char>, to: &Vec<char>) -> (out: Vec<char>)
    ensures
        out@ == replaced(text@, from@, to@),
{
    let mut out: Vec<char> = Vec::new();
    let mut i: usize = 0;
    assert(text@.skip(0) =~= text@);
    if from.len() == 0 {
        while i < text.len()
            invariant
                i <= text.len(),
                from@.len() == 0,
                out@ + replaced(text@.skip(i as int), from@, to@) == replaced(text@, from@, to@),
            decreases text.len() - i,
        {
            let ghost rest = text@.skip(i as int);
            let ghost before = out@;
            append(&mut out, to);
            out.push(text[i]);
            proof {
                assert(rest[0] == text@[i as int]);
                assert(rest.skip(1) =~= text@.skip(i + 1));
                assert(out@ + replaced(rest.skip(1), from@, to@) =~= before + replaced(
                    rest,
                    from@,
                    to@,
                ));
            }
            i += 1;
        }
        let ghost before = out@;
        append(&mut out, to);
        assert(out@ =~= before + replaced(text@.skip(i as int), from@, to@));
        return out;
    }
    while i < text.len()
        invariant
            i <= text.len(),
            from@.len() > 0,
            out@ + replaced(text@.skip(i as int), from@, to@) == replaced(text@, from@, to@),
        decreases text.len() - i,
    {
        let ghost rest = text@.skip(i as int);
        let ghost before = out@;
        let found = matches_at(text, from, i);
        proof {
            if i + from@.len() <= text@.len() {
                assert(rest.subrange(0, from@.len() as int) =~= text@.subrange(
                    i as int,
                    i + from@.len(),
                ));
            }
            assert(found == occurs_at(rest, from@, 0));
        }
        if found {
            append(&mut out, to);
            proof {
                assert(rest.skip(from@.len() as int) =~= text@.skip(i + from@.len()));
                assert(out@ + replaced(rest.skip(from@.len() as int), from@, to@) =~= before
                    + replaced(rest, from@, to@));
            }
            i += from.len();
        } else {
            out.push(text[i]);
            proof {
                assert(rest[0] == text@[i as int]);
                assert(rest.skip(1) =~= text@.skip(i + 1));
                assert(out@ + replaced(rest.skip(1), from@, to@) =~= before + replaced(
                    rest,
                    from@,
                    to@,
                ));
            }
            i += 1;
        }
    }
    assert(out@ =~= out@ + replaced(text@.skip(i as int), from@, to@));
    out
}

/// `text` after every pair of `mappings` was applied to it, in order.
fn rewrite_chars(text: Vec<char>, mappings: &[(String, String)]) -> (out: Vec<char>)
    ensures
        out@ == rewritten(text@, mappings.deep_view()),
{
    let ghost m = mappings.deep_view();
    let ghost start = text@;
    let mut out = text;
    let mut i: usize = 0;
    assert(m.take(0) =~= Seq::<Pair>::empty());
    while i < mappings.len()
        invariant
            i <= mappings.len(),
            m == mappings.deep_view(),
            out@ == rewritten(start, m.take(i as int)),
        decreases mappings.len() - i,
    {
        let from = chars_of(mappings[i].0.as_str());
        let to = chars_of(mappings[i].1.as_str());
        proof {
            let next = m.take(i + 1);
            assert(next.drop_last() =~= m.take(i as int));
            assert(next.last() == (from@, to@));
        }
        out = replace_all(&out, &from, &to);
        i += 1;
    }
    assert(m.take(mappings.len() as int) =~= m);
    out
}

/// `text` after every pair of `mappings` was applied to it, in the order of
/// the set: each pair replaces all occurrences of its original in what the
/// pairs before it have left.
pub fn apply_mappings(text: &str, mappings: &[(String, String)]) -> (out: String)
    ensures
        out@ == rewritten(text@, mappings.deep_view()),
{
    let out = rewrite_chars(chars_of(text), mappings);
    string_of(&out)
}

/// The new content of a file that holds `bytes`, if it is to be rewritten:
/// that is, if the bytes are text and the mappings change that text.
pub fn rewrite_content(bytes: &[u8], mappings: &[(String, String)]) -> (r: Option<String>)
    ensures
        r is Some <==> is_text(bytes@) && rewritten(decode_utf8(bytes@), mappings.deep_view())
            != decode_utf8(bytes@),
        r matches Some(t) ==> t@ == rewritten(decode_utf8(bytes@), mappings.deep_view()),
{
    match bytes_to_text(bytes) {
        None => None,
        Some(text) => {
            let original = chars_of(text.as_str());
            let content = rewrite_chars(chars_of(text.as_str()), mappings);
            if same_text(&content, &original) {
                None
            } else {
                Some(string_of(&content))
            }
        },
    }
}

// ---------------------------------------------------------------------------
// What holds of every rewrite
// ---------------------------------------------------------------------------

/// Replacing something that does not occur changes nothing.
pub proof fn lemma_replaced_without_occurrence(text: Seq<char>, from: Seq<char>, to: Seq<char>)
    requires
        from.len() > 0,
        !occurs_in(text, from),
    ensures
        replaced(text, from, to) == text,
    decreases text.len(),
{
    assert(!occurs_at(text, from, 0));
    if text.len() > 0 {
        let rest = text.skip(1);
        assert forall|j: int| !occurs_at(rest, from, j) by {
            if occurs_at(rest, from, j) {
                assert(text.subrange(j + 1, j + 1 + from.len()) =~= rest.subrange(
                    j,
                    j + from.len(),
                ));
                assert(occurs_at(text, from, j + 1));
            }
        }
        lemma_replaced_without_occurrence(rest, from, to);
        assert(seq![text[0]] + rest =~= text);
    }
}

/// A text that is nothing but `from` becomes `to`.
pub proof fn lemma_replaced_whole(from: Seq<char>, to: Seq<char>)
    requires
        from.len() > 0,
    ensures
        replaced(from, from, to) == to,
{
    assert(from.subrange(0, from.len() as int) =~= from);
    assert(occurs_at(from, from, 0));
    let rest = from.skip(from.len() as int);
    assert(rest.len() == 0);
    assert(!occurs_at(rest, from, 0));
    assert(to + replaced(rest, from, to) =~= to);
}

/// Applying one list of pairs and then another is applying the two lists
/// one after the other as one.
pub proof fn lemma_rewritten_in_two_steps(text: Seq<char>, a: Seq<Pair>, b: Seq<Pair>)
    ensures
        rewritten(text, a + b) == rewritten(rewritten(text, a), b),
    decreases b.len(),
{
    if b.len() == 0 {
        assert(a + b =~= a);
    } else {
        lemma_rewritten_in_two_steps(text, a, b.drop_last());
        assert((a + b).drop_last() =~= a + b.drop_last());
        assert((a + b).last() == b.last());
    }
}

/// A rewrite leaves alone a text in which no original occurs.
pub proof fn lemma_rewritten_without_occurrence(text: Seq<char>, mappings: Seq<Pair>)
    requires
        forall|i: int|
            0 <= i < mappings.len() ==> (#[trigger] mappings[i]).0.len() > 0 && !occurs_in(
                text,
                mappings[i].0,
            ),
    ensures
        rewritten(text, mappings) == text,
    decreases mappings.len(),
{
    if mappings.len() > 0 {
        let front = mappings.drop_last();
        assert forall|i: int| 0 <= i < front.len() implies (#[trigger] front[i]).0.len() > 0
            && !occurs_in(text, front[i].0) by {
            assert(front[i] == mappings[i]);
        }
        lemma_rewritten_without_occurrence(text, front);
        let last = mappings[mappings.len() - 1];
        lemma_replaced_without_occurrence(text, last.0, last.1);
    }
}

/// A text that is the original of pair `k` comes out as that pair's
/// replacement, provided that no earlier original occurs in it and no later
/// original occurs in the replacement.
pub proof fn lemma_rewrite_replaces_original(mappings: Seq<Pair>, k: int)
    requires
        0 <= k < mappings.len(),
        forall|i: int| 0 <= i < mappings.len() ==> (#[trigger] mappings[i]).0.len() > 0,
        forall|i: int| 0 <= i < k ==> !occurs_in(mappings[k].0, (#[trigger] mappings[i]).0),
        forall|i: int|
            k < i < mappings.len() ==> !occurs_in(mappings[k].1, (#[trigger] mappings[i]).0),
    ensures
        rewritten(mappings[k].0, mappings) == mappings[k].1,
{
    let text = mappings[k].0;
    let front = mappings.take(k);
    let upto = mappings.take(k + 1);
    let back = mappings.skip(k + 1);
    assert forall|i: int| 0 <= i < front.len() implies (#[trigger] front[i]).0.len() > 0
        && !occurs_in(text, front[i].0) by {
        assert(front[i] == mappings[i]);
    }
    lemma_rewritten_without_occurrence(text, front);
    assert(upto.drop_last() =~= front);
    assert(upto.last() == mappings[k]);
    lemma_replaced_whole(text, mappings[k].1);
    assert(rewritten(text, upto) == mappings[k].1);
    assert forall|i: int| 0 <= i < back.len() implies (#[trigger] back[i]).0.len() > 0
        && !occurs_in(mappings[k].1, back[i].0) by {
        assert(back[i] == mappings[k + 1 + i]);
    }
    lemma_rewritten_without_occurrence(mappings[k].1, back);
    lemma_rewritten_in_two_steps(text, upto, back);
    assert(upto + back =~= mappings);
}

/// Rewriting what a rewrite has put out changes nothing more, provided that
/// no original occurs in that output.
pub proof fn lemma_rewrite_settles(text: Seq<char>, mappings: Seq<Pair>)
    requires
        forall|i: int|
            0 <= i < mappings.len() ==> (#[trigger] mappings[i]).0.len() > 0 && !occurs_in(
                rewritten(text, mappings),
                mappings[i].0,
            ),
    ensures
        rewritten(rewritten(text, mappings), mappings) == rewritten(text, mappings),
{
    lemma_rewritten_without_occurrence(rewritten(text, mappings), mappings);
}

// ---------------------------------------------------------------------------
// Reports
// ---------------------------------------------------------------------------

/// The line that reports the rewrite of the file at `path`: done, or in a
/// dry run only planned.
pub fn report_update(path: &str, dry_run: bool) -> (line: String)
    ensures
        line@ == (if dry_run {
            "DRY REPL: Would update file: "@
        } else {
            "REPL: Updated file: "@
        }) + path@,
{
    let mut line = String::new();
    if dry_run {
        line.append("DRY REPL: Would update file: ");
    } else {
        line.append("REPL: Updated file: ");
    }
    line.append(path);
    assert(line@ =~= (if dry_run {
        "DRY REPL: Would update file: "@
    } else {
        "REPL: Updated file: "@
    }) + path@);
    line
}

/// The line that warns that the file at `path` could not be written, with
/// the `error` that was met.
pub fn report_write_failure(path: &str, error: &str) -> (line: String)
    ensures
        line@ == "WARN: Failed to write file "@ + path@ + ": "@ + error@,
{
    let mut line = String::new();
    line.append("WARN: Failed to write file ");
    line.append(path);
    line.append(": ");
    line.append(error);
    assert(line@ =~= "WARN: Failed to write file "@ + path@ + ": "@ + error@);
    line
}

} // verus!
