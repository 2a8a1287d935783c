//! Splitting a name into its lowercase tokens.
//!
//! A name with delimiters (`my-cool_app`) is split at them. A name without
//! (`MyCoolApp`, `app`) is split before each uppercase letter.

use vstd::prelude::*;

use crate::text::{
    char_is_alphanumeric, char_is_uppercase, chars_of, is_alphanumeric, is_uppercase, lowercased,
    rows, string_of, to_lowercase,
};
use crate::variants::{joined, styled_words, variant, Style};

verus! {

// ---------------------------------------------------------------------------
// The model
// ---------------------------------------------------------------------------

/// The maximal runs of letters and digits in `s`, in order. A letter or digit
/// continues the last run if the character before it is one too, and starts
/// a new run otherwise; any other character adds nothing.
pub open spec fn fragments(s: Seq<char>) -> Seq<Seq<char>>
    decreases s.len(),
{
    if s.len() == 0 {
        Seq::empty()
    } else {
        let rest = fragments(s.drop_last());
        let c = s.last();
        if !is_alphanumeric(c) {
            rest
        } else if s.len() >= 2 && is_alphanumeric(s[s.len() - 2]) {
            rest.update(rest.len() - 1, rest.last().push(c))
        } else {
            rest.push(seq![c])
        }
    }
}

/// `s` cut before each uppercase letter but the first character. The first
/// character and every uppercase letter start a new piece; any other
/// character continues the last one.
pub open spec fn pieces(s: Seq<char>) -> Seq<Seq<char>>
    decreases s.len(),
{
    if s.len() == 0 {
        Seq::empty()
    } else {
        let rest = pieces(s.drop_last());
        let c = s.last();
        if rest.len() == 0 || is_uppercase(c) {
            rest.push(seq![c])
        } else {
            rest.update(rest.len() - 1, rest.last().push(c))
        }
    }
}

/// Each word of `words` in lowercase.
pub open spec fn lowered(words: Seq<Seq<char>>) -> Seq<Seq<char>> {
    Seq::new(words.len(), |i: int| lowercased(words[i]))
}

/// The tokens of `name`: its runs of letters and digits where there are two
/// or more of them, else its pieces at uppercase letters; in lowercase either
/// way.
pub open spec fn tokens_of(name: Seq<char>) -> Seq<Seq<char>> {
    if fragments(name).len() >= 2 {
        lowered(fragments(name))
    } else {
        lowered(pieces(name))
    }
}

/// A token as the tokenizer means it: a non-empty word of letters and digits,
/// none of them uppercase, that lowercasing leaves as it is.
pub open spec fn is_token(t: Seq<char>) -> bool {
    &&& t.len() > 0
    &&& forall|i: int| 0 <= i < t.len() ==> is_alphanumeric(#[trigger] t[i]) && !is_uppercase(t[i])
    &&& lowercased(t) == t
}

// ---------------------------------------------------------------------------
// Splitting
// ---------------------------------------------------------------------------

/// What the scan has found once the run in progress is closed.
spec fn closed(done: Seq<Seq<char>>, current: Seq<char>) -> Seq<Seq<char>> {
    if current.len() > 0 {
        done.push(current)
    } else {
        done
    }
}

/// The maximal runs of letters and digits in `s`, in order.
pub fn split_fragments(s: &Vec<char>) -> (r: Vec<Vec<char>>)
    ensures
        rows(r@) == fragments(s@),
{
    let mut done: Vec<Vec<char>> = Vec::new();
    let mut current: Vec<char> = Vec::new();
    let mut i: usize = 0;
    assert(s@.take(0) =~= Seq::<char>::empty());
    assert(rows(done@) =~= Seq::<Seq<char>>::empty());
    while i < s.len()
        invariant
            i <= s.len(),
            closed(rows(done@), current@) == fragments(s@.take(i as int)),
            current@.len() > 0 <==> (i > 0 && is_alphanumeric(s@[i - 1])),
        decreases s.len() - i,
    {
        let c = s[i];
        let ghost before = s@.take(i as int);
        let ghost after = s@.take(i + 1);
        let ghost old_done = rows(done@);
        let ghost old_current = current@;
        proof {
            assert(after.drop_last() =~= before);
            assert(after.last() == c);
            if i > 0 {
                assert(after[after.len() - 2] == s@[i - 1]);
            }
        }
        if char_is_alphanumeric(c) {
            current.push(c);
            proof {
                if old_current.len() > 0 {
                    let rest = old_done.push(old_current);
                    assert(rest.update(rest.len() - 1, rest.last().push(c)) =~= old_done.push(
                        current@,
                    ));
                } else {
                    assert(current@ =~= seq![c]);
                }
            }
        } else if current.len() > 0 {
            done.push(current);
            current = Vec::new();
            assert(rows(done@) =~= old_done.push(old_current));
        }
        i += 1;
    }
    assert(s@.take(s.len() as int) =~= s@);
    if current.len() > 0 {
        let ghost old_done = rows(done@);
        let ghost old_current = current@;
        done.push(current);
        assert(rows(done@) =~= old_done.push(old_current));
    }
    done
}

/// `s` cut before each uppercase letter but the first character.
pub fn split_pieces(s: &Vec<char>) -> (r: Vec<Vec<char>>)
    ensures
        rows(r@) == pieces(s@),
{
    let mut done: Vec<Vec<char>> = Vec::new();
    let mut current: Vec<char> = Vec::new();
    let mut i: usize = 0;
    assert(s@.take(0) =~= Seq::<char>::empty());
    assert(rows(done@) =~= Seq::<Seq<char>>::empty());
    while i < s.len()
        invariant
            i <= s.len(),
            closed(rows(done@), current@) == pieces(s@.take(i as int)),
            current@.len() > 0 <==> i > 0,
        decreases s.len() - i,
    {
        let c = s[i];
        let ghost before = s@.take(i as int);
        let ghost after = s@.take(i + 1);
        let ghost old_done = rows(done@);
        let ghost old_current = current@;
        proof {
            assert(after.drop_last() =~= before);
            assert(after.last() == c);
        }
        if char_is_uppercase(c) && current.len() > 0 {
            done.push(current);
            current = Vec::new();
            assert(rows(done@) =~= old_done.push(old_current));
        }
        current.push(c);
        proof {
            let rest = pieces(before);
            if rest.len() == 0 || is_uppercase(c) {
                assert(current@ =~= seq![c]);
            } else {
                assert(rest.update(rest.len() - 1, rest.last().push(c)) =~= old_done.push(
                    current@,
                ));
            }
        }
        i += 1;
    }
    assert(s@.take(s.len() as int) =~= s@);
    if current.len() > 0 {
        let ghost old_done = rows(done@);
        let ghost old_current = current@;
        done.push(current);
        assert(rows(done@) =~= old_done.push(old_current));
    }
    done
}

/// The tokens of `name`, in the order in which they stand in it. A name
/// with two or more runs of letters and digits gives those runs; any other
/// name is cut before each uppercase letter. Every token is lowercased. The
/// empty name has no tokens.
pub fn split_name_to_tokens(name: &str) -> (tokens: Vec<String>)
    ensures
        tokens.deep_view() == tokens_of(name@),
        name@.len() == 0 ==> tokens.len() == 0,
{
    let chars = chars_of(name);
    let parts = split_fragments(&chars);
    let words = if parts.len() >= 2 {
        parts
    } else {
        split_pieces(&chars)
    };
    assert(lowered(rows(words@)) == tokens_of(name@));
    let mut tokens: Vec<String> = Vec::new();
    let mut i: usize = 0;
    while i < words.len()
        invariant
            i <= words.len(),
            tokens.len() == i,
            forall|j: int| 0 <= j < i ==> (#[trigger] tokens@[j])@ == lowercased(words@[j]@),
        decreases words.len() - i,
    {
        let low = to_lowercase(&words[i]);
        tokens.push(string_of(&low));
        i += 1;
    }
    assert(tokens.deep_view() =~= lowered(rows(words@)));
    tokens
}

// ---------------------------------------------------------------------------
// Splitting what was joined
// ---------------------------------------------------------------------------

/// A word of letters and digits that follows a delimiter, or stands at the
/// beginning, is one more run.
proof fn lemma_fragments_after_word(x: Seq<char>, w: Seq<char>)
    requires
        w.len() > 0,
        forall|i: int| 0 <= i < w.len() ==> is_alphanumeric(#[trigger] w[i]),
        x.len() == 0 || !is_alphanumeric(x.last()),
    ensures
        fragments(x + w) == fragments(x).push(w),
    decreases w.len(),
{
    let s = x + w;
    let c = w.last();
    assert(s.last() == c);
    if w.len() == 1 {
        assert(s.drop_last() =~= x);
        assert(w =~= seq![c]);
        if x.len() > 0 {
            assert(s[s.len() - 2] == x.last());
        }
    } else {
        let v = w.drop_last();
        assert(s.drop_last() =~= x + v);
        assert forall|i: int| 0 <= i < v.len() implies is_alphanumeric(#[trigger] v[i]) by {
            assert(v[i] == w[i]);
        }
        lemma_fragments_after_word(x, v);
        assert(s[s.len() - 2] == w[w.len() - 2]);
        let rest = fragments(x).push(v);
        assert(rest.update(rest.len() - 1, rest.last().push(c)) =~= fragments(x).push(w)) by {
            assert(v.push(c) =~= w);
        }
    }
}

/// Words of letters and digits joined by hyphens are the runs of the result.
proof fn lemma_fragments_of_kebab(t: Seq<Seq<char>>)
    requires
        forall|i: int|
            0 <= i < t.len() ==> (#[trigger] t[i]).len() > 0 && forall|j: int|
                0 <= j < t[i].len() ==> is_alphanumeric(#[trigger] t[i][j]),
    ensures
        fragments(joined(t, seq!['-'])) == t,
    decreases t.len(),
{
    let sep = seq!['-'];
    if t.len() == 0 {
        assert(fragments(joined(t, sep)) =~= t);
    } else if t.len() == 1 {
        let x = Seq::<char>::empty();
        lemma_fragments_after_word(x, t[0]);
        assert(x + t[0] =~= t[0]);
        assert(fragments(x).push(t[0]) =~= t);
    } else {
        let front = t.drop_last();
        let w = t.last();
        lemma_fragments_of_kebab(front);
        let x = joined(front, sep) + sep;
        assert(x.last() == '-');
        assert(x.drop_last() =~= joined(front, sep));
        assert(fragments(x) == front);
        lemma_fragments_after_word(x, w);
        assert(front.push(w) =~= t);
    }
}

/// A word without an uppercase letter is one piece.
proof fn lemma_pieces_of_word(w: Seq<char>)
    requires
        w.len() > 0,
        forall|i: int| 0 <= i < w.len() ==> !is_uppercase(#[trigger] w[i]),
    ensures
        pieces(w) == seq![w],
    decreases w.len(),
{
    let c = w.last();
    let v = w.drop_last();
    if w.len() == 1 {
        assert(pieces(v) =~= Seq::<Seq<char>>::empty());
        assert(w =~= seq![c]);
        assert(pieces(w) =~= seq![w]);
    } else {
        assert forall|i: int| 0 <= i < v.len() implies !is_uppercase(#[trigger] v[i]) by {
            assert(v[i] == w[i]);
        }
        lemma_pieces_of_word(v);
        assert(v.push(c) =~= w);
        assert(pieces(w) =~= seq![w]);
    }
}

/// Two or more words of letters and digits, joined by hyphens and split
/// again, are those words in lowercase.
pub proof fn lemma_kebab_splits_into_lowered_words(t: Seq<Seq<char>>)
    requires
        t.len() >= 2,
        forall|i: int|
            0 <= i < t.len() ==> (#[trigger] t[i]).len() > 0 && forall|j: int|
                0 <= j < t[i].len() ==> is_alphanumeric(#[trigger] t[i][j]),
    ensures
        tokens_of(variant(Style::Kebab, t)) == lowered(t),
{
    assert(styled_words(Style::Kebab, t) =~= t);
    lemma_fragments_of_kebab(t);
}

/// Tokens written in kebab case and split again are the same tokens: for
/// every non-empty sequence `t` of tokens, the tokens of `t` joined by
/// hyphens are `t`.
pub proof fn lemma_kebab_round_trip(t: Seq<Seq<char>>)
    requires
        t.len() > 0,
        forall|i: int| 0 <= i < t.len() ==> is_token(#[trigger] t[i]),
    ensures
        tokens_of(variant(Style::Kebab, t)) == t,
{
    let name = variant(Style::Kebab, t);
    assert(styled_words(Style::Kebab, t) =~= t);
    assert(name == joined(t, seq!['-']));
    lemma_fragments_of_kebab(t);
    if t.len() >= 2 {
        assert(lowered(t) =~= t);
    } else {
        assert(name == t[0]);
        lemma_pieces_of_word(t[0]);
        assert(lowered(seq![t[0]]) =~= t);
    }
}

} // verus!
