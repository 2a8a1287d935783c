//! The naming conventions a token sequence can be written in, and the set of
//! replacement pairs that takes one name to another in every convention.

use convert_case::{Case, Casing};
use vstd::prelude::*;

use crate::text::{
    append, chars_of, chars_of_each, copy_of, rows, string_of, to_uppercase, uppercased,
};

verus! {

/// A pair of texts: what to look for, and what to put in its place.
pub type Pair = (Seq<char>, Seq<char>);

/// The eight naming conventions, in the order in which pairs are generated.
#[derive(Clone, Copy, Debug)]
pub enum Style {
    /// `my-cool-app`
    Kebab,
    /// `my_cool_app`
    Snake,
    /// `MY_COOL_APP`
    UpperSnake,
    /// `mycoolapp`
    ConcatLower,
    /// `MYCOOLAPP`
    ConcatUpper,
    /// `myCoolApp`
    Camel,
    /// `MyCoolApp`
    Pascal,
    /// `My_Cool_App`
    PascalSnake,
}

/// What `convert_case` makes of `word` when asked for Pascal case.
pub uninterp spec fn pascal_case(word: Seq<char>) -> Seq<char>;

/// `convert_case::Casing::to_case` with `Case::Pascal`: the word is split at
/// the crate's default boundaries, each part gets an uppercase first letter
/// and a lowercase rest, and the parts are concatenated. The contract claims
/// only that the result is the text called `pascal_case` of the word.
#[verifier::external_body]
fn to_pascal_case(word: &str) -> (r: String)
    ensures
        r@ == pascal_case(word@),
{
    word.to_case(Case::Pascal)
}

// ---------------------------------------------------------------------------
// The model
// ---------------------------------------------------------------------------

/// The words of `t` written one after the other with `sep` between
/// neighbours.
pub open spec fn joined(t: Seq<Seq<char>>, sep: Seq<char>) -> Seq<char>
    decreases t.len(),
{
    if t.len() == 0 {
        Seq::empty()
    } else if t.len() == 1 {
        t[0]
    } else {
        joined(t.drop_last(), sep) + sep + t.last()
    }
}

/// The style with number `k`, counting from zero.
pub open spec fn style_at(k: int) -> Style {
    if k == 0 {
        Style::Kebab
    } else if k == 1 {
        Style::Snake
    } else if k == 2 {
        Style::UpperSnake
    } else if k == 3 {
        Style::ConcatLower
    } else if k == 4 {
        Style::ConcatUpper
    } else if k == 5 {
        Style::Camel
    } else if k == 6 {
        Style::Pascal
    } else {
        Style::PascalSnake
    }
}

/// What stands between two words in `style`.
pub open spec fn separator(style: Style) -> Seq<char> {
    match style {
        Style::Kebab => seq!['-'],
        Style::Snake | Style::UpperSnake | Style::PascalSnake => seq!['_'],
        Style::ConcatLower | Style::ConcatUpper | Style::Camel | Style::Pascal => Seq::empty(),
    }
}

/// How the token at position `i` is written in `style`.
pub open spec fn styled_word(style: Style, token: Seq<char>, i: int) -> Seq<char> {
    match style {
        Style::Kebab | Style::Snake | Style::ConcatLower => token,
        Style::UpperSnake | Style::ConcatUpper => uppercased(token),
        Style::Camel => if i == 0 {
            token
        } else {
            pascal_case(token)
        },
        Style::Pascal | Style::PascalSnake => pascal_case(token),
    }
}

/// The tokens of `t`, each written as `style` asks.
pub open spec fn styled_words(style: Style, t: Seq<Seq<char>>) -> Seq<Seq<char>> {
    Seq::new(t.len(), |i: int| styled_word(style, t[i], i))
}

/// The name that the tokens `t` spell in `style`.
pub open spec fn variant(style: Style, t: Seq<Seq<char>>) -> Seq<char> {
    joined(styled_words(style, t), separator(style))
}

/// The pair for style number `k`: the old name and the new name, both in
/// that style.
pub open spec fn variant_pair(k: int, original: Seq<Seq<char>>, replacement: Seq<Seq<char>>)
    -> Pair {
    (variant(style_at(k), original), variant(style_at(k), replacement))
}

/// The eight variant pairs, in the order of the styles.
pub open spec fn variant_pairs(original: Seq<Seq<char>>, replacement: Seq<Seq<char>>) -> Seq<
    Pair,
> {
    Seq::new(8, |k: int| variant_pair(k, original, replacement))
}

/// `p` is one of `candidates` and neither of its sides is empty.
pub open spec fn is_kept(p: Pair, candidates: Seq<Pair>) -> bool {
    p.0.len() > 0 && p.1.len() > 0 && candidates.contains(p)
}

/// `a` comes before `b` in dictionary order, characters compared by code
/// point: at the first position where they differ `a` has the smaller
/// character, or `a` ends there and `b` goes on.
pub open spec fn text_before(a: Seq<char>, b: Seq<char>) -> bool {
    exists|k: int| #[trigger] differ_at(a, b, k)
}

/// `a` and `b` agree on their first `k` characters, and at position `k`
/// either `a` ends and `b` does not, or `a` has the smaller character.
pub open spec fn differ_at(a: Seq<char>, b: Seq<char>, k: int) -> bool {
    &&& 0 <= k <= a.len()
    &&& k < b.len()
    &&& a.take(k) == b.take(k)
    &&& (k < a.len() ==> a[k] < b[k])
}

/// `p` comes before `q`: by the first side, and where those are equal by the
/// second.
pub open spec fn pair_before(p: Pair, q: Pair) -> bool {
    text_before(p.0, q.0) || (p.0 == q.0 && text_before(p.1, q.1))
}

/// Every pair of `m` comes before all the pairs after it.
pub open spec fn strictly_sorted(m: Seq<Pair>) -> bool {
    forall|i: int, j: int| 0 <= i < j < m.len() ==> pair_before(#[trigger] m[i], #[trigger] m[j])
}

/// `m` is the selection from `candidates`: it holds exactly the candidates
/// with two non-empty sides, each once, in increasing order.
pub open spec fn is_selection(m: Seq<Pair>, candidates: Seq<Pair>) -> bool {
    &&& strictly_sorted(m)
    &&& forall|p: Pair|
        #![trigger m.contains(p)]
        #![trigger is_kept(p, candidates)]
        m.contains(p) <==> is_kept(p, candidates)
}

/// `m` is the mapping set from `original` to `replacement`: it holds exactly
/// the variant pairs with two non-empty sides, each once, in increasing
/// order.
pub open spec fn is_mapping_set(
    m: Seq<Pair>,
    original: Seq<Seq<char>>,
    replacement: Seq<Seq<char>>,
) -> bool {
    is_selection(m, variant_pairs(original, replacement))
}

// ---------------------------------------------------------------------------
// Order
// ---------------------------------------------------------------------------

/// No text comes before itself.
pub proof fn lemma_text_before_irreflexive(a: Seq<char>)
    ensures
        !text_before(a, a),
{
    assert forall|k: int| !differ_at(a, a, k) by {}
}

/// Dictionary order is transitive.
pub proof fn lemma_text_before_transitive(a: Seq<char>, b: Seq<char>, c: Seq<char>)
    requires
        text_before(a, b),
        text_before(b, c),
    ensures
        text_before(a, c),
{
    let k1 = choose|k: int| differ_at(a, b, k);
    let k2 = choose|k: int| differ_at(b, c, k);
    let k = if k1 <= k2 {
        k1
    } else {
        k2
    };
    assert(a.take(k) =~= c.take(k)) by {
        assert forall|i: int| 0 <= i < k implies a[i] == c[i] by {
            assert(a.take(k1)[i] == b.take(k1)[i]);
            assert(b.take(k2)[i] == c.take(k2)[i]);
        }
    }
    if k2 < k1 {
        assert(a.take(k1)[k2] == b.take(k1)[k2]);
    }
    if k1 < k2 {
        assert(b.take(k2)[k1] == c.take(k2)[k1]);
    }
    assert(differ_at(a, c, k));
}

/// No pair comes before itself.
pub proof fn lemma_pair_before_irreflexive(p: Pair)
    ensures
        !pair_before(p, p),
{
    lemma_text_before_irreflexive(p.0);
    lemma_text_before_irreflexive(p.1);
}

/// The order of pairs is transitive.
pub proof fn lemma_pair_before_transitive(p: Pair, q: Pair, r: Pair)
    requires
        pair_before(p, q),
        pair_before(q, r),
    ensures
        pair_before(p, r),
{
    if text_before(p.0, q.0) && text_before(q.0, r.0) {
        lemma_text_before_transitive(p.0, q.0, r.0);
    }
    if p.0 == q.0 && q.0 == r.0 {
        lemma_text_before_transitive(p.1, q.1, r.1);
    }
}

/// How two values stand to each other in an order.
enum Rank {
    Before,
    Same,
    After,
}

/// Where `a` stands relative to `b` in dictionary order.
fn rank_texts(a: &Vec<char>, b: &Vec<char>) -> (r: Rank)
    ensures
        (match r {
            Rank::Before => text_before(a@, b@),
            Rank::Same => a@ == b@,
            Rank::After => text_before(b@, a@),
        }),
{
    let mut i: usize = 0;
    while i < a.len() && i < b.len()
        invariant
            i <= a.len(),
            i <= b.len(),
            a@.take(i as int) == b@.take(i as int),
        decreases a.len() - i,
    {
        if a[i] < b[i] {
            assert(differ_at(a@, b@, i as int));
            return Rank::Before;
        }
        if b[i] < a[i] {
            assert(differ_at(b@, a@, i as int));
            return Rank::After;
        }
        assert(a@.take(i + 1) =~= a@.take(i as int).push(a@[i as int]));
        assert(b@.take(i + 1) =~= b@.take(i as int).push(b@[i as int]));
        i += 1;
    }
    if i < b.len() {
        assert(differ_at(a@, b@, i as int));
        Rank::Before
    } else if i < a.len() {
        assert(differ_at(b@, a@, i as int));
        Rank::After
    } else {
        assert(a@.take(i as int) =~= a@);
        assert(b@.take(i as int) =~= b@);
        Rank::Same
    }
}

/// Where the pair `(a0, a1)` stands relative to `(b0, b1)`.
fn rank_pairs(a0: &Vec<char>, a1: &Vec<char>, b0: &Vec<char>, b1: &Vec<char>) -> (r: Rank)
    ensures
        (match r {
            Rank::Before => pair_before((a0@, a1@), (b0@, b1@)),
            Rank::Same => a0@ == b0@ && a1@ == b1@,
            Rank::After => pair_before((b0@, b1@), (a0@, a1@)),
        }),
{
    match rank_texts(a0, b0) {
        Rank::Before => Rank::Before,
        Rank::After => Rank::After,
        Rank::Same => rank_texts(a1, b1),
    }
}

// ---------------------------------------------------------------------------
// Writing a name in a style
// ---------------------------------------------------------------------------

/// The words of `words` written one after the other with `sep` between
/// neighbours.
pub fn join(words: &Vec<Vec<char>>, sep: &Vec<char>) -> (r: Vec<char>)
    ensures
        r@ == joined(rows(words@), sep@),
{
    let ghost t = rows(words@);
    let mut r: Vec<char> = Vec::new();
    let mut i: usize = 0;
    while i < words.len()
        invariant
            i <= words.len(),
            t == rows(words@),
            r@ == joined(t.take(i as int), sep@),
        decreases words.len() - i,
    {
        proof {
            let next = t.take(i + 1);
            assert(next.drop_last() =~= t.take(i as int));
            assert(next.last() == words@[i as int]@);
            if i == 0 {
                assert(joined(t.take(0), sep@) =~= Seq::<char>::empty());
            }
        }
        if i > 0 {
            append(&mut r, sep);
        }
        append(&mut r, &words[i]);
        i += 1;
        proof {
            let next = t.take(i as int);
            if i == 1 {
                assert(r@ =~= next[0]);
            }
        }
    }
    assert(t.take(words.len() as int) =~= t);
    r
}

fn separator_of(style: Style) -> (r: Vec<char>)
    ensures
        r@ == separator(style),
{
    let mut r: Vec<char> = Vec::new();
    match style {
        Style::Kebab => {
            r.push('-');
        },
        Style::Snake | Style::UpperSnake | Style::PascalSnake => {
            r.push('_');
        },
        Style::ConcatLower | Style::ConcatUpper | Style::Camel | Style::Pascal => {},
    }
    assert(r@ =~= separator(style));
    r
}

fn pascal_word(token: &Vec<char>) -> (r: Vec<char>)
    ensures
        r@ == pascal_case(token@),
{
    let s = string_of(token);
    let p = to_pascal_case(s.as_str());
    chars_of(p.as_str())
}

fn style_word(style: Style, token: &Vec<char>, i: usize) -> (r: Vec<char>)
    ensures
        r@ == styled_word(style, token@, i as int),
{
    match style {
        Style::Kebab | Style::Snake | Style::ConcatLower => copy_of(token),
        Style::UpperSnake | Style::ConcatUpper => to_uppercase(token),
        Style::Camel => if i == 0 {
            copy_of(token)
        } else {
            pascal_word(token)
        },
        Style::Pascal | Style::PascalSnake => pascal_word(token),
    }
}

/// The name that `tokens` spell in `style`.
pub fn render(style: Style, tokens: &Vec<Vec<char>>) -> (r: Vec<char>)
    ensures
        r@ == variant(style, rows(tokens@)),
{
    let ghost t = rows(tokens@);
    let mut words: Vec<Vec<char>> = Vec::new();
    let mut i: usize = 0;
    while i < tokens.len()
        invariant
            i <= tokens.len(),
            t == rows(tokens@),
            words.len() == i,
            forall|j: int| 0 <= j < i ==> (#[trigger] words@[j])@ == styled_word(style, t[j], j),
        decreases tokens.len() - i,
    {
        let w = style_word(style, &tokens[i], i);
        words.push(w);
        i += 1;
    }
    assert(rows(words@) =~= styled_words(style, t));
    let sep = separator_of(style);
    join(&words, &sep)
}

fn style_number(k: usize) -> (s: Style)
    requires
        k < 8,
    ensures
        s == style_at(k as int),
{
    if k == 0 {
        Style::Kebab
    } else if k == 1 {
        Style::Snake
    } else if k == 2 {
        Style::UpperSnake
    } else if k == 3 {
        Style::ConcatLower
    } else if k == 4 {
        Style::ConcatUpper
    } else if k == 5 {
        Style::Camel
    } else if k == 6 {
        Style::Pascal
    } else {
        Style::PascalSnake
    }
}

// ---------------------------------------------------------------------------
// The mapping set
// ---------------------------------------------------------------------------

/// The pairs of texts that a vector of pairs of character vectors holds.
pub open spec fn pairs(v: Seq<(Vec<char>, Vec<char>)>) -> Seq<Pair> {
    Seq::new(v.len(), |i: int| (v[i].0@, v[i].1@))
}

/// Putting `x` into a sorted sequence at the place where everything before
/// is smaller and the next pair is larger keeps the sequence sorted and adds
/// `x` to what it holds, nothing else.
proof fn lemma_insert_keeps_sorted(m: Seq<Pair>, i: int, x: Pair)
    requires
        strictly_sorted(m),
        0 <= i <= m.len(),
        forall|j: int| 0 <= j < i ==> pair_before(#[trigger] m[j], x),
        i < m.len() ==> pair_before(x, m[i]),
    ensures
        strictly_sorted(m.insert(i, x)),
        forall|p: Pair| #[trigger] m.insert(i, x).contains(p) <==> (m.contains(p) || p == x),
{
    let w = m.insert(i, x);
    assert forall|a: int, b: int| 0 <= a < b < w.len() implies pair_before(
        #[trigger] w[a],
        #[trigger] w[b],
    ) by {
        if b < i {
            assert(w[a] == m[a] && w[b] == m[b]);
        } else if b == i {
            assert(w[a] == m[a]);
        } else if a == i {
            assert(w[b] == m[b - 1]);
            if b - 1 > i {
                lemma_pair_before_transitive(x, m[i], m[b - 1]);
            }
        } else if a < i {
            assert(w[a] == m[a] && w[b] == m[b - 1]);
            if a < b - 1 {
            } else {
                lemma_pair_before_transitive(m[a], x, m[b - 1]);
            }
        } else {
            assert(w[a] == m[a - 1] && w[b] == m[b - 1]);
        }
    }
    assert forall|p: Pair| #[trigger] w.contains(p) <==> (m.contains(p) || p == x) by {
        if w.contains(p) {
            let a = choose|a: int| 0 <= a < w.len() && w[a] == p;
            if a < i {
                assert(m[a] == p);
            } else if a > i {
                assert(m[a - 1] == p);
            }
        }
        if m.contains(p) {
            let a = choose|a: int| 0 <= a < m.len() && m[a] == p;
            if a < i {
                assert(w[a] == p);
            } else {
                assert(w[a + 1] == p);
            }
        }
        if p == x {
            assert(w[i] == p);
        }
    }
}

/// Adds the pair `(a, b)` to the sorted vector `acc` unless it is there
/// already.
fn insert_pair(acc: &mut Vec<(Vec<char>, Vec<char>)>, a: Vec<char>, b: Vec<char>)
    requires
        strictly_sorted(pairs(old(acc)@)),
    ensures
        strictly_sorted(pairs(final(acc)@)),
        forall|p: Pair| #[trigger]
            pairs(final(acc)@).contains(p) <==> (pairs(old(acc)@).contains(p) || p == (a@, b@)),
        final(acc).len() <= old(acc).len() + 1,
{
    let ghost m = pairs(acc@);
    let ghost x = (a@, b@);
    let mut i: usize = 0;
    while i < acc.len()
        invariant
            i <= acc.len(),
            acc@ == old(acc)@,
            m == pairs(acc@),
            x == (a@, b@),
            strictly_sorted(m),
            forall|j: int| 0 <= j < i ==> pair_before(#[trigger] m[j], x),
        decreases acc.len() - i,
    {
        match rank_pairs(&a, &b, &acc[i].0, &acc[i].1) {
            Rank::Same => {
                assert(m[i as int] == x);
                return ;
            },
            Rank::Before => {
                assert(pair_before(x, m[i as int]));
                acc.insert(i, (a, b));
                proof {
                    lemma_insert_keeps_sorted(m, i as int, x);
                    assert(pairs(acc@) =~= m.insert(i as int, x));
                }
                return ;
            },
            Rank::After => {
                assert(pair_before(m[i as int], x));
                i += 1;
            },
        }
    }
    acc.push((a, b));
    proof {
        lemma_insert_keeps_sorted(m, m.len() as int, x);
        assert(pairs(acc@) =~= m.insert(m.len() as int, x));
    }
}

/// The names that `orig_tokens` and `new_tokens` spell in each of the eight
/// styles, as pairs, in the order of the styles.
pub fn variant_pairs_of(orig_tokens: &[String], new_tokens: &[String]) -> (candidates: Vec<
    (String, String),
>)
    ensures
        candidates.deep_view() == variant_pairs(orig_tokens.deep_view(), new_tokens.deep_view()),
        candidates.len() == 8,
{
    let ghost ot = orig_tokens.deep_view();
    let ghost nt = new_tokens.deep_view();
    let o = chars_of_each(orig_tokens);
    let n = chars_of_each(new_tokens);
    let mut candidates: Vec<(String, String)> = Vec::new();
    let mut k: usize = 0;
    while k < 8
        invariant
            k <= 8,
            rows(o@) == ot,
            rows(n@) == nt,
            candidates.len() == k,
            forall|j: int|
                0 <= j < k ==> (#[trigger] candidates@[j]).0@ == variant_pair(j, ot, nt).0
                    && candidates@[j].1@ == variant_pair(j, ot, nt).1,
        decreases 8 - k,
    {
        let style = style_number(k);
        let a = render(style, &o);
        let b = render(style, &n);
        candidates.push((string_of(&a), string_of(&b)));
        k += 1;
    }
    assert(candidates.deep_view() =~= variant_pairs(ot, nt));
    candidates
}

/// The pairs of `candidates` with two non-empty sides, sorted, each once.
pub fn select_pairs(candidates: &[(String, String)]) -> (mappings: Vec<(String, String)>)
    ensures
        is_selection(mappings.deep_view(), candidates.deep_view()),
        mappings.len() <= candidates.len(),
{
    let ghost all = candidates.deep_view();
    let mut acc: Vec<(Vec<char>, Vec<char>)> = Vec::new();
    let mut k: usize = 0;
    assert(all.take(0) =~= Seq::<Pair>::empty());
    while k < candidates.len()
        invariant
            k <= candidates.len(),
            all == candidates.deep_view(),
            acc.len() <= k,
            strictly_sorted(pairs(acc@)),
            forall|p: Pair|
                #![trigger pairs(acc@).contains(p)]
                #![trigger is_kept(p, all.take(k as int))]
                pairs(acc@).contains(p) <==> is_kept(p, all.take(k as int)),
        decreases candidates.len() - k,
    {
        let a = chars_of(candidates[k].0.as_str());
        let b = chars_of(candidates[k].1.as_str());
        let ghost before = pairs(acc@);
        let ghost x = (a@, b@);
        let ghost seen = all.take(k as int);
        let ghost next = all.take(k + 1);
        proof {
            assert(x == all[k as int]);
            assert(next =~= seen.push(x));
        }
        if a.len() > 0 && b.len() > 0 {
            insert_pair(&mut acc, a, b);
        }
        proof {
            let after = pairs(acc@);
            assert forall|p: Pair|
                #![trigger after.contains(p)]
                #![trigger is_kept(p, next)]
                after.contains(p) <==> is_kept(p, next) by {
                if next.contains(p) {
                    let j = choose|j: int| 0 <= j < next.len() && next[j] == p;
                    if j < k {
                        assert(seen[j] == p);
                    }
                }
                if seen.contains(p) {
                    let j = choose|j: int| 0 <= j < seen.len() && seen[j] == p;
                    assert(next[j] == p);
                }
                assert(next[k as int] == x);
                assert(before.contains(p) <==> is_kept(p, seen));
            }
        }
        k += 1;
    }
    assert(all.take(candidates.len() as int) =~= all);
    let mut mappings: Vec<(String, String)> = Vec::new();
    let mut i: usize = 0;
    while i < acc.len()
        invariant
            i <= acc.len(),
            mappings.len() == i,
            forall|j: int|
                0 <= j < i ==> (#[trigger] mappings@[j]).0@ == acc@[j].0@ && mappings@[j].1@
                    == acc@[j].1@,
        decreases acc.len() - i,
    {
        let from = string_of(&acc[i].0);
        let to = string_of(&acc[i].1);
        mappings.push((from, to));
        i += 1;
    }
    assert(mappings.deep_view() =~= pairs(acc@));
    mappings
}

/// The mapping set that takes the name spelled by `orig_tokens` to the name
/// spelled by `new_tokens`: for each of the eight styles the pair of both
/// names in that style, kept if neither side is empty; then sorted, with
/// duplicates removed.
pub fn generate_variant_mappings(orig_tokens: &[String], new_tokens: &[String]) -> (mappings: Vec<
    (String, String),
>)
    ensures
        is_mapping_set(mappings.deep_view(), orig_tokens.deep_view(), new_tokens.deep_view()),
        mappings.len() <= 8,
{
    let candidates = variant_pairs_of(orig_tokens, new_tokens);
    select_pairs(candidates.as_slice())
}

// ---------------------------------------------------------------------------
// What holds of every mapping set
// ---------------------------------------------------------------------------

/// A selection holds no pair with an empty side, holds no pair twice, and
/// is sorted.
pub proof fn lemma_selection_is_clean(m: Seq<Pair>, candidates: Seq<Pair>)
    requires
        is_selection(m, candidates),
    ensures
        forall|i: int| 0 <= i < m.len() ==> (#[trigger] m[i]).0.len() > 0 && m[i].1.len() > 0,
        m.no_duplicates(),
        strictly_sorted(m),
{
    assert forall|i: int| 0 <= i < m.len() implies (#[trigger] m[i]).0.len() > 0 && m[i].1.len()
        > 0 by {
        assert(m.contains(m[i]));
    }
    assert forall|i: int, j: int| 0 <= i < m.len() && 0 <= j < m.len() && i != j implies m[i]
        != m[j] by {
        lemma_pair_before_irreflexive(m[i]);
        if i < j {
            assert(pair_before(m[i], m[j]));
        } else {
            assert(pair_before(m[j], m[i]));
        }
    }
}

/// Whatever the two token sequences, their mapping set holds no pair with an
/// empty side, holds no pair twice, and is sorted.
pub proof fn lemma_mapping_set_is_clean(
    m: Seq<Pair>,
    original: Seq<Seq<char>>,
    replacement: Seq<Seq<char>>,
)
    requires
        is_mapping_set(m, original, replacement),
    ensures
        forall|i: int| 0 <= i < m.len() ==> (#[trigger] m[i]).0.len() > 0 && m[i].1.len() > 0,
        m.no_duplicates(),
        strictly_sorted(m),
{
    lemma_selection_is_clean(m, variant_pairs(original, replacement));
}

/// Two sorted sequences that hold the same pairs are the same sequence.
pub proof fn lemma_sorted_is_unique(a: Seq<Pair>, b: Seq<Pair>)
    requires
        strictly_sorted(a),
        strictly_sorted(b),
        forall|p: Pair|
            #![trigger a.contains(p)]
            #![trigger b.contains(p)]
            a.contains(p) <==> b.contains(p),
    ensures
        a == b,
    decreases a.len(),
{
    if a.len() == 0 {
        if b.len() > 0 {
            assert(b.contains(b[0]));
        }
        assert(a =~= b);
    } else {
        assert(a.contains(a[0]));
        let j = choose|j: int| 0 <= j < b.len() && b[j] == a[0];
        assert(b.contains(b[0]));
        let i = choose|i: int| 0 <= i < a.len() && a[i] == b[0];
        lemma_pair_before_irreflexive(a[0]);
        if j > 0 {
            assert(pair_before(b[0], b[j]));
            if i > 0 {
                assert(pair_before(a[0], a[i]));
                lemma_pair_before_transitive(a[0], b[0], a[0]);
            }
        }
        assert(a[0] == b[0]);
        let ta = a.skip(1);
        let tb = b.skip(1);
        assert forall|p: Pair|
            #![trigger ta.contains(p)]
            #![trigger tb.contains(p)]
            ta.contains(p) <==> tb.contains(p) by {
            lemma_pair_before_irreflexive(p);
            if ta.contains(p) {
                let k = choose|k: int| 0 <= k < ta.len() && ta[k] == p;
                assert(a[k + 1] == p);
                assert(pair_before(a[0], a[k + 1]));
                assert(a.contains(p));
                let l = choose|l: int| 0 <= l < b.len() && b[l] == p;
                assert(tb[l - 1] == p);
            }
            if tb.contains(p) {
                let k = choose|k: int| 0 <= k < tb.len() && tb[k] == p;
                assert(b[k + 1] == p);
                assert(pair_before(b[0], b[k + 1]));
                assert(b.contains(p));
                let l = choose|l: int| 0 <= l < a.len() && a[l] == p;
                assert(ta[l - 1] == p);
            }
        }
        assert forall|x: int, y: int| 0 <= x < y < ta.len() implies pair_before(
            #[trigger] ta[x],
            #[trigger] ta[y],
        ) by {
            assert(pair_before(a[x + 1], a[y + 1]));
        }
        assert forall|x: int, y: int| 0 <= x < y < tb.len() implies pair_before(
            #[trigger] tb[x],
            #[trigger] tb[y],
        ) by {
            assert(pair_before(b[x + 1], b[y + 1]));
        }
        lemma_sorted_is_unique(ta, tb);
        assert(a =~= seq![a[0]] + ta);
        assert(b =~= seq![b[0]] + tb);
    }
}

/// A sequence of candidates has one selection.
pub proof fn lemma_selection_is_unique(a: Seq<Pair>, b: Seq<Pair>, candidates: Seq<Pair>)
    requires
        is_selection(a, candidates),
        is_selection(b, candidates),
    ensures
        a == b,
{
    assert forall|p: Pair|
        #![trigger a.contains(p)]
        #![trigger b.contains(p)]
        a.contains(p) <==> b.contains(p) by {
        assert(a.contains(p) <==> is_kept(p, candidates));
        assert(b.contains(p) <==> is_kept(p, candidates));
    }
    lemma_sorted_is_unique(a, b);
}

/// Two token sequences have one mapping set.
pub proof fn lemma_mapping_set_is_unique(
    a: Seq<Pair>,
    b: Seq<Pair>,
    original: Seq<Seq<char>>,
    replacement: Seq<Seq<char>>,
)
    requires
        is_mapping_set(a, original, replacement),
        is_mapping_set(b, original, replacement),
    ensures
        a == b,
{
    lemma_selection_is_unique(a, b, variant_pairs(original, replacement));
}

} // verus!
