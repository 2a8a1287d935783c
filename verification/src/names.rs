//! Finding a name that is not taken yet: the wanted name itself, or else
//! the wanted name with the lowest number behind it that makes it free.

use vstd::prelude::*;

use crate::text::{append, chars_of, chars_of_each, copy_of, rows, same_text, string_of};

verus! {

// ---------------------------------------------------------------------------
// The model
// ---------------------------------------------------------------------------

/// The character for the digit `d`, for `d` from 0 to 9.
pub open spec fn digit(d: int) -> char {
    (0x30 + d) as char
}

/// `n` written in decimal, without leading zeros.
pub open spec fn decimal(n: nat) -> Seq<char>
    decreases n,
{
    if n < 10 {
        seq![digit(n as int)]
    } else {
        decimal(n / 10).push(digit((n % 10) as int))
    }
}

/// The `k`-th name to try: `base` itself for `k` zero, and after that `base`
/// followed by `sep` and the number `k`.
pub open spec fn candidate(base: Seq<char>, sep: Seq<char>, k: nat) -> Seq<char> {
    if k == 0 {
        base
    } else {
        base + sep + decimal(k)
    }
}

/// The `k`-th name to try is not among `taken`, and all the names to try
/// before it are.
pub open spec fn is_free_at(base: Seq<char>, sep: Seq<char>, taken: Seq<Seq<char>>, k: nat) -> bool {
    &&& !taken.contains(candidate(base, sep, k))
    &&& forall|j: nat| j < k ==> taken.contains(#[trigger] candidate(base, sep, j))
}

/// The turn at which the first free name is found.
pub open spec fn free_turn(base: Seq<char>, sep: Seq<char>, taken: Seq<Seq<char>>) -> nat {
    choose|k: nat| is_free_at(base, sep, taken, k)
}

/// The first of the names to try that is not among `taken`: `base` if it is
/// free, else `base`, `sep` and the lowest number from 1 on that gives a
/// free name.
pub open spec fn first_free(base: Seq<char>, sep: Seq<char>, taken: Seq<Seq<char>>) -> Seq<char> {
    candidate(base, sep, free_turn(base, sep, taken))
}

// ---------------------------------------------------------------------------
// Numbers and names differ
// ---------------------------------------------------------------------------

/// Different numbers are written differently.
pub proof fn lemma_decimal_injective(a: nat, b: nat)
    requires
        decimal(a) == decimal(b),
    ensures
        a == b,
    decreases a,
{
    if a < 10 && b < 10 {
        assert(decimal(a)[0] == digit(a as int));
        assert(decimal(b)[0] == digit(b as int));
    } else if a < 10 {
        assert(decimal(b / 10).len() >= 1) by {
            lemma_decimal_not_empty(b / 10);
        }
        assert(decimal(b).len() >= 2);
    } else if b < 10 {
        assert(decimal(a / 10).len() >= 1) by {
            lemma_decimal_not_empty(a / 10);
        }
        assert(decimal(a).len() >= 2);
    } else {
        let da = decimal(a / 10);
        let db = decimal(b / 10);
        assert(decimal(a).last() == digit((a % 10) as int));
        assert(decimal(b).last() == digit((b % 10) as int));
        assert(decimal(a).drop_last() =~= da);
        assert(decimal(b).drop_last() =~= db);
        lemma_decimal_injective(a / 10, b / 10);
    }
}

/// Every number is written with at least one digit.
pub proof fn lemma_decimal_not_empty(n: nat)
    ensures
        decimal(n).len() >= 1,
    decreases n,
{
    if n >= 10 {
        lemma_decimal_not_empty(n / 10);
    }
}

/// Different turns give different names to try.
pub proof fn lemma_candidates_differ(base: Seq<char>, sep: Seq<char>, j: nat, k: nat)
    requires
        j != k,
    ensures
        candidate(base, sep, j) != candidate(base, sep, k),
{
    lemma_decimal_not_empty(j);
    lemma_decimal_not_empty(k);
    if j != 0 && k != 0 {
        let a = candidate(base, sep, j);
        let b = candidate(base, sep, k);
        if a == b {
            let n = base.len() + sep.len();
            assert(a.skip(n as int) =~= decimal(j));
            assert(b.skip(n as int) =~= decimal(k));
            lemma_decimal_injective(j, k);
        }
    }
}

/// If the first `m` names to try are all among `taken`, then `taken` has at
/// least `m` entries.
proof fn lemma_taken_has_room(taken: Seq<Seq<char>>, base: Seq<char>, sep: Seq<char>, m: nat)
    requires
        forall|j: nat| j < m ==> taken.contains(#[trigger] candidate(base, sep, j)),
    ensures
        m <= taken.len(),
    decreases m,
{
    if m > 0 {
        let last = (m - 1) as nat;
        let c = candidate(base, sep, last);
        assert(taken.contains(c));
        let at = choose|i: int| 0 <= i < taken.len() && taken[i] == c;
        let rest = taken.remove(at);
        assert forall|j: nat| j < last implies rest.contains(#[trigger] candidate(base, sep, j)) by {
            let cj = candidate(base, sep, j);
            lemma_candidates_differ(base, sep, j, last);
            assert(taken.contains(cj));
            let i = choose|i: int| 0 <= i < taken.len() && taken[i] == cj;
            if i < at {
                assert(rest[i] == cj);
            } else {
                assert(rest[i - 1] == cj);
            }
        }
        lemma_taken_has_room(rest, base, sep, last);
    }
}

/// Only one turn finds the first free name.
pub proof fn lemma_free_turn_is_unique(
    base: Seq<char>,
    sep: Seq<char>,
    taken: Seq<Seq<char>>,
    j: nat,
    k: nat,
)
    requires
        is_free_at(base, sep, taken, j),
        is_free_at(base, sep, taken, k),
    ensures
        j == k,
{
    if j < k {
        assert(taken.contains(candidate(base, sep, j)));
    }
    if k < j {
        assert(taken.contains(candidate(base, sep, k)));
    }
}

/// If every name to try before turn `m` is taken, a free name is found at
/// turn `m` or later.
proof fn lemma_some_turn_is_free(base: Seq<char>, sep: Seq<char>, taken: Seq<Seq<char>>, m: nat)
    requires
        forall|j: nat| j < m ==> taken.contains(#[trigger] candidate(base, sep, j)),
    ensures
        exists|k: nat| is_free_at(base, sep, taken, k),
    decreases taken.len() - m,
{
    lemma_taken_has_room(taken, base, sep, m);
    if taken.contains(candidate(base, sep, m)) {
        lemma_taken_has_room(taken, base, sep, m + 1);
        lemma_some_turn_is_free(base, sep, taken, m + 1);
    } else {
        assert(is_free_at(base, sep, taken, m));
    }
}

/// Whatever is taken, a free name is found, after at most as many turns as
/// names are taken: the first free name is not taken, and every name that
/// was tried before it is.
pub proof fn lemma_first_free(base: Seq<char>, sep: Seq<char>, taken: Seq<Seq<char>>)
    ensures
        is_free_at(base, sep, taken, free_turn(base, sep, taken)),
        free_turn(base, sep, taken) <= taken.len(),
        !taken.contains(first_free(base, sep, taken)),
{
    lemma_some_turn_is_free(base, sep, taken, 0);
    lemma_taken_has_room(taken, base, sep, free_turn(base, sep, taken));
}

/// The name found at a turn that [`is_free_at`] accepts is the first free
/// name.
pub proof fn lemma_first_free_at(base: Seq<char>, sep: Seq<char>, taken: Seq<Seq<char>>, k: nat)
    requires
        is_free_at(base, sep, taken, k),
    ensures
        first_free(base, sep, taken) == candidate(base, sep, k),
{
    lemma_free_turn_is_unique(base, sep, taken, k, free_turn(base, sep, taken));
}

// ---------------------------------------------------------------------------
// Finding the name
// ---------------------------------------------------------------------------

/// `n` written in decimal.
pub fn decimal_of(n: usize) -> (r: Vec<char>)
    ensures
        r@ == decimal(n as nat),
    decreases n,
{
    let d: u8 = (n % 10) as u8;
    let c: char = (d + 0x30) as char;
    if n < 10 {
        let mut r: Vec<char> = Vec::new();
        r.push(c);
        assert(r@ =~= decimal(n as nat));
        r
    } else {
        let mut r = decimal_of(n / 10);
        r.push(c);
        r
    }
}

/// The `k`-th name to try.
fn candidate_of(base: &Vec<char>, sep: &Vec<char>, k: usize) -> (r: Vec<char>)
    ensures
        r@ == candidate(base@, sep@, k as nat),
{
    let mut r = copy_of(base);
    if k > 0 {
        append(&mut r, sep);
        let number = decimal_of(k);
        append(&mut r, &number);
    }
    r
}

/// Whether `name` is one of `taken`.
fn is_taken(taken: &Vec<Vec<char>>, name: &Vec<char>) -> (b: bool)
    ensures
        b == rows(taken@).contains(name@),
{
    let mut i: usize = 0;
    while i < taken.len()
        invariant
            i <= taken.len(),
            forall|j: int| 0 <= j < i ==> rows(taken@)[j] != name@,
        decreases taken.len() - i,
    {
        if same_text(&taken[i], name) {
            assert(rows(taken@)[i as int] == name@);
            return true;
        }
        i += 1;
    }
    false
}

/// The first name that is not among `taken`: `base` if it is free, else
/// `base`, `sep` and the lowest number from 1 on that gives a free name.
pub fn first_free_name(base: &str, sep: &str, taken: &[String]) -> (name: String)
    ensures
        name@ == first_free(base@, sep@, taken.deep_view()),
{
    let base_chars = chars_of(base);
    let sep_chars = chars_of(sep);
    let rows_taken = chars_of_each(taken);
    let ghost t = taken.deep_view();
    let mut k: usize = 0;
    while k < rows_taken.len()
        invariant
            k <= rows_taken.len(),
            t == rows(rows_taken@),
            t == taken.deep_view(),
            base_chars@ == base@,
            sep_chars@ == sep@,
            forall|j: nat| j < k ==> t.contains(#[trigger] candidate(base@, sep@, j)),
        decreases rows_taken.len() - k,
    {
        let name = candidate_of(&base_chars, &sep_chars, k);
        if !is_taken(&rows_taken, &name) {
            proof {
                lemma_first_free_at(base@, sep@, t, k as nat);
            }
            return string_of(&name);
        }
        k += 1;
    }
    let name = candidate_of(&base_chars, &sep_chars, k);
    proof {
        if t.contains(name@) {
            lemma_taken_has_room(t, base@, sep@, (k + 1) as nat);
        }
        lemma_first_free_at(base@, sep@, t, k as nat);
    }
    string_of(&name)
}

} // verus!
