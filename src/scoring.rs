use vstd::prelude::*;
use vstd::string::*;
use std::collections::HashMap;

verus! {

broadcast use vstd::std_specs::hash::group_hash_axioms;

/// The outcome of scoring one letter of a guess.
#[derive(Clone, Copy, Debug, PartialEq, Eq, Structural)]
pub enum Verdict {
    /// The right letter in the right place.
    Correct,
    /// A letter of the secret word, in another place.
    Misplaced,
    /// Not used by the secret word, as far as this position goes.
    Absent,
}

/// How many of the first `k` characters of `s` are `c`.
pub open spec fn count_before(s: Seq<char>, k: int, c: char) -> int
    decreases k,
{
    if k <= 0 {
        0
    } else {
        count_before(s, k - 1, c) + if s[k - 1] == c {
            1int
        } else {
            0int
        }
    }
}

/// How many times `c` occurs in `s`.
pub open spec fn count_of(s: Seq<char>, c: char) -> int {
    count_before(s, s.len() as int, c)
}

/// How many of the first `k` positions hold `c` in both words.
pub open spec fn exact_before(s: Seq<char>, g: Seq<char>, k: int, c: char) -> int
    decreases k,
{
    if k <= 0 {
        0
    } else {
        exact_before(s, g, k - 1, c) + if g[k - 1] == c && s[k - 1] == c {
            1int
        } else {
            0int
        }
    }
}

/// How many of the first `k` positions hold `c` in the guess but not in
/// the secret.
pub open spec fn loose_before(s: Seq<char>, g: Seq<char>, k: int, c: char) -> int
    decreases k,
{
    if k <= 0 {
        0
    } else {
        loose_before(s, g, k - 1, c) + if g[k - 1] == c && s[k - 1] != c {
            1int
        } else {
            0int
        }
    }
}

/// The occurrences of `c` in the secret that no exact match uses.
pub open spec fn spare(s: Seq<char>, g: Seq<char>, c: char) -> int {
    count_of(s, c) - exact_before(s, g, s.len() as int, c)
}

/// The verdict on position `p` of guess `g` against secret `s`: exact
/// matches first; then, left to right, a misplaced letter takes one of the
/// occurrences that exact matches left over, while any are left.
pub open spec fn verdict_at(s: Seq<char>, g: Seq<char>, p: int) -> Verdict {
    if g[p] == s[p] {
        Verdict::Correct
    } else if loose_before(s, g, p, g[p]) < spare(s, g, g[p]) {
        Verdict::Misplaced
    } else {
        Verdict::Absent
    }
}

/// The scored guess: each letter of `g` with its verdict.
pub open spec fn scored(s: Seq<char>, g: Seq<char>) -> Seq<(char, Verdict)> {
    Seq::new(g.len(), |i: int| (g[i], verdict_at(s, g, i)))
}

/// How many of the first `k` letters of the guess that are `c` were marked
/// Correct or Misplaced.
pub open spec fn marked_before(s: Seq<char>, g: Seq<char>, k: int, c: char) -> int
    decreases k,
{
    if k <= 0 {
        0
    } else {
        marked_before(s, g, k - 1, c) + if g[k - 1] == c && verdict_at(s, g, k - 1)
            != Verdict::Absent {
            1int
        } else {
            0int
        }
    }
}

/// `c` occurs in the guess and every one of its occurrences is Absent.
pub open spec fn fully_absent(s: Seq<char>, g: Seq<char>, c: char) -> bool {
    &&& exists|p: int| 0 <= p < g.len() && g[p] == c
    &&& forall|q: int| 0 <= q < g.len() && g[q] == c ==> verdict_at(s, g, q) == Verdict::Absent
}

/// The letters that a guess shows to be absent from the secret.
pub open spec fn newly_eliminated(s: Seq<char>, g: Seq<char>) -> Set<char> {
    Set::new(|c: char| fully_absent(s, g, c))
}

proof fn lemma_count_bounds(s: Seq<char>, k: int, c: char)
    requires
        0 <= k <= s.len(),
    ensures
        0 <= count_before(s, k, c) <= k,
        count_before(s, k, c) <= count_of(s, c),
    decreases s.len() - k,
{
    lemma_count_prefix(s, k, c);
    if k < s.len() {
        lemma_count_bounds(s, k + 1, c);
    }
}

proof fn lemma_count_prefix(s: Seq<char>, k: int, c: char)
    requires
        0 <= k <= s.len(),
    ensures
        0 <= count_before(s, k, c) <= k,
    decreases k,
{
    if k > 0 {
        lemma_count_prefix(s, k - 1, c);
    }
}

proof fn lemma_loose_nonneg(s: Seq<char>, g: Seq<char>, k: int, c: char)
    ensures
        loose_before(s, g, k, c) >= 0,
    decreases k,
{
    if k > 0 {
        lemma_loose_nonneg(s, g, k - 1, c);
    }
}

proof fn lemma_exact_le_count(s: Seq<char>, g: Seq<char>, k: int, c: char)
    requires
        0 <= k <= s.len(),
        s.len() == g.len(),
    ensures
        0 <= exact_before(s, g, k, c) <= count_before(s, k, c),
    decreases k,
{
    if k > 0 {
        lemma_exact_le_count(s, g, k - 1, c);
    }
}

/// The spare occurrences of a letter are never negative.
proof fn lemma_spare_nonneg(s: Seq<char>, g: Seq<char>, c: char)
    requires
        s.len() == g.len(),
    ensures
        spare(s, g, c) >= 0,
        count_of(s, c) == 0 ==> spare(s, g, c) == 0,
{
    lemma_exact_le_count(s, g, s.len() as int, c);
}

/// The occurrences of `c` in the secret that are still free for misplaced
/// letters after the first `k` positions of the guess.
pub open spec fn unused_after(s: Seq<char>, g: Seq<char>, k: int, c: char) -> int {
    if loose_before(s, g, k, c) < spare(s, g, c) {
        spare(s, g, c) - loose_before(s, g, k, c)
    } else {
        0
    }
}

proof fn lemma_key_in(m: Map<u32, i32>, s: Seq<char>, c: char)
    requires
        forall|d: char| #[trigger] m.contains_key(d as u32) <==> count_of(s, d) > 0,
    ensures
        m.contains_key(c as u32) <==> count_of(s, c) > 0,
{
}

proof fn lemma_key_injective(c: char, d: char)
    ensures
        (c as u32 == d as u32) <==> c == d,
{
}

proof fn lemma_key_val(m: Map<u32, i32>, f: spec_fn(char) -> int, c: char)
    requires
        forall|d: char| #[trigger] m.contains_key(d as u32) ==> m[d as u32] == f(d),
    ensures
        m.contains_key(c as u32) ==> m[c as u32] == f(c),
{
}

proof fn lemma_guess_count_split(s: Seq<char>, g: Seq<char>, k: int, c: char)
    requires
        0 <= k <= g.len(),
        s.len() == g.len(),
    ensures
        count_before(g, k, c) == exact_before(s, g, k, c) + loose_before(s, g, k, c),
    decreases k,
{
    if k > 0 {
        lemma_guess_count_split(s, g, k - 1, c);
    }
}

proof fn lemma_marked_prefix(s: Seq<char>, g: Seq<char>, k: int, c: char)
    requires
        0 <= k <= g.len(),
        s.len() == g.len(),
    ensures
        marked_before(s, g, k, c) == exact_before(s, g, k, c) + if loose_before(s, g, k, c)
            < spare(s, g, c) {
            loose_before(s, g, k, c)
        } else {
            spare(s, g, c)
        },
    decreases k,
{
    lemma_spare_nonneg(s, g, c);
    if k > 0 {
        lemma_marked_prefix(s, g, k - 1, c);
        lemma_loose_nonneg(s, g, k - 1, c);
    }
}

/// However letters repeat, the occurrences of a letter that a guess gets
/// marked Correct or Misplaced number exactly the smaller of its counts in
/// the secret and in the guess. In particular they never exceed the
/// secret's count: a letter that the secret holds once and the guess twice
/// is marked once and Absent once.
pub proof fn lemma_marked_is_min(s: Seq<char>, g: Seq<char>, c: char)
    requires
        s.len() == g.len(),
    ensures
        marked_before(s, g, g.len() as int, c) == if count_of(s, c) < count_of(g, c) {
            count_of(s, c)
        } else {
            count_of(g, c)
        },
        marked_before(s, g, g.len() as int, c) <= count_of(s, c),
{
    lemma_marked_prefix(s, g, g.len() as int, c);
    lemma_guess_count_split(s, g, g.len() as int, c);
}

/// Counts each character of `word`. The map is keyed by the character's
/// scalar value.
pub fn create_charmap(word: &str) -> (m: HashMap<u32, i32>)
    requires
        word@.len() <= i32::MAX,
    ensures
        forall|c: char| #[trigger] m@.contains_key(c as u32) <==> count_of(word@, c) > 0,
        forall|c: char| #[trigger] m@.contains_key(c as u32) ==> m@[c as u32] == count_of(word@, c),
        forall|k: u32| #[trigger]
            m@.contains_key(k) ==> exists|j: int| 0 <= j < word@.len() && k == (#[trigger] word@[j]) as u32,
{
    let n = word.unicode_len();
    let mut m: HashMap<u32, i32> = HashMap::new();
    let mut i: usize = 0;
    while i < n
        invariant
            n == word@.len(),
            n <= i32::MAX,
            i <= n,
            forall|c: char|
                #[trigger] m@.contains_key(c as u32) <==> count_before(word@, i as int, c) > 0,
            forall|c: char|
                #[trigger] m@.contains_key(c as u32) ==> m@[c as u32] == count_before(
                    word@,
                    i as int,
                    c,
                ),
            forall|k: u32| #[trigger]
                m@.contains_key(k) ==> exists|j: int| 0 <= j < i && k == (#[trigger] word@[j]) as u32,
        decreases n - i,
    {
        let c = word.get_char(i);
        let key = c as u32;
        proof {
            lemma_count_prefix(word@, i as int, c);
        }
        let next: i32 = match m.get(&key) {
            Some(v) => *v + 1,
            None => 1,
        };
        m.insert(key, next);
        i += 1;
    }
    m
}

/// The characters of `s`, in order.
pub(crate) fn chars_of(s: &str) -> (r: Vec<char>)
    ensures
        r@ == s@,
{
    let n = s.unicode_len();
    let mut r: Vec<char> = Vec::new();
    let mut i: usize = 0;
    while i < n
        invariant
            n == s@.len(),
            i <= n,
            r@ == s@.take(i as int),
        decreases n - i,
    {
        r.push(s.get_char(i));
        i += 1;
        assert(r@ =~= s@.take(i as int));
    }
    assert(s@.take(n as int) =~= s@);
    r
}

/// Scores `guess` against `secret`, letter by letter. Exact matches are
/// marked first and each uses up one occurrence of its letter; then, left to
/// right, a letter in the wrong place is marked Misplaced while occurrences
/// of it are left, and Absent otherwise.
pub fn score_guess(secret: &str, guess: &str) -> (r: Vec<(char, Verdict)>)
    requires
        secret@.len() == guess@.len(),
        secret@.len() <= i32::MAX,
    ensures
        r@ == scored(secret@, guess@),
{
    let ghost s = secret@;
    let ghost g = guess@;
    let sc = chars_of(secret);
    let gc = chars_of(guess);
    let n = sc.len();
    let mut counts = create_charmap(secret);
    assert(forall|c: char| #[trigger] counts@.contains_key(c as u32) <==> count_of(s, c) > 0);
    assert(forall|c: char| count_of(s, c) > 0 ==> #[trigger] counts@.contains_key(c as u32));
    let mut verdicts: Vec<Verdict> = Vec::new();
    let mut i: usize = 0;
    while i < n
        invariant
            sc@ == s,
            gc@ == g,
            n == s.len(),
            s.len() == g.len(),
            i <= n,
            verdicts@.len() == i,
            forall|j: int|
                0 <= j < i ==> #[trigger] verdicts@[j] == if g[j] == s[j] {
                    Verdict::Correct
                } else {
                    Verdict::Absent
                },
            forall|c: char| #[trigger] counts@.contains_key(c as u32) <==> count_of(s, c) > 0,
            forall|c: char|
                #[trigger] counts@.contains_key(c as u32) ==> counts@[c as u32] == count_of(s, c)
                    - exact_before(s, g, i as int, c),
        decreases n - i,
    {
        if gc[i] == sc[i] {
            let c = gc[i];
            let key = c as u32;
            proof {
                lemma_exact_le_count(s, g, i + 1, c);
                lemma_count_bounds(s, i + 1, c);
                lemma_count_bounds(s, i as int, c);
                lemma_key_in(counts@, s, c);
                lemma_key_val(counts@, |d: char| count_of(s, d) - exact_before(s, g, i as int, d), c);
            }
            let left: i32 = match counts.get(&key) {
                Some(v) => *v - 1,
                None => 0,
            };
            let ghost before = counts@;
            counts.insert(key, left);
            verdicts.push(Verdict::Correct);
            proof {
                assert forall|d: char| #[trigger] counts@.contains_key(d as u32) implies counts@[d
                    as u32] == count_of(s, d) - exact_before(s, g, i + 1, d) by {
                    lemma_key_in(before, s, d);
                    lemma_key_val(before, |e: char| count_of(s, e) - exact_before(s, g, i as int, e), d);
                    lemma_key_injective(c, d);
                }
            }
        } else {
            verdicts.push(Verdict::Absent);
        }
        i += 1;
    }
    proof {
        assert forall|c: char| #[trigger] counts@.contains_key(c as u32) implies counts@[c
            as u32] == unused_after(s, g, 0, c) by {
            lemma_spare_nonneg(s, g, c);
            lemma_key_val(counts@, |d: char| count_of(s, d) - exact_before(s, g, n as int, d), c);
        }
    }
    i = 0;
    while i < n
        invariant
            sc@ == s,
            gc@ == g,
            n == s.len(),
            s.len() == g.len(),
            i <= n,
            verdicts@.len() == n,
            forall|j: int| 0 <= j < i ==> #[trigger] verdicts@[j] == verdict_at(s, g, j),
            forall|j: int|
                i <= j < n ==> #[trigger] verdicts@[j] == if g[j] == s[j] {
                    Verdict::Correct
                } else {
                    Verdict::Absent
                },
            forall|c: char| #[trigger] counts@.contains_key(c as u32) <==> count_of(s, c) > 0,
            forall|c: char|
                #[trigger] counts@.contains_key(c as u32) ==> counts@[c as u32] == unused_after(
                    s,
                    g,
                    i as int,
                    c,
                ),
        decreases n - i,
    {
        let ghost before = counts@;
        if gc[i] != sc[i] {
            let c = gc[i];
            let key = c as u32;
            proof {
                lemma_spare_nonneg(s, g, c);
                lemma_count_bounds(s, s.len() as int, c);
                lemma_key_in(counts@, s, c);
                lemma_key_val(counts@, |d: char| unused_after(s, g, i as int, d), c);
            }
            match counts.get(&key) {
                Some(v) => {
                    if *v > 0 {
                        let left: i32 = *v - 1;
                        counts.insert(key, left);
                        verdicts.set(i, Verdict::Misplaced);
                    }
                },
                None => {
                    proof {
                        lemma_loose_nonneg(s, g, i as int, c);
                    }
                },
            }
            assert(verdicts@[i as int] == verdict_at(s, g, i as int));
        }
        proof {
            assert forall|c: char| #[trigger] counts@.contains_key(c as u32) implies counts@[c
                as u32] == unused_after(s, g, i + 1, c) by {
                lemma_spare_nonneg(s, g, c);
                lemma_key_in(before, s, c);
                lemma_key_val(before, |d: char| unused_after(s, g, i as int, d), c);
                lemma_key_injective(c, g[i as int]);
                assert(loose_before(s, g, i + 1, c) == loose_before(s, g, i as int, c) + if g[i as int]
                    == c && s[i as int] != c {
                    1int
                } else {
                    0int
                });
            }
        }
        i += 1;
    }
    let mut r: Vec<(char, Verdict)> = Vec::new();
    i = 0;
    while i < n
        invariant
            gc@ == g,
            n == g.len(),
            s.len() == g.len(),
            i <= n,
            verdicts@.len() == n,
            forall|j: int| 0 <= j < n ==> #[trigger] verdicts@[j] == verdict_at(s, g, j),
            r@ == scored(s, g).take(i as int),
        decreases n - i,
    {
        r.push((gc[i], verdicts[i]));
        i += 1;
        assert(r@ =~= scored(s, g).take(i as int));
    }
    assert(scored(s, g).take(n as int) =~= scored(s, g));
    r
}

} // verus!
