use vstd::prelude::*;
use vstd::string::*;

verus! {

/// The length of every candidate word.
pub const WORD_LENGTH: usize = 5;

/// The number of header lines at the top of a word list.
pub const HEADER_LINES: usize = 2;

pub open spec fn is_ascii_letter(c: char) -> bool {
    ('a' <= c && c <= 'z') || ('A' <= c && c <= 'Z')
}

pub open spec fn is_ascii_upper(c: char) -> bool {
    'A' <= c && c <= 'Z'
}

pub open spec fn all_ascii_letters(s: Seq<char>) -> bool {
    forall|i: int| 0 <= i < s.len() ==> is_ascii_letter(#[trigger] s[i])
}

pub open spec fn all_ascii_upper(s: Seq<char>) -> bool {
    forall|i: int| 0 <= i < s.len() ==> is_ascii_upper(#[trigger] s[i])
}

/// The characters of `s` that are ASCII letters, in order.
pub open spec fn keep_letters(s: Seq<char>) -> Seq<char>
    decreases s.len(),
{
    if s.len() == 0 {
        Seq::empty()
    } else {
        let rest = keep_letters(s.drop_last());
        if is_ascii_letter(s.last()) {
            rest.push(s.last())
        } else {
            rest
        }
    }
}

/// What `str::trim` returns for `s`.
pub uninterp spec fn trimmed_of(s: Seq<char>) -> Seq<char>;

/// What `str::to_uppercase` returns for `s`.
pub uninterp spec fn uppercase_of(s: Seq<char>) -> Seq<char>;

/// The normalized form of a word: trimmed, upper-cased, letters only.
pub open spec fn sanitized(s: Seq<char>) -> Seq<char> {
    keep_letters(uppercase_of(trimmed_of(s)))
}

/// Relies on `str::trim`: leading and trailing whitespace removed, so a
/// string of ASCII letters alone comes back as it is.
#[verifier::external_body]
fn trim_str(s: &str) -> (r: &str)
    ensures
        r@ == trimmed_of(s@),
        all_ascii_letters(s@) ==> r@ == s@,
{
    s.trim()
}

/// Relies on `str::to_uppercase`: the Unicode upper-case mapping of each
/// character. ASCII upper-case letters map to themselves, and no result
/// character is an ASCII lower-case letter.
#[verifier::external_body]
fn to_upper(s: &str) -> (r: String)
    ensures
        r@ == uppercase_of(s@),
        all_ascii_upper(s@) ==> r@ == s@,
        forall|i: int| 0 <= i < r@.len() ==> !('a' <= #[trigger] r@[i] && r@[i] <= 'z'),
{
    s.to_uppercase()
}

/// Relies on `String::push`: appends one character.
#[verifier::external_body]
pub(crate) fn push_char(s: &mut String, c: char)
    ensures
        final(s)@ == old(s)@.push(c),
{
    s.push(c)
}

/// Keeps the ASCII letters of `s`, in order.
pub fn strip_non_letters(s: &str) -> (r: String)
    ensures
        r@ == keep_letters(s@),
{
    let n = s.unicode_len();
    let mut r = String::new();
    let mut i: usize = 0;
    while i < n
        invariant
            n == s@.len(),
            i <= n,
            r@ == keep_letters(s@.take(i as int)),
        decreases n - i,
    {
        let c = s.get_char(i);
        assert(s@.take(i + 1).drop_last() =~= s@.take(i as int));
        if ('a' <= c && c <= 'z') || ('A' <= c && c <= 'Z') {
            push_char(&mut r, c);
        }
        i += 1;
    }
    assert(s@.take(n as int) =~= s@);
    r
}

/// Normalizes a word: trims it, upper-cases it and drops every character
/// that is not an ASCII letter.
///
/// The result is made of ASCII upper-case letters, and a word made of them
/// alone is returned unchanged: normalizing twice is normalizing once.
pub fn sanitize_word(word: &str) -> (r: String)
    ensures
        r@ == sanitized(word@),
        all_ascii_upper(r@),
        all_ascii_upper(word@) ==> r@ == word@,
{
    let t = trim_str(word);
    let u = to_upper(t);
    let r = strip_non_letters(u.as_str());
    proof {
        lemma_keep_letters_from(u@);
        if all_ascii_upper(word@) {
            assert(all_ascii_letters(word@));
            lemma_keep_letters_of_letters(u@);
        }
    }
    r
}

/// Every character kept is a letter of `s`.
proof fn lemma_keep_letters_from(s: Seq<char>)
    ensures
        forall|i: int|
            0 <= i < keep_letters(s).len() ==> is_ascii_letter(#[trigger] keep_letters(s)[i])
                && s.contains(keep_letters(s)[i]),
    decreases s.len(),
{
    if s.len() > 0 {
        lemma_keep_letters_from(s.drop_last());
        assert forall|i: int| 0 <= i < keep_letters(s).len() implies is_ascii_letter(
            #[trigger] keep_letters(s)[i],
        ) && s.contains(keep_letters(s)[i]) by {
            let k = keep_letters(s.drop_last());
            if i < k.len() {
                let j = choose|j: int| 0 <= j < s.drop_last().len() && s.drop_last()[j] == k[i];
                assert(s[j] == k[i]);
            } else {
                assert(s[s.len() - 1] == s.last());
            }
        }
    }
}

/// A string of letters alone is kept whole.
proof fn lemma_keep_letters_of_letters(s: Seq<char>)
    requires
        all_ascii_letters(s),
    ensures
        keep_letters(s) == s,
    decreases s.len(),
{
    if s.len() > 0 {
        lemma_keep_letters_of_letters(s.drop_last());
        assert(s.drop_last().push(s.last()) =~= s);
    }
}

/// The lines of `s`: the pieces between the '\n' characters, in order.
pub open spec fn lines_of(s: Seq<char>) -> Seq<Seq<char>>
    decreases s.len(),
{
    if s.len() == 0 {
        seq![Seq::empty()]
    } else {
        let p = lines_of(s.drop_last());
        if s.last() == '\n' {
            p.push(Seq::empty())
        } else {
            p.update(p.len() - 1, p.last().push(s.last()))
        }
    }
}

/// The normalized forms of `lines` that have the word length, in order.
pub open spec fn keep_words(lines: Seq<Seq<char>>) -> Seq<Seq<char>>
    decreases lines.len(),
{
    if lines.len() == 0 {
        Seq::empty()
    } else {
        let rest = keep_words(lines.drop_last());
        if sanitized(lines.last()).len() == WORD_LENGTH {
            rest.push(sanitized(lines.last()))
        } else {
            rest
        }
    }
}

/// The candidate words of a word list: every line after the header,
/// normalized, kept where it has the word length.
pub open spec fn dictionary_of(text: Seq<char>) -> Seq<Seq<char>> {
    let lines = lines_of(text);
    if lines.len() <= HEADER_LINES {
        Seq::empty()
    } else {
        keep_words(lines.subrange(HEADER_LINES as int, lines.len() as int))
    }
}

proof fn lemma_lines_nonempty(s: Seq<char>)
    ensures
        lines_of(s).len() >= 1,
    decreases s.len(),
{
    if s.len() > 0 {
        lemma_lines_nonempty(s.drop_last());
    }
}

/// A text without a line break is one line.
proof fn lemma_single_line(s: Seq<char>)
    requires
        !s.contains('\n'),
    ensures
        lines_of(s) == seq![s],
    decreases s.len(),
{
    if s.len() > 0 {
        assert(!s.drop_last().contains('\n')) by {
            if s.drop_last().contains('\n') {
                let j = choose|j: int| 0 <= j < s.drop_last().len() && s.drop_last()[j] == '\n';
                assert(s[j] == '\n');
            }
        }
        lemma_single_line(s.drop_last());
        assert(s[s.len() - 1] != '\n');
        assert(s.drop_last().push(s.last()) =~= s);
        assert(lines_of(s) =~= seq![s]);
    } else {
        assert(s =~= Seq::<char>::empty());
    }
}

/// The lines of a text that continues after a line break are the lines
/// before the break followed by the lines after it.
proof fn lemma_lines_concat(a: Seq<char>, b: Seq<char>)
    ensures
        lines_of(a.push('\n') + b) == lines_of(a) + lines_of(b),
    decreases b.len(),
{
    let x = a.push('\n') + b;
    if b.len() == 0 {
        assert(x =~= a.push('\n'));
        assert(x.drop_last() =~= a);
        assert(lines_of(a).push(Seq::empty()) =~= lines_of(a) + seq![Seq::<char>::empty()]);
    } else {
        assert(x.drop_last() =~= a.push('\n') + b.drop_last());
        lemma_lines_concat(a, b.drop_last());
        lemma_lines_nonempty(b.drop_last());
        lemma_lines_nonempty(a);
        assert(x.last() == b.last());
        let la = lines_of(a);
        let lb = lines_of(b.drop_last());
        if b.last() == '\n' {
            assert((la + lb).push(Seq::empty()) =~= la + lb.push(Seq::empty()));
        } else {
            assert((la + lb).update((la + lb).len() - 1, (la + lb).last().push(b.last())) =~= la
                + lb.update(lb.len() - 1, lb.last().push(b.last())));
        }
    }
}

/// The header lines of a word list are skipped whatever they hold: the
/// candidate words come from the lines after them alone.
pub proof fn lemma_header_ignored(h1: Seq<char>, h2: Seq<char>, rest: Seq<char>)
    requires
        !h1.contains('\n'),
        !h2.contains('\n'),
    ensures
        dictionary_of(h1.push('\n') + h2.push('\n') + rest) == keep_words(lines_of(rest)),
{
    let text = h1.push('\n') + h2.push('\n') + rest;
    assert(text =~= h1.push('\n') + (h2.push('\n') + rest));
    lemma_lines_concat(h1, h2.push('\n') + rest);
    lemma_lines_concat(h2, rest);
    lemma_single_line(h1);
    lemma_single_line(h2);
    let lines = lines_of(text);
    assert(lines =~= seq![h1] + (seq![h2] + lines_of(rest)));
    assert(lines.subrange(HEADER_LINES as int, lines.len() as int) =~= lines_of(rest));
}

pub open spec fn views_of(v: Seq<String>) -> Seq<Seq<char>> {
    v.map_values(|w: String| w@)
}

/// Relies on `str::split` with the separator '\n': the pieces between
/// the separators, in order.
#[verifier::external_body]
fn split_lines(s: &str) -> (r: Vec<String>)
    ensures
        views_of(r@) == lines_of(s@),
{
    s.split('\n').map(|l| l.to_string()).collect()
}

/// Loads the candidate words from the text of a word list. The header lines
/// are skipped whatever they hold; every other line is normalized and kept
/// only where its normalized form has the word length.
pub fn words_list(text: &str) -> (r: Vec<String>)
    ensures
        views_of(r@) == dictionary_of(text@),
        forall|i: int| 0 <= i < r@.len() ==> (#[trigger] r@[i])@.len() == WORD_LENGTH,
        forall|i: int| 0 <= i < r@.len() ==> all_ascii_upper(#[trigger] r@[i]@),
{
    let lines = split_lines(text);
    let ghost ls = lines_of(text@);
    let mut r: Vec<String> = Vec::new();
    if lines.len() <= HEADER_LINES {
        assert(views_of(r@) =~= dictionary_of(text@));
        return r;
    }
    let mut i: usize = HEADER_LINES;
    while i < lines.len()
        invariant
            views_of(lines@) == ls,
            HEADER_LINES <= i <= lines@.len(),
            views_of(r@) == keep_words(ls.subrange(HEADER_LINES as int, i as int)),
            forall|j: int| 0 <= j < r@.len() ==> (#[trigger] r@[j])@.len() == WORD_LENGTH,
            forall|j: int| 0 <= j < r@.len() ==> all_ascii_upper(#[trigger] r@[j]@),
        decreases lines.len() - i,
    {
        let w = sanitize_word(lines[i].as_str());
        let ghost before = r@;
        assert(ls[i as int] == lines@[i as int]@);
        assert(ls.subrange(HEADER_LINES as int, i + 1).drop_last() =~= ls.subrange(
            HEADER_LINES as int,
            i as int,
        ));
        if w.unicode_len() == WORD_LENGTH {
            r.push(w);
            assert(views_of(r@) =~= views_of(before).push(r@[r@.len() - 1]@));
        }
        i += 1;
    }
    r
}

} // verus!
