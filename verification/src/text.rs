//! Character-level text utilities shared by every stage of the pipeline.
//!
//! All transformation logic works on `Vec<char>`, whose view is a
//! `Seq<char>`; strings are converted at the public boundaries.
use vstd::prelude::*;

verus! {

use vstd::string::StrSliceExecFns;

// ----------------------------------------------------------------------
// Character classification.
//
// The scanner grammar accepts Unicode identifiers, as `char`'s own
// classification defines them; those classifications are named here and
// assumed of the standard library's functions.

/// What `char::is_alphanumeric` returns; determined by the character alone.
pub uninterp spec fn char_alphanumeric(c: char) -> bool;

/// What `char::is_alphabetic` returns; determined by the character alone.
pub uninterp spec fn char_alphabetic(c: char) -> bool;

/// What `char::is_whitespace` returns; determined by the character alone.
pub uninterp spec fn char_whitespace(c: char) -> bool;

/// Relies on `char::is_alphanumeric`: a pure classification of the character.
pub assume_specification[ char::is_alphanumeric ](c: char) -> (r: bool)
    ensures
        r == char_alphanumeric(c),
;

/// Relies on `char::is_alphabetic`: a pure classification of the character.
pub assume_specification[ char::is_alphabetic ](c: char) -> (r: bool)
    ensures
        r == char_alphabetic(c),
;

/// Relies on `char::is_whitespace`: a pure classification of the character.
pub assume_specification[ char::is_whitespace ](c: char) -> (r: bool)
    ensures
        r == char_whitespace(c),
;

/// An identifier character of the directive grammar: ASCII letters,
/// digits and underscore.
pub open spec fn is_word_char(c: char) -> bool {
    ('a' <= c && c <= 'z') || ('A' <= c && c <= 'Z') || ('0' <= c && c <= '9') || c == '_'
}

/// Executable form of `is_word_char`.
pub fn word_char(c: char) -> (r: bool)
    ensures
        r == is_word_char(c),
{
    ('a' <= c && c <= 'z') || ('A' <= c && c <= 'Z') || ('0' <= c && c <= '9') || c == '_'
}

/// An ASCII decimal digit.
pub open spec fn is_digit_char(c: char) -> bool {
    '0' <= c && c <= '9'
}

/// Executable form of `is_digit_char`.
pub fn digit_char(c: char) -> (r: bool)
    ensures
        r == is_digit_char(c),
{
    '0' <= c && c <= '9'
}

// ----------------------------------------------------------------------
// String <-> character vector conversions.

/// Collects the characters of a string slice; the view of a string is
/// exactly its character sequence.
pub fn chars_vec(s: &str) -> (r: Vec<char>)
    ensures
        r@ == s@,
{
    let n = s.unicode_len();
    let mut v: Vec<char> = Vec::new();
    let mut i: usize = 0;
    while i < n
        invariant
            i <= n,
            n == s@.len(),
            v@ == s@.subrange(0, i as int),
        decreases n - i,
    {
        v.push(s.get_char(i));
        i = i + 1;
        proof {
            assert(v@ =~= s@.subrange(0, i as int));
        }
    }
    proof {
        assert(v@ =~= s@);
    }
    v
}

/// Relies on `String`'s `FromIterator<char>`: builds the string holding
/// exactly the given characters, in order.
#[verifier::external_body]
pub fn string_of(v: &Vec<char>) -> (r: String)
    ensures
        r@ == v@,
{
    v.iter().collect()
}

// ----------------------------------------------------------------------
// Basic sequence operations.

/// A copy of `v[from..to]`.
pub fn sub_chars(v: &Vec<char>, from: usize, to: usize) -> (r: Vec<char>)
    requires
        from <= to <= v@.len(),
    ensures
        r@ == v@.subrange(from as int, to as int),
{
    let mut r: Vec<char> = Vec::new();
    let mut i: usize = from;
    while i < to
        invariant
            from <= i <= to <= v@.len(),
            r@ == v@.subrange(from as int, i as int),
        decreases to - i,
    {
        r.push(v[i]);
        i = i + 1;
        proof {
            assert(r@ =~= v@.subrange(from as int, i as int));
        }
    }
    r
}

/// Appends all of `src` to `out`.
pub fn push_all(out: &mut Vec<char>, src: &Vec<char>)
    ensures
        final(out)@ == old(out)@ + src@,
{
    let mut i: usize = 0;
    while i < src.len()
        invariant
            i <= src@.len(),
            out@ == old(out)@ + src@.subrange(0, i as int),
        decreases src@.len() - i,
    {
        out.push(src[i]);
        i = i + 1;
        proof {
            assert(out@ =~= old(out)@ + src@.subrange(0, i as int));
        }
    }
    proof {
        assert(out@ =~= old(out)@ + src@);
    }
}

/// Whether the two vectors hold the same characters.
pub fn eq_chars(a: &Vec<char>, b: &Vec<char>) -> (r: bool)
    ensures
        r == (a@ == b@),
{
    if a.len() != b.len() {
        proof {
            assert(a@ != b@);
        }
        return false;
    }
    let mut i: usize = 0;
    while i < a.len()
        invariant
            i <= a@.len(),
            a@.len() == b@.len(),
            forall|j: int| 0 <= j < i ==> a@[j] == b@[j],
        decreases a@.len() - i,
    {
        if a[i] != b[i] {
            return false;
        }
        i = i + 1;
    }
    proof {
        assert(a@ =~= b@);
    }
    true
}

/// The views of a sequence of character vectors.
pub open spec fn seq_views(s: Seq<Vec<char>>) -> Seq<Seq<char>> {
    Seq::new(s.len(), |i: int| s[i]@)
}

/// Whether `pat` occurs in `s` starting at `i`.
pub open spec fn matches_at(s: Seq<char>, pat: Seq<char>, i: int) -> bool {
    0 <= i && i + pat.len() <= s.len() && s.subrange(i, i + pat.len()) == pat
}

/// Executable check of `matches_at`.
pub fn check_match_at(s: &Vec<char>, pat: &Vec<char>, i: usize) -> (r: bool)
    ensures
        r == matches_at(s@, pat@, i as int),
{
    if i > s.len() || pat.len() > s.len() - i {
        proof {
            assert(!matches_at(s@, pat@, i as int));
        }
        return false;
    }
    let n = s.len();
    let mut j: usize = 0;
    while j < pat.len()
        invariant
            j <= pat@.len(),
            i + pat@.len() <= s@.len(),
            n == s@.len(),
            forall|k: int| 0 <= k < j ==> s@[i + k] == pat@[k],
        decreases pat@.len() - j,
    {
        if s[i + j] != pat[j] {
            proof {
                assert(s@.subrange(i as int, i + pat@.len())[j as int] != pat@[j as int]);
            }
            return false;
        }
        j = j + 1;
    }
    proof {
        assert(s@.subrange(i as int, i + pat@.len()) =~= pat@);
    }
    true
}

/// The first position at or after `from` where `pat` occurs in `s`.
pub open spec fn find_from(s: Seq<char>, pat: Seq<char>, from: int) -> Option<int>
    decreases s.len() - from + 1,
{
    if from < 0 || from + pat.len() > s.len() {
        None
    } else if matches_at(s, pat, from) {
        Some(from)
    } else {
        find_from(s, pat, from + 1)
    }
}

proof fn lemma_find_skip(s: Seq<char>, pat: Seq<char>, from: int, upto: int)
    requires
        0 <= from <= upto,
        forall|j: int| from <= j < upto ==> !matches_at(s, pat, j),
    ensures
        find_from(s, pat, from) == find_from(s, pat, upto),
    decreases upto - from,
{
    if from < upto {
        if from + pat.len() > s.len() {
            lemma_find_none(s, pat, from);
            lemma_find_none(s, pat, upto);
        } else {
            lemma_find_skip(s, pat, from + 1, upto);
        }
    }
}

proof fn lemma_find_none(s: Seq<char>, pat: Seq<char>, from: int)
    requires
        from + pat.len() > s.len(),
    ensures
        find_from(s, pat, from) is None,
    decreases s.len() - from,
{
    if !(from < 0 || from + pat.len() > s.len()) {
        lemma_find_none(s, pat, from + 1);
    }
}

/// Executable search for `pat` in `s` from position `from`.
pub fn find_sub(s: &Vec<char>, pat: &Vec<char>, from: usize) -> (r: Option<usize>)
    ensures
        match r {
            Some(i) => find_from(s@, pat@, from as int) == Some(i as int),
            None => find_from(s@, pat@, from as int) is None,
        },
{
    let mut i: usize = from;
    if pat.len() == 0 && from <= s.len() {
        proof {
            assert(s@.subrange(from as int, from as int) =~= pat@);
        }
        return Some(from);
    }
    if pat.len() > s.len() || from > s.len() - pat.len() {
        proof {
            lemma_find_none(s@, pat@, from as int);
        }
        return None;
    }
    let n = s.len();
    let last: usize = s.len() - pat.len();
    while i <= last
        invariant
            from <= i,
            i <= last + 1,
            n == s@.len(),
            pat@.len() >= 1,
            last == s@.len() - pat@.len(),
            pat@.len() <= s@.len(),
            forall|j: int| from <= j < i ==> !matches_at(s@, pat@, j),
        decreases last + 1 - i,
    {
        if check_match_at(s, pat, i) {
            proof {
                lemma_find_skip(s@, pat@, from as int, i as int);
            }
            return Some(i);
        }
        i = i + 1;
    }
    proof {
        lemma_find_skip(s@, pat@, from as int, i as int);
        lemma_find_none(s@, pat@, i as int);
    }
    None
}

/// Whether `pat` occurs anywhere in `s`.
pub open spec fn contains_sub(s: Seq<char>, pat: Seq<char>) -> bool {
    find_from(s, pat, 0) is Some
}

/// Executable check of `contains_sub`.
pub fn has_sub(s: &Vec<char>, pat: &Vec<char>) -> (r: bool)
    ensures
        r == contains_sub(s@, pat@),
{
    match find_sub(s, pat, 0) {
        Some(_) => true,
        None => false,
    }
}

/// The first position at or after `from` holding the character `c`.
pub open spec fn find_char_from(s: Seq<char>, c: char, from: int) -> Option<int>
    decreases s.len() - from,
{
    if from < 0 || from >= s.len() {
        None
    } else if s[from] == c {
        Some(from)
    } else {
        find_char_from(s, c, from + 1)
    }
}

proof fn lemma_find_char_skip(s: Seq<char>, c: char, from: int, upto: int)
    requires
        0 <= from <= upto <= s.len(),
        forall|j: int| from <= j < upto ==> s[j] != c,
    ensures
        find_char_from(s, c, from) == find_char_from(s, c, upto),
    decreases upto - from,
{
    if from < upto {
        lemma_find_char_skip(s, c, from + 1, upto);
    }
}

/// Executable search for a character.
pub fn find_char(s: &Vec<char>, c: char, from: usize) -> (r: Option<usize>)
    ensures
        match r {
            Some(i) => find_char_from(s@, c, from as int) == Some(i as int),
            None => find_char_from(s@, c, from as int) is None,
        },
{
    let mut i: usize = from;
    if from >= s.len() {
        return None;
    }
    while i < s.len()
        invariant
            from <= i <= s@.len(),
            forall|j: int| from <= j < i ==> s@[j] != c,
        decreases s@.len() - i,
    {
        if s[i] == c {
            proof {
                lemma_find_char_skip(s@, c, from as int, i as int);
            }
            return Some(i);
        }
        i = i + 1;
    }
    proof {
        lemma_find_char_skip(s@, c, from as int, i as int);
    }
    None
}

// ----------------------------------------------------------------------
// Trimming.

/// Drops the longest prefix whose characters all satisfy `p`.
pub open spec fn drop_leading(s: Seq<char>, p: spec_fn(char) -> bool) -> Seq<char>
    decreases s.len(),
{
    if s.len() > 0 && p(s[0]) {
        drop_leading(s.drop_first(), p)
    } else {
        s
    }
}

/// Drops the longest suffix whose characters all satisfy `p`.
pub open spec fn drop_trailing(s: Seq<char>, p: spec_fn(char) -> bool) -> Seq<char>
    decreases s.len(),
{
    if s.len() > 0 && p(s.last()) {
        drop_trailing(s.drop_last(), p)
    } else {
        s
    }
}

pub proof fn lemma_drop_leading_is_skip(s: Seq<char>, p: spec_fn(char) -> bool, a: int)
    requires
        0 <= a <= s.len(),
        forall|j: int| 0 <= j < a ==> p(s[j]),
        a == s.len() || !p(s[a]),
    ensures
        drop_leading(s, p) == s.skip(a),
    decreases a,
{
    if a == 0 {
        assert(s.skip(0) =~= s);
    } else {
        let t = s.drop_first();
        assert(forall|j: int| 0 <= j < a - 1 ==> p(t[j]));
        lemma_drop_leading_is_skip(t, p, a - 1);
        assert(t.skip(a - 1) =~= s.skip(a));
    }
}

pub proof fn lemma_drop_trailing_is_take(s: Seq<char>, p: spec_fn(char) -> bool, b: int)
    requires
        0 <= b <= s.len(),
        forall|j: int| b <= j < s.len() ==> p(s[j]),
        b == 0 || !p(s[b - 1]),
    ensures
        drop_trailing(s, p) == s.take(b),
    decreases s.len() - b,
{
    if b == s.len() {
        assert(s.take(b) =~= s);
        if s.len() > 0 && p(s.last()) {
            assert(false);
        }
    } else {
        let t = s.drop_last();
        assert(p(s.last()));
        assert(forall|j: int| b <= j < t.len() ==> t[j] == s[j] && p(t[j]));
        lemma_drop_trailing_is_take(t, p, b);
        assert(t.take(b) =~= s.take(b));
    }
}

/// The whitespace predicate, as one named function value.
pub open spec fn ws_pred() -> spec_fn(char) -> bool {
    |c: char| char_whitespace(c)
}

/// The predicate holding exactly of the character `m`.
pub open spec fn eq_char_pred(m: char) -> spec_fn(char) -> bool {
    |c: char| c == m
}

/// `trim` as the standard library defines it: whitespace removed from
/// both ends.
pub open spec fn trim_spec(s: Seq<char>) -> Seq<char> {
    drop_trailing(drop_leading(s, ws_pred()), ws_pred())
}

/// Executable trim over a character vector.
pub fn trim_chars(v: &Vec<char>) -> (r: Vec<char>)
    ensures
        r@ == trim_spec(v@),
{
    let ghost p = ws_pred();
    let mut a: usize = 0;
    while a < v.len() && v[a].is_whitespace()
        invariant
            a <= v@.len(),
            forall|j: int| 0 <= j < a ==> char_whitespace(#[trigger] v@[j]),
        decreases v@.len() - a,
    {
        a = a + 1;
    }
    proof {
        assert forall|j: int| 0 <= j < a implies p(v@[j]) by {
            assert(char_whitespace(v@[j]));
        }
        assert(a == v@.len() || !p(v@[a as int]));
        lemma_drop_leading_is_skip(v@, p, a as int);
    }
    let ghost mid = v@.skip(a as int);
    let mut b: usize = v.len();
    while b > a && v[b - 1].is_whitespace()
        invariant
            a <= b <= v@.len(),
            forall|j: int| b <= j < v@.len() ==> char_whitespace(#[trigger] v@[j]),
        decreases b,
    {
        b = b - 1;
    }
    proof {
        assert forall|j: int| b - a <= j < mid.len() implies p(mid[j]) by {
            assert(mid[j] == v@[j + a]);
            assert(char_whitespace(v@[j + a]));
        }
        assert(b - a == 0 || !p(mid[b - a - 1])) by {
            if b > a {
                assert(mid[b - a - 1] == v@[b - 1]);
            }
        }
        lemma_drop_trailing_is_take(mid, p, b - a);
        assert(mid.take(b - a) =~= v@.subrange(a as int, b as int));
    }
    sub_chars(v, a, b)
}

/// Removes every leading and trailing occurrence of `m`, as
/// `str::trim_matches` does for a single character.
pub open spec fn trim_matches_spec(s: Seq<char>, m: char) -> Seq<char> {
    drop_trailing(drop_leading(s, eq_char_pred(m)), eq_char_pred(m))
}

/// Executable `trim_matches` for one character.
pub fn trim_matches_char(v: &Vec<char>, m: char) -> (r: Vec<char>)
    ensures
        r@ == trim_matches_spec(v@, m),
{
    let ghost p = eq_char_pred(m);
    let mut a: usize = 0;
    while a < v.len() && v[a] == m
        invariant
            a <= v@.len(),
            forall|j: int| 0 <= j < a ==> #[trigger] v@[j] == m,
        decreases v@.len() - a,
    {
        a = a + 1;
    }
    proof {
        assert forall|j: int| 0 <= j < a implies p(v@[j]) by {
            assert(v@[j] == m);
        }
        assert(a == v@.len() || !p(v@[a as int]));
        lemma_drop_leading_is_skip(v@, p, a as int);
    }
    let ghost mid = v@.skip(a as int);
    let mut b: usize = v.len();
    while b > a && v[b - 1] == m
        invariant
            a <= b <= v@.len(),
            forall|j: int| b <= j < v@.len() ==> #[trigger] v@[j] == m,
        decreases b,
    {
        b = b - 1;
    }
    proof {
        assert forall|j: int| b - a <= j < mid.len() implies p(mid[j]) by {
            assert(mid[j] == v@[j + a]);
        }
        assert(b - a == 0 || !p(mid[b - a - 1])) by {
            if b > a {
                assert(mid[b - a - 1] == v@[b - 1]);
            }
        }
        lemma_drop_trailing_is_take(mid, p, b - a);
        assert(mid.take(b - a) =~= v@.subrange(a as int, b as int));
    }
    sub_chars(v, a, b)
}

/// Removes every leading occurrence of `m`, as `str::trim_start_matches`
/// does for a single character.
pub open spec fn trim_start_matches_spec(s: Seq<char>, m: char) -> Seq<char> {
    drop_leading(s, eq_char_pred(m))
}

/// Executable `trim_start_matches` for one character.
pub fn trim_start_matches_char(v: &Vec<char>, m: char) -> (r: Vec<char>)
    ensures
        r@ == trim_start_matches_spec(v@, m),
{
    let ghost p = eq_char_pred(m);
    let mut a: usize = 0;
    while a < v.len() && v[a] == m
        invariant
            a <= v@.len(),
            forall|j: int| 0 <= j < a ==> #[trigger] v@[j] == m,
        decreases v@.len() - a,
    {
        a = a + 1;
    }
    proof {
        assert forall|j: int| 0 <= j < a implies p(v@[j]) by {
            assert(v@[j] == m);
        }
        assert(a == v@.len() || !p(v@[a as int]));
        lemma_drop_leading_is_skip(v@, p, a as int);
        assert(v@.skip(a as int) =~= v@.subrange(a as int, v@.len() as int));
    }
    sub_chars(v, a, v.len())
}

// ----------------------------------------------------------------------
// Splitting into lines and joining with newlines.

/// Removes one trailing carriage return, as `str::lines` does from each
/// line it yields.
pub open spec fn strip_cr(l: Seq<char>) -> Seq<char> {
    if l.len() > 0 && l.last() == '\r' {
        l.drop_last()
    } else {
        l
    }
}

/// The lines of `s`, as `str::lines` yields them: separated by newline,
/// each stripped of one trailing carriage return, with no empty line
/// after a trailing newline.
pub open spec fn split_lines_spec(s: Seq<char>) -> Seq<Seq<char>>
    decreases s.len(),
    via split_lines_spec_dec
{
    if s.len() == 0 {
        Seq::empty()
    } else {
        match find_char_from(s, '\n', 0) {
            Option::None => seq![strip_cr(s)],
            Option::Some(i) => seq![strip_cr(s.subrange(0, i))] + split_lines_spec(
                s.skip(i + 1),
            ),
        }
    }
}

#[via_fn]
proof fn split_lines_spec_dec(s: Seq<char>) {
    if s.len() != 0 {
        match find_char_from(s, '\n', 0) {
            Option::None => {},
            Option::Some(i) => {
                lemma_find_char_props(s, '\n', 0, i);
            },
        }
    }
}

pub proof fn lemma_find_char_in_range(s: Seq<char>, c: char, i: int)
    requires
        find_char_from(s, c, 0) == Some(i),
    ensures
        0 <= i < s.len(),
        s[i] == c,
{
    lemma_find_char_props(s, c, 0, i);
}

pub proof fn lemma_find_char_props(s: Seq<char>, c: char, from: int, i: int)
    requires
        0 <= from,
        find_char_from(s, c, from) == Some(i),
    ensures
        from <= i < s.len(),
        s[i] == c,
    decreases s.len() - from,
{
    if from < s.len() && s[from] != c {
        lemma_find_char_props(s, c, from + 1, i);
    }
}

/// Strips one trailing carriage return from a line.
pub fn strip_cr_exec(v: Vec<char>) -> (r: Vec<char>)
    ensures
        r@ == strip_cr(v@),
{
    if v.len() > 0 && v[v.len() - 1] == '\r' {
        sub_chars(&v, 0, v.len() - 1)
    } else {
        v
    }
}

/// Splits text into its lines.
pub fn split_lines(v: &Vec<char>) -> (r: Vec<Vec<char>>)
    ensures
        seq_views(r@) == split_lines_spec(v@),
    decreases v@.len(),
{
    let mut r: Vec<Vec<char>> = Vec::new();
    if v.len() == 0 {
        proof {
            assert(seq_views(r@) =~= split_lines_spec(v@));
        }
        return r;
    }
    match find_char(v, '\n', 0) {
        Option::None => {
            let whole = sub_chars(v, 0, v.len());
            proof {
                assert(whole@ =~= v@);
            }
            r.push(strip_cr_exec(whole));
            proof {
                assert(seq_views(r@) =~= split_lines_spec(v@));
            }
            r
        },
        Option::Some(i) => {
            proof {
                lemma_find_char_in_range(v@, '\n', i as int);
            }
            let head = sub_chars(v, 0, i);
            let tail = sub_chars(v, i + 1, v.len());
            proof {
                assert(tail@ =~= v@.skip(i + 1));
            }
            let mut rest = split_lines(&tail);
            r.push(strip_cr_exec(head));
            let ghost spec_rest = split_lines_spec(v@.skip(i + 1));
            let ghost before = r@;
            let ghost rest_view = rest@;
            r.append(&mut rest);
            proof {
                assert forall|j: int| 0 <= j < r@.len() implies #[trigger] seq_views(r@)[j]
                    == split_lines_spec(v@)[j] by {
                    if j == 0 {
                        assert(r@[0] == before[0]);
                    } else {
                        assert(r@[j] == rest_view[j - 1]);
                        assert(seq_views(rest_view)[j - 1] == rest_view[j - 1]@);
                    }
                }
                assert(seq_views(r@) =~= split_lines_spec(v@));
            }
            r
        },
    }
}

/// The pieces joined with the separator between them, starting at
/// `from`.
pub open spec fn join_sep_from(ls: Seq<Seq<char>>, sep: Seq<char>, from: int) -> Seq<char>
    decreases ls.len() - from,
{
    if from < 0 || from >= ls.len() {
        Seq::empty()
    } else if from == ls.len() - 1 {
        ls[from]
    } else {
        ls[from] + sep + join_sep_from(ls, sep, from + 1)
    }
}

/// The lines joined with single newlines, as `[&str]::join("\n")`.
pub open spec fn join_lines(ls: Seq<Seq<char>>) -> Seq<char> {
    join_sep_from(ls, seq!['\n'], 0)
}

fn join_sep_rec(ls: &Vec<Vec<char>>, sep: &Vec<char>, from: usize) -> (r: Vec<char>)
    ensures
        r@ == join_sep_from(seq_views(ls@), sep@, from as int),
    decreases ls@.len() - from,
{
    let ghost views = seq_views(ls@);
    let mut out: Vec<char> = Vec::new();
    if from >= ls.len() {
        return out;
    }
    push_all(&mut out, &ls[from]);
    if from == ls.len() - 1 {
        proof {
            assert(out@ =~= join_sep_from(views, sep@, from as int));
        }
        return out;
    }
    push_all(&mut out, sep);
    let rest = join_sep_rec(ls, sep, from + 1);
    push_all(&mut out, &rest);
    proof {
        assert(out@ =~= join_sep_from(views, sep@, from as int));
    }
    out
}

/// Joins pieces with a separator.
pub fn join_sep(ls: &Vec<Vec<char>>, sep: &Vec<char>) -> (r: Vec<char>)
    ensures
        r@ == join_sep_from(seq_views(ls@), sep@, 0),
{
    join_sep_rec(ls, sep, 0)
}

/// Joins lines with single newlines.
pub fn join_with_nl(ls: &Vec<Vec<char>>) -> (r: Vec<char>)
    ensures
        r@ == join_lines(seq_views(ls@)),
{
    let mut sep: Vec<char> = Vec::new();
    sep.push('\n');
    proof {
        assert(sep@ =~= seq!['\n']);
    }
    join_sep(ls, &sep)
}

// ----------------------------------------------------------------------
// Substring replacement.

/// `str::replace`: every non-overlapping occurrence of `pat`, scanned
/// left to right, replaced by `rep`.  An empty pattern leaves the text
/// unchanged.
pub open spec fn replace_spec(s: Seq<char>, pat: Seq<char>, rep: Seq<char>) -> Seq<char>
    decreases s.len(),
{
    if pat.len() == 0 || s.len() < pat.len() {
        s
    } else if s.subrange(0, pat.len() as int) == pat {
        rep + replace_spec(s.skip(pat.len() as int), pat, rep)
    } else {
        seq![s[0]] + replace_spec(s.drop_first(), pat, rep)
    }
}

/// Executable substring replacement.
pub fn replace_all(v: &Vec<char>, pat: &Vec<char>, rep: &Vec<char>) -> (r: Vec<char>)
    ensures
        r@ == replace_spec(v@, pat@, rep@),
{
    if pat.len() == 0 {
        let whole = sub_chars(v, 0, v.len());
        proof {
            assert(whole@ =~= v@);
        }
        return whole;
    }
    let n = v.len();
    let mut out: Vec<char> = Vec::new();
    let mut i: usize = 0;
    proof {
        assert(v@.skip(0) =~= v@);
    }
    while i < n && n - i >= pat.len()
        invariant
            i <= n,
            n == v@.len(),
            pat@.len() >= 1,
            replace_spec(v@, pat@, rep@) == out@ + replace_spec(v@.skip(i as int), pat@, rep@),
        decreases n - i,
    {
        if check_match_at(v, pat, i) {
            push_all(&mut out, rep);
            proof {
                let su = v@.skip(i as int);
                assert(su.subrange(0, pat@.len() as int) =~= v@.subrange(
                    i as int,
                    i + pat@.len(),
                ));
                assert(su.skip(pat@.len() as int) =~= v@.skip(i + pat@.len()));
            }
            i = i + pat.len();
        } else {
            out.push(v[i]);
            proof {
                let su = v@.skip(i as int);
                assert(su.subrange(0, pat@.len() as int) =~= v@.subrange(
                    i as int,
                    i + pat@.len(),
                ));
                assert(seq![su[0]] =~= v@.subrange(i as int, i + 1));
                assert(su.drop_first() =~= v@.skip(i + 1));
                assert(out@ =~= (out@.subrange(0, out@.len() - 1) + seq![su[0]]));
            }
            i = i + 1;
        }
    }
    let tail = sub_chars(v, i, n);
    push_all(&mut out, &tail);
    proof {
        assert(v@.skip(i as int) =~= tail@);
        assert(replace_spec(v@.skip(i as int), pat@, rep@) == tail@);
        assert(out@ =~= replace_spec(v@, pat@, rep@));
    }
    out
}

/// Copies a vector of strings; `String::clone` yields the very value it
/// copies.
pub fn copy_strings(v: &Vec<String>) -> (r: Vec<String>)
    ensures
        r.deep_view() == v.deep_view(),
{
    let mut r: Vec<String> = Vec::new();
    let mut i: usize = 0;
    while i < v.len()
        invariant
            i <= v@.len(),
            r@.len() == i,
            forall|j: int| 0 <= j < i ==> r@[j] == v@[j],
        decreases v@.len() - i,
    {
        r.push(v[i].clone());
        i = i + 1;
    }
    proof {
        assert forall|j: int| 0 <= j < v@.len() implies r.deep_view()[j] == v.deep_view()[j] by {
            assert(r@[j] == v@[j]);
        }
        assert(r.deep_view() =~= v.deep_view());
    }
    r
}

// ----------------------------------------------------------------------
// Decimal rendering of line numbers.

/// The decimal digit character for `d`.
pub open spec fn digit_of(d: int) -> char {
    if d == 0 {
        '0'
    } else if d == 1 {
        '1'
    } else if d == 2 {
        '2'
    } else if d == 3 {
        '3'
    } else if d == 4 {
        '4'
    } else if d == 5 {
        '5'
    } else if d == 6 {
        '6'
    } else if d == 7 {
        '7'
    } else if d == 8 {
        '8'
    } else {
        '9'
    }
}

/// The decimal rendering of `n`, most significant digit first.
pub open spec fn dec_str(n: int) -> Seq<char>
    decreases n,
{
    if n < 10 {
        seq![digit_of(n)]
    } else {
        dec_str(n / 10) + seq![digit_of(n % 10)]
    }
}

/// Renders `n` in decimal.
pub fn usize_dec(n: usize) -> (r: Vec<char>)
    ensures
        r@ == dec_str(n as int),
    decreases n,
{
    let d = n % 10;
    let c = if d == 0 {
        '0'
    } else if d == 1 {
        '1'
    } else if d == 2 {
        '2'
    } else if d == 3 {
        '3'
    } else if d == 4 {
        '4'
    } else if d == 5 {
        '5'
    } else if d == 6 {
        '6'
    } else if d == 7 {
        '7'
    } else if d == 8 {
        '8'
    } else {
        '9'
    };
    if n < 10 {
        let mut out: Vec<char> = Vec::new();
        out.push(c);
        proof {
            assert(out@ =~= dec_str(n as int));
        }
        out
    } else {
        let mut out = usize_dec(n / 10);
        out.push(c);
        proof {
            assert(out@ =~= dec_str(n as int));
        }
        out
    }
}

} // verus!
