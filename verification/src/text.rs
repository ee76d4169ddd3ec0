use vstd::prelude::*;
use vstd::string::StrSliceExecFns;

verus! {

// ---------------------------------------------------------------------------
// Substring occurrence
// ---------------------------------------------------------------------------

/// `pat` occurs in `s` starting at index `i`.
pub open spec fn occurs_at(s: Seq<char>, pat: Seq<char>, i: int) -> bool {
    0 <= i && i + pat.len() <= s.len() && s.subrange(i, i + pat.len()) =~= pat
}

/// Index of the first occurrence of `pat` inside `s`, if any.
pub open spec fn first_occ(s: Seq<char>, pat: Seq<char>) -> Option<int>
    decreases s.len(),
{
    if s.len() < pat.len() {
        None
    } else if s.subrange(0, pat.len() as int) =~= pat {
        Some(0)
    } else if s.len() == 0 {
        None
    } else {
        match first_occ(s.drop_first(), pat) {
            Some(i) => Some(i + 1),
            None => None,
        }
    }
}

/// `first_occ` returns exactly the least index at which `pat` occurs.
pub proof fn lemma_first_occ_characterization(s: Seq<char>, pat: Seq<char>)
    ensures
        match first_occ(s, pat) {
            Some(i) => occurs_at(s, pat, i) && (forall|j: int|
                0 <= j < i ==> !occurs_at(s, pat, j)),
            None => forall|j: int| !occurs_at(s, pat, j),
        },
    decreases s.len(),
{
    if s.len() < pat.len() {
        assert forall|j: int| !occurs_at(s, pat, j) by {}
    } else if s.subrange(0, pat.len() as int) =~= pat {
        assert(occurs_at(s, pat, 0));
    } else if s.len() == 0 {
        assert(s.subrange(0, pat.len() as int) =~= pat);
    } else {
        lemma_first_occ_characterization(s.drop_first(), pat);
        assert forall|j: int| 1 <= j implies occurs_at(s, pat, j) == occurs_at(
            s.drop_first(),
            pat,
            j - 1,
        ) by {
            if 0 <= j - 1 && j - 1 + pat.len() <= s.drop_first().len() {
                assert(s.drop_first().subrange(j - 1, j - 1 + pat.len()) =~= s.subrange(
                    j,
                    j + pat.len(),
                ));
            }
        }
        assert(!occurs_at(s, pat, 0));
    }
}

/// Compare `pat` against `s` at position `i`.
fn match_at(s: &str, pat: &str, i: usize) -> (r: bool)
    requires
        i + pat@.len() <= s@.len(),
        s@.len() <= usize::MAX,
    ensures
        r == occurs_at(s@, pat@, i as int),
{
    let m = pat.unicode_len();
    let mut j: usize = 0;
    while j < m
        invariant
            m == pat@.len(),
            i + m <= s@.len(),
            s@.len() <= usize::MAX,
            0 <= j <= m,
            forall|k: int| 0 <= k < j ==> s@[i + k] == pat@[k],
        decreases m - j,
    {
        if s.get_char(i + j) != pat.get_char(j) {
            assert(!occurs_at(s@, pat@, i as int)) by {
                assert(s@.subrange(i as int, i + pat@.len())[j as int] == s@[i + j]);
            }
            return false;
        }
        j += 1;
    }
    assert(s@.subrange(i as int, i + pat@.len()) =~= pat@);
    true
}

/// First index at which `pat` occurs inside `s`, scanning left to right.
pub fn find_sub(s: &str, pat: &str) -> (r: Option<usize>)
    ensures
        match r {
            Some(i) => first_occ(s@, pat@) == Some(i as int),
            None => first_occ(s@, pat@) is None,
        },
{
    proof {
        lemma_first_occ_characterization(s@, pat@);
    }
    let n = s.unicode_len();
    let m = pat.unicode_len();
    if m > n {
        return None;
    }
    let mut i: usize = 0;
    while i <= n - m
        invariant
            n == s@.len(),
            m == pat@.len(),
            m <= n,
            0 <= i <= n - m + 1,
            forall|j: int| 0 <= j < i ==> !occurs_at(s@, pat@, j),
            match first_occ(s@, pat@) {
                Some(k) => occurs_at(s@, pat@, k) && (forall|j: int|
                    0 <= j < k ==> !occurs_at(s@, pat@, j)),
                None => forall|j: int| !occurs_at(s@, pat@, j),
            },
        decreases n + 1 - m - i,
    {
        if match_at(s, pat, i) {
            assert(first_occ(s@, pat@) == Some(i as int)) by {
                if first_occ(s@, pat@) is None {
                    assert(false);
                } else {
                    let k = first_occ(s@, pat@)->Some_0;
                    if k < i {
                        assert(!occurs_at(s@, pat@, k));
                    } else if k > i {
                        assert(!occurs_at(s@, pat@, i as int));
                    }
                }
            }
            return Some(i);
        }
        i += 1;
    }
    assert forall|j: int| !occurs_at(s@, pat@, j) by {
        if 0 <= j && j + pat@.len() <= s@.len() {
            assert(j < i);
        }
    }
    None
}

/// Does `s` begin with `p`?
pub fn has_prefix(s: &str, p: &str) -> (r: bool)
    ensures
        r == p@.is_prefix_of(s@),
{
    let n = s.unicode_len();
    let m = p.unicode_len();
    if m > n {
        return false;
    }
    let r = match_at(s, p, 0);
    assert(occurs_at(s@, p@, 0) == p@.is_prefix_of(s@)) by {
        assert(s@.subrange(0, p@.len() as int) == s@.take(p@.len() as int));
    }
    r
}

/// Does `s` contain the character `c`?
pub fn contains_char(s: &str, c: char) -> (r: bool)
    ensures
        r == s@.contains(c),
{
    let n = s.unicode_len();
    let mut i: usize = 0;
    while i < n
        invariant
            n == s@.len(),
            0 <= i <= n,
            forall|j: int| 0 <= j < i ==> s@[j] != c,
        decreases n - i,
    {
        if s.get_char(i) == c {
            return true;
        }
        i += 1;
    }
    false
}

/// Do two string slices hold the same characters?
pub fn str_eq(a: &str, b: &str) -> (r: bool)
    ensures
        r == (a@ == b@),
{
    let n = a.unicode_len();
    if n != b.unicode_len() {
        return false;
    }
    let mut i: usize = 0;
    while i < n
        invariant
            n == a@.len() == b@.len(),
            0 <= i <= n,
            forall|j: int| 0 <= j < i ==> a@[j] == b@[j],
        decreases n - i,
    {
        if a.get_char(i) != b.get_char(i) {
            return false;
        }
        i += 1;
    }
    assert(a@ =~= b@);
    true
}

// ---------------------------------------------------------------------------
// Lexicographic order on character sequences (the order of `str`'s `Ord`,
// since UTF-8 byte order agrees with code-point order)
// ---------------------------------------------------------------------------

pub open spec fn lex_lt(a: Seq<char>, b: Seq<char>) -> bool
    decreases a.len(),
{
    if b.len() == 0 {
        false
    } else if a.len() == 0 {
        true
    } else if a[0] == b[0] {
        lex_lt(a.drop_first(), b.drop_first())
    } else {
        a[0] < b[0]
    }
}

/// Two sequences that neither precedes are equal.
pub proof fn lemma_lex_connected(a: Seq<char>, b: Seq<char>)
    requires
        !lex_lt(a, b),
        !lex_lt(b, a),
    ensures
        a == b,
    decreases a.len(),
{
    if b.len() == 0 {
        assert(a =~= b);
    } else if a.len() == 0 {
        assert(false);
    } else if a[0] == b[0] {
        lemma_lex_connected(a.drop_first(), b.drop_first());
        assert forall|i: int| 0 <= i < a.len() implies a[i] == b[i] by {
            if i > 0 {
                assert(a.drop_first()[i - 1] == b.drop_first()[i - 1]);
            }
        }
        assert(a =~= b);
    } else {
        assert(!(a[0] < b[0]) && !(b[0] < a[0]));
    }
}

/// Strict lexicographic order is irreflexive.
pub proof fn lemma_lex_irrefl(a: Seq<char>)
    ensures
        !lex_lt(a, a),
    decreases a.len(),
{
    if a.len() > 0 {
        lemma_lex_irrefl(a.drop_first());
    }
}

/// Strict lexicographic order is transitive.
pub proof fn lemma_lex_trans(a: Seq<char>, b: Seq<char>, c: Seq<char>)
    requires
        lex_lt(a, b),
        lex_lt(b, c),
    ensures
        lex_lt(a, c),
    decreases a.len(),
{
    if c.len() == 0 {
        assert(false);
    } else if b.len() == 0 {
        assert(false);
    } else if a.len() == 0 {
    } else {
        if a[0] == b[0] && b[0] == c[0] {
            lemma_lex_trans(a.drop_first(), b.drop_first(), c.drop_first());
        }
    }
}

/// If two sequences agree on their first `i` characters, their order is
/// decided by the remainders.
proof fn lemma_lex_skip(a: Seq<char>, b: Seq<char>, i: int)
    requires
        0 <= i <= a.len(),
        i <= b.len(),
        a.take(i) == b.take(i),
    ensures
        lex_lt(a, b) == lex_lt(a.skip(i), b.skip(i)),
    decreases i,
{
    if i == 0 {
        assert(a.skip(0) =~= a);
        assert(b.skip(0) =~= b);
    } else {
        assert(a[0] == b[0]) by {
            assert(a.take(i)[0] == a[0]);
            assert(b.take(i)[0] == b[0]);
        }
        if b.len() > 0 && a.len() > 0 {
            assert(a.drop_first().take(i - 1) =~= a.take(i).drop_first());
            assert(b.drop_first().take(i - 1) =~= b.take(i).drop_first());
            lemma_lex_skip(a.drop_first(), b.drop_first(), i - 1);
            assert(a.drop_first().skip(i - 1) =~= a.skip(i));
            assert(b.drop_first().skip(i - 1) =~= b.skip(i));
        }
    }
}

/// Is `a` strictly before `b` in lexicographic (code point) order?
pub fn str_lt(a: &str, b: &str) -> (r: bool)
    ensures
        r == lex_lt(a@, b@),
{
    let n = a.unicode_len();
    let m = b.unicode_len();
    let stop = if n < m {
        n
    } else {
        m
    };
    let mut i: usize = 0;
    while i < stop
        invariant
            n == a@.len(),
            m == b@.len(),
            stop == if n < m { n } else { m },
            0 <= i <= stop,
            forall|j: int| 0 <= j < i ==> a@[j] == b@[j],
        decreases stop - i,
    {
        let ca = a.get_char(i);
        let cb = b.get_char(i);
        if ca != cb {
            proof {
                assert(a@.take(i as int) =~= b@.take(i as int));
                lemma_lex_skip(a@, b@, i as int);
                assert(a@.skip(i as int)[0] == a@[i as int]);
                assert(b@.skip(i as int)[0] == b@[i as int]);
            }
            return ca < cb;
        }
        i += 1;
    }
    proof {
        assert(a@.take(stop as int) =~= b@.take(stop as int));
        lemma_lex_skip(a@, b@, stop as int);
    }
    n < m
}

// ---------------------------------------------------------------------------
// Trusted character helpers
// ---------------------------------------------------------------------------

/// Relies on `String::push`: appends one character at the end.
#[verifier::external_body]
pub(crate) fn push_char(s: &mut String, c: char)
    ensures
        final(s)@ == old(s)@ + seq![c],
{
    s.push(c)
}

/// The uppercase mapping of one character, as `char::to_uppercase` yields it;
/// it depends on the character alone.
pub uninterp spec fn upper_of(c: char) -> Seq<char>;

/// Relies on `char::to_uppercase`: yields the Unicode uppercase mapping of
/// the character, which for an ASCII lowercase letter is the single
/// corresponding ASCII uppercase letter, and for a character without an
/// uppercase mapping is the character itself.
#[verifier::external_body]
pub(crate) fn char_upper(c: char) -> (r: String)
    ensures
        r@ == upper_of(c),
        r@.len() >= 1,
        'a' <= c <= 'z' ==> r@ =~= seq![((c as u32) - 32) as char],
        c < 'a' && !('A' <= c <= 'Z') && c < '\u{80}' ==> r@ =~= seq![c],
{
    c.to_uppercase().collect()
}

/// Whether one character has the Unicode `White_Space` property, as
/// `char::is_whitespace` decides it; it depends on the character alone.
pub uninterp spec fn is_unicode_ws(c: char) -> bool;

/// Relies on `char::is_whitespace`: true exactly for characters with the
/// Unicode `White_Space` property; among the ASCII characters these are
/// space, tab, line feed, form feed and carriage return.
#[verifier::external_body]
pub(crate) fn char_is_ws(c: char) -> (r: bool)
    ensures
        r == is_unicode_ws(c),
        c == ' ' || c == '\t' || c == '\n' || c == '\r' ==> r,
        '!' <= c <= '~' ==> !r,
        '0' <= c <= '9' || 'a' <= c <= 'z' || 'A' <= c <= 'Z' ==> !r,
    {
    c.is_whitespace()
}

} // verus!
