use vstd::prelude::*;
use vstd::string::StrSliceExecFns;
use crate::text::has_prefix;
use crate::text::push_char;

verus! {

// ---------------------------------------------------------------------------
// Virtual paths
//
// Every entry of the content root is addressed by a canonical virtual path:
// the reserved root path `/works`, or `/works/` followed by the entry's
// slash-separated relative path.
// ---------------------------------------------------------------------------

/// The reserved virtual path of the content root.
pub open spec fn root_vpath() -> Seq<char> {
    "/works"@
}

pub open spec fn trim_end_slashes(s: Seq<char>) -> Seq<char>
    decreases s.len(),
{
    if s.len() > 0 && s.last() == '/' {
        trim_end_slashes(s.drop_last())
    } else {
        s
    }
}

pub open spec fn trim_start_slashes(s: Seq<char>) -> Seq<char>
    decreases s.len(),
{
    if s.len() > 0 && s[0] == '/' {
        trim_start_slashes(s.drop_first())
    } else {
        s
    }
}

/// Index of the last `/` in `s`, if any.
pub open spec fn last_slash_idx(s: Seq<char>) -> Option<int>
    decreases s.len(),
{
    if s.len() == 0 {
        None
    } else if s.last() == '/' {
        Some(s.len() - 1)
    } else {
        last_slash_idx(s.drop_last())
    }
}

/// The derived parent virtual path: everything before the last
/// slash-delimited segment, or nothing when the path has no segment above it.
pub open spec fn parent_of(p: Seq<char>) -> Option<Seq<char>> {
    let t = trim_end_slashes(p);
    match last_slash_idx(t) {
        None => None,
        Some(i) => if i == 0 {
            None
        } else {
            Some(t.subrange(0, i))
        },
    }
}

proof fn lemma_trim_end_is_prefix(s: Seq<char>)
    ensures
        trim_end_slashes(s).len() <= s.len(),
        trim_end_slashes(s) == s.take(trim_end_slashes(s).len() as int),
    decreases s.len(),
{
    if s.len() > 0 && s.last() == '/' {
        lemma_trim_end_is_prefix(s.drop_last());
        assert(s.drop_last().take(trim_end_slashes(s).len() as int) =~= s.take(
            trim_end_slashes(s).len() as int,
        ));
    } else {
        assert(s.take(s.len() as int) =~= s);
    }
}

proof fn lemma_last_slash_props(s: Seq<char>)
    ensures
        match last_slash_idx(s) {
            Some(i) => 0 <= i < s.len() && s[i] == '/',
            None => true,
        },
    decreases s.len(),
{
    if s.len() > 0 && s.last() != '/' {
        lemma_last_slash_props(s.drop_last());
    }
}

/// A derived parent path is a strict prefix of the path itself.
pub proof fn lemma_parent_is_strict_prefix(p: Seq<char>)
    requires
        parent_of(p) is Some,
    ensures
        parent_of(p)->Some_0.len() < p.len(),
        parent_of(p)->Some_0 == p.take(parent_of(p)->Some_0.len() as int),
{
    let t = trim_end_slashes(p);
    lemma_trim_end_is_prefix(p);
    lemma_last_slash_props(t);
    let i = last_slash_idx(t)->Some_0;
    assert(t.subrange(0, i) =~= p.take(i));
}

/// The parent of one slash-delimited segment appended below a base path is
/// that base path, provided the base is nonempty, ends in no slash, and the
/// segment is nonempty and slash-free.
pub proof fn lemma_parent_of_extension(base: Seq<char>, seg: Seq<char>)
    requires
        base.len() > 0,
        base.last() != '/',
        seg.len() > 0,
        forall|i: int| 0 <= i < seg.len() ==> seg[i] != '/',
    ensures
        parent_of(base + seq!['/'] + seg) == Some(base),
    decreases seg.len(),
{
    let p = base + seq!['/'] + seg;
    if seg.len() == 1 {
        assert(p.last() == seg[0]);
        assert(trim_end_slashes(p) == p);
        assert(p.drop_last() =~= base + seq!['/']);
        assert(last_slash_idx(p) == Some(base.len() as int)) by {
            assert((base + seq!['/']).last() == '/');
        }
        assert(p.subrange(0, base.len() as int) =~= base);
    } else {
        lemma_parent_of_extension(base, seg.drop_last());
        assert(p.last() == seg.last());
        assert(p.drop_last() =~= base + seq!['/'] + seg.drop_last());
        assert(trim_end_slashes(p) == p);
        let q = base + seq!['/'] + seg.drop_last();
        assert(trim_end_slashes(q) == q) by {
            assert(q.last() == seg.drop_last().last());
            assert(seg[seg.len() - 2] != '/');
        }
        lemma_last_slash_props(q);
        assert(last_slash_idx(p) == last_slash_idx(q));
        assert(p.subrange(0, base.len() as int) =~= q.subrange(0, base.len() as int));
    }
}

/// Compute the derived parent virtual path of `path`, or nothing when `path`
/// has no segment above the root.
pub fn parent_path(path: &str) -> (r: Option<String>)
    ensures
        match r {
            Some(p) => parent_of(path@) == Some(p@),
            None => parent_of(path@) is None,
        },
{
    let n = path.unicode_len();
    proof {
        assert(path@.take(n as int) =~= path@);
    }
    let mut e: usize = n;
    while e > 0 && path.get_char(e - 1) == '/'
        invariant
            n == path@.len(),
            0 <= e <= n,
            trim_end_slashes(path@) == trim_end_slashes(path@.take(e as int)),
        decreases e,
    {
        proof {
            assert(path@.take(e as int).last() == '/');
            assert(path@.take(e as int).drop_last() =~= path@.take(e - 1));
        }
        e -= 1;
    }
    proof {
        if e > 0 {
            assert(path@.take(e as int).last() == path@[e - 1]);
        }
        assert(trim_end_slashes(path@) == path@.take(e as int));
    }
    let mut i: usize = e;
    while i > 0 && path.get_char(i - 1) != '/'
        invariant
            n == path@.len(),
            0 <= i <= e <= n,
            trim_end_slashes(path@) == path@.take(e as int),
            last_slash_idx(path@.take(e as int)) == last_slash_idx(path@.take(i as int)),
        decreases i,
    {
        proof {
            assert(path@.take(i as int).last() == path@[i - 1]);
            assert(path@.take(i as int).drop_last() =~= path@.take(i - 1));
        }
        i -= 1;
    }
    if i == 0 {
        assert(last_slash_idx(path@.take(0int)) is None);
        return None;
    }
    proof {
        assert(path@.take(i as int).last() == path@[i - 1]);
        assert(last_slash_idx(path@.take(e as int)) == Some(i - 1));
    }
    if i == 1 {
        return None;
    }
    let sub = path.substring_char(0, i - 1);
    let r = sub.to_owned();
    proof {
        assert(path@.take(e as int).subrange(0, i - 1) =~= path@.subrange(0, i - 1));
    }
    Some(r)
}

// ---------------------------------------------------------------------------
// Path normalization
// ---------------------------------------------------------------------------

/// Path separators are mapped to the forward slash.
pub open spec fn sep_to_slash(c: char) -> char {
    if c == '\\' {
        '/'
    } else {
        c
    }
}

/// The canonical relative form: separators normalized, then slashes trimmed
/// from both ends.
pub open spec fn norm_rel(rel: Seq<char>) -> Seq<char> {
    trim_start_slashes(trim_end_slashes(rel.map_values(|c: char| sep_to_slash(c))))
}

/// The canonical virtual path of a filesystem path `full` that lies at or
/// below the content root `root`; nothing when `full` does not extend `root`.
pub open spec fn norm_of(root: Seq<char>, full: Seq<char>) -> Option<Seq<char>> {
    if root.is_prefix_of(full) {
        let r = norm_rel(full.skip(root.len() as int));
        if r.len() == 0 {
            Some(root_vpath())
        } else {
            Some(root_vpath() + seq!['/'] + r)
        }
    } else {
        None
    }
}

proof fn lemma_trim_end_take(s: Seq<char>, k: int)
    requires
        0 <= k <= s.len(),
        forall|j: int| k <= j < s.len() ==> s[j] == '/',
        k == 0 || s[k - 1] != '/',
    ensures
        trim_end_slashes(s) == s.take(k),
    decreases s.len(),
{
    if s.len() > k {
        assert(s.last() == '/');
        lemma_trim_end_take(s.drop_last(), k);
        assert(s.drop_last().take(k) =~= s.take(k));
    } else {
        if s.len() > 0 && s.last() == '/' {
            assert(false);
        }
        assert(s.take(k) =~= s);
    }
}

proof fn lemma_trim_start_skip(s: Seq<char>, k: int)
    requires
        0 <= k <= s.len(),
        forall|j: int| 0 <= j < k ==> s[j] == '/',
        k == s.len() || s[k] != '/',
    ensures
        trim_start_slashes(s) == s.skip(k),
    decreases k,
{
    if k > 0 {
        assert(s[0] == '/');
        lemma_trim_start_skip(s.drop_first(), k - 1);
        assert(s.drop_first().skip(k - 1) =~= s.skip(k));
    } else {
        assert(s.skip(0) =~= s);
    }
}

/// Compute the canonical virtual path for a filesystem path `full` lying at
/// or below the content root `root`; nothing when `full` does not extend
/// `root`.
pub fn normalize_path(root: &str, full: &str) -> (r: Option<String>)
    ensures
        match r {
            Some(v) => norm_of(root@, full@) == Some(v@),
            None => norm_of(root@, full@) is None,
        },
{
    if !has_prefix(full, root) {
        return None;
    }
    let n = full.unicode_len();
    let rl = root.unicode_len();
    let ghost m = full@.skip(rl as int).map_values(|c: char| sep_to_slash(c));
    let mut b: usize = n;
    while b > rl && (full.get_char(b - 1) == '/' || full.get_char(b - 1) == '\\')
        invariant
            n == full@.len(),
            rl == root@.len(),
            rl <= b <= n,
            m == full@.skip(rl as int).map_values(|c: char| sep_to_slash(c)),
            forall|j: int| b - rl <= j < m.len() ==> m[j] == '/',
        decreases b,
    {
        assert(m[b - 1 - rl] == sep_to_slash(full@[b - 1]));
        b -= 1;
    }
    let mut a: usize = rl;
    while a < b && (full.get_char(a) == '/' || full.get_char(a) == '\\')
        invariant
            n == full@.len(),
            rl == root@.len(),
            rl <= a <= b <= n,
            m == full@.skip(rl as int).map_values(|c: char| sep_to_slash(c)),
            forall|j: int| 0 <= j < a - rl ==> m[j] == '/',
        decreases b - a,
    {
        assert(m[a - rl] == sep_to_slash(full@[a as int]));
        a += 1;
    }
    proof {
        if b > rl {
            assert(m[b - 1 - rl] == sep_to_slash(full@[b - 1]));
        }
        lemma_trim_end_take(m, b - rl);
        assert(m.take(b - rl).take(b - rl) =~= m.take(b - rl));
        if a < b {
            assert(m[a - rl] == sep_to_slash(full@[a as int]));
        }
        lemma_trim_start_skip(m.take(b - rl), a - rl);
        assert(norm_rel(full@.skip(rl as int)) == m.take(b - rl).skip(a - rl));
        assert(m.take(b - rl).skip(a - rl) =~= m.subrange(a - rl, b - rl));
    }
    if a >= b {
        let r: String = "/works".to_owned();
        return Some(r);
    }
    let mut out: String = "/works/".to_owned();
    proof {
        reveal_strlit("/works");
        reveal_strlit("/works/");
        assert("/works/"@ =~= root_vpath() + seq!['/']);
    }
    let mut i: usize = a;
    while i < b
        invariant
            n == full@.len(),
            rl == root@.len(),
            rl <= a <= i <= b <= n,
            m == full@.skip(rl as int).map_values(|c: char| sep_to_slash(c)),
            out@ == root_vpath() + seq!['/'] + m.subrange(a - rl, i - rl),
        decreases b - i,
    {
        let c = full.get_char(i);
        let mc = if c == '\\' {
            '/'
        } else {
            c
        };
        assert(m[i - rl] == sep_to_slash(full@[i as int]));
        push_char(&mut out, mc);
        proof {
            assert(m.subrange(a - rl, i + 1 - rl) =~= m.subrange(a - rl, i - rl) + seq![m[i - rl]]);
        }
        i += 1;
    }
    Some(out)
}

// ---------------------------------------------------------------------------
// Document names
// ---------------------------------------------------------------------------

/// Index of the last `.` in `s`, if any.
pub open spec fn last_dot_idx(s: Seq<char>) -> Option<int>
    decreases s.len(),
{
    if s.len() == 0 {
        None
    } else if s.last() == '.' {
        Some(s.len() - 1)
    } else {
        last_dot_idx(s.drop_last())
    }
}

/// A display name denotes a markdown document when its extension — what
/// follows the last dot, that dot standing after a nonempty stem — is `md`,
/// compared without regard to ASCII case.
pub open spec fn is_doc_name(s: Seq<char>) -> bool {
    match last_dot_idx(s) {
        None => false,
        Some(i) => i >= 1 && s.len() == i + 3 && (s[i + 1] == 'm' || s[i + 1] == 'M') && (s[i
            + 2] == 'd' || s[i + 2] == 'D'),
    }
}

/// Should the body of a file with this display name be read and scanned for
/// a thumbnail? True exactly for markdown document names.
pub fn wants_content(name: &str) -> (r: bool)
    ensures
        r == is_doc_name(name@),
{
    let n = name.unicode_len();
    proof {
        assert(name@.take(n as int) =~= name@);
    }
    let mut i: usize = n;
    while i > 0 && name.get_char(i - 1) != '.'
        invariant
            n == name@.len(),
            0 <= i <= n,
            last_dot_idx(name@) == last_dot_idx(name@.take(i as int)),
        decreases i,
    {
        proof {
            assert(name@.take(i as int).last() == name@[i - 1]);
            assert(name@.take(i as int).drop_last() =~= name@.take(i - 1));
        }
        i -= 1;
    }
    if i == 0 {
        assert(last_dot_idx(name@.take(0int)) is None);
        return false;
    }
    proof {
        assert(name@.take(i as int).last() == name@[i - 1]);
        assert(last_dot_idx(name@) == Some(i - 1));
    }
    if i < 2 || n < 2 || i != n - 2 {
        return false;
    }
    let c1 = name.get_char(i);
    let c2 = name.get_char(i + 1);
    (c1 == 'm' || c1 == 'M') && (c2 == 'd' || c2 == 'D')
}

} // verus!
