use vstd::prelude::*;
use vstd::string::StrSliceExecFns;

verus! {

// ---------------------------------------------------------------------------
// Port selection
//
// The listening port comes from a single numeric environment value; when it
// is absent or unparsable the fixed default applies.
// ---------------------------------------------------------------------------

/// The port used when no usable value is supplied.
pub const DEFAULT_PORT: u16 = 8080;

pub open spec fn is_digit(c: char) -> bool {
    '0' <= c && c <= '9'
}

pub open spec fn all_digits(s: Seq<char>) -> bool {
    forall|i: int| 0 <= i < s.len() ==> is_digit(#[trigger] s[i])
}

/// The number a digit string denotes.
pub open spec fn digits_val(s: Seq<char>) -> int
    decreases s.len(),
{
    if s.len() == 0 {
        0
    } else {
        digits_val(s.drop_last()) * 10 + (s.last() as int - '0' as int)
    }
}

/// The port a string denotes, as the standard unsigned parse reads it: an
/// optional leading plus sign, then one or more digits, the value fitting
/// in sixteen bits; anything else denotes nothing.
pub open spec fn parse_port(s: Seq<char>) -> Option<u16> {
    let d = if s.len() > 0 && s[0] == '+' {
        s.drop_first()
    } else {
        s
    };
    if d.len() > 0 && all_digits(d) && digits_val(d) <= 65535 {
        Some(digits_val(d) as u16)
    } else {
        None
    }
}

/// The port the configuration denotes: the parsed value, or the default
/// when the value is absent or unparsable.
pub open spec fn port_of(v: Option<Seq<char>>) -> u16 {
    match v {
        None => DEFAULT_PORT,
        Some(s) => match parse_port(s) {
            Some(p) => p,
            None => DEFAULT_PORT,
        },
    }
}

proof fn lemma_digits_val_bounds(s: Seq<char>)
    requires
        all_digits(s),
    ensures
        digits_val(s) >= 0,
    decreases s.len(),
{
    if s.len() > 0 {
        assert(all_digits(s.drop_last())) by {
            assert(forall|i: int| 0 <= i < s.len() - 1 ==> is_digit(#[trigger] s[i]));
        }
        lemma_digits_val_bounds(s.drop_last());
        assert(is_digit(s.last()));
    }
}

proof fn lemma_digits_val_monotone(s: Seq<char>, k: int)
    requires
        all_digits(s),
        0 <= k <= s.len(),
    ensures
        digits_val(s) >= digits_val(s.take(k)),
    decreases s.len() - k,
{
    if k < s.len() {
        lemma_digits_val_monotone(s, k + 1);
        assert(s.take(k + 1).drop_last() =~= s.take(k));
        assert(s.take(k + 1).last() == s[k]);
        assert(is_digit(s[k]));
        assert(forall|i: int| 0 <= i < k ==> s.take(k)[i] == s[i]);
        assert(all_digits(s.take(k)));
        lemma_digits_val_bounds(s.take(k));
        assert(digits_val(s.take(k + 1)) == digits_val(s.take(k)) * 10 + (s[k] as int
            - '0' as int));
    } else {
        assert(s.take(k) =~= s);
    }
}

/// The listening port a configured value selects.
pub fn port_from(v: Option<&str>) -> (p: u16)
    ensures
        match v {
            None => p == DEFAULT_PORT,
            Some(s) => p == port_of(Some(s@)),
        },
{
    let s = match v {
        None => {
            return DEFAULT_PORT;
        },
        Some(s) => s,
    };
    let n = s.unicode_len();
    let start: usize = if n > 0 && s.get_char(0) == '+' {
        1
    } else {
        0
    };
    let ghost d = if s@.len() > 0 && s@[0] == '+' {
        s@.drop_first()
    } else {
        s@
    };
    proof {
        if start == 1 {
            assert(d =~= s@.skip(1));
        } else {
            assert(d =~= s@);
        }
    }
    if start >= n {
        return DEFAULT_PORT;
    }
    let mut acc: u32 = 0;
    let mut i: usize = start;
    proof {
        assert(d.take(0) =~= Seq::<char>::empty());
    }
    while i < n
        invariant
            v == Some(s),
            n == s@.len(),
            start <= i <= n,
            start <= 1,
            d == (if s@.len() > 0 && s@[0] == '+' {
                s@.drop_first()
            } else {
                s@
            }),
            d.len() == n - start,
            forall|j: int| 0 <= j < d.len() ==> d[j] == s@[j + start],
            forall|j: int| 0 <= j < i - start ==> is_digit(#[trigger] d[j]),
            acc <= 65535,
            acc as int == digits_val(d.take(i - start)),
        decreases n - i,
    {
        let c = s.get_char(i);
        if c < '0' || c > '9' {
            proof {
                assert(!is_digit(d[i - start]));
                assert(!all_digits(d));
            }
            return DEFAULT_PORT;
        }
        let dv: u32 = (c as u32) - ('0' as u32);
        proof {
            assert(d.take(i + 1 - start).drop_last() =~= d.take(i - start));
            assert(d.take(i + 1 - start).last() == d[i - start]);
            assert(dv as int == c as int - '0' as int);
        }
        if acc > 6553 || (acc == 6553 && dv > 5) {
            proof {
                assert(forall|j: int| 0 <= j < i + 1 - start ==> is_digit(#[trigger] d[j]));
                assert(digits_val(d.take(i + 1 - start)) > 65535);
                if all_digits(d) {
                    lemma_digits_val_monotone(d, i + 1 - start);
                    assert(digits_val(d) > 65535);
                }
            }
            return DEFAULT_PORT;
        }
        acc = acc * 10 + dv;
        i += 1;
    }
    proof {
        assert(d.take(n - start) =~= d);
        assert(all_digits(d));
        assert(parse_port(s@) == Some(acc as u16));
    }
    acc as u16
}

} // verus!
