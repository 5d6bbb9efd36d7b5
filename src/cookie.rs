//! Lookup of one cookie in a `Cookie` request header.
//!
//! The header is a list of `name=value` pairs separated by `;`. Names and
//! values are compared and returned with surrounding spaces and tabs removed.
//! A pair without `=` is skipped, and when a name occurs more than once the
//! first pair with that name wins.
use crate::bytes::{push_bytes, same_bytes};
use vstd::prelude::*;

verus! {

/// Space or horizontal tab.
pub open spec fn is_space(b: u8) -> bool {
    b == 32u8 || b == 9u8
}

/// The position of the first `c` in `s`, or the length of `s` if none.
pub open spec fn find_byte(s: Seq<u8>, c: u8) -> nat
    decreases s.len(),
{
    if s.len() == 0 {
        0
    } else if s[0] == c {
        0
    } else {
        1 + find_byte(s.drop_first(), c)
    }
}

/// How many spaces `s` starts with.
pub open spec fn leading_spaces(s: Seq<u8>) -> nat
    decreases s.len(),
{
    if s.len() > 0 && is_space(s[0]) {
        1 + leading_spaces(s.drop_first())
    } else {
        0
    }
}

/// How many spaces `s` ends with.
pub open spec fn trailing_spaces(s: Seq<u8>) -> nat
    decreases s.len(),
{
    if s.len() > 0 && is_space(s.last()) {
        1 + trailing_spaces(s.drop_last())
    } else {
        0
    }
}

/// `s` without its leading and trailing spaces.
pub open spec fn trim(s: Seq<u8>) -> Seq<u8> {
    let t = s.subrange(leading_spaces(s) as int, s.len() as int);
    t.subrange(0, t.len() - trailing_spaces(t))
}

/// The value of one pair when its trimmed name is `name`.
pub open spec fn pair_value(pair: Seq<u8>, name: Seq<u8>) -> Option<Seq<u8>> {
    let q = find_byte(pair, 61u8);
    if q < pair.len() && trim(pair.subrange(0, q as int)) == name {
        Some(trim(pair.subrange(q + 1int, pair.len() as int)))
    } else {
        None
    }
}

/// The value of the first pair of `header` named `name`.
pub open spec fn cookie_lookup(header: Seq<u8>, name: Seq<u8>) -> Option<Seq<u8>>
    decreases header.len(),
{
    let e = find_byte(header, 59u8);
    match pair_value(header.subrange(0, e as int), name) {
        Some(v) => Some(v),
        None => {
            if e < header.len() {
                cookie_lookup(header.subrange(e + 1int, header.len() as int), name)
            } else {
                None
            }
        },
    }
}

proof fn lemma_find_byte(s: Seq<u8>, c: u8, i: int)
    requires
        0 <= i <= s.len(),
        forall|k: int| 0 <= k < i ==> #[trigger] s[k] != c,
        i == s.len() || s[i] == c,
    ensures
        find_byte(s, c) == i,
    decreases s.len(),
{
    if s.len() > 0 && i > 0 {
        assert(s[0] != c);
        assert forall|k: int| 0 <= k < i - 1 implies #[trigger] s.drop_first()[k] != c by {
            assert(s[k + 1] != c);
        }
        lemma_find_byte(s.drop_first(), c, i - 1);
    }
}

proof fn lemma_leading_spaces(s: Seq<u8>, i: int)
    requires
        0 <= i <= s.len(),
        forall|k: int| 0 <= k < i ==> is_space(#[trigger] s[k]),
        i == s.len() || !is_space(s[i]),
    ensures
        leading_spaces(s) == i,
    decreases s.len(),
{
    if s.len() > 0 && i > 0 {
        assert(is_space(s[0]));
        assert forall|k: int| 0 <= k < i - 1 implies is_space(#[trigger] s.drop_first()[k]) by {
            assert(is_space(s[k + 1]));
        }
        lemma_leading_spaces(s.drop_first(), i - 1);
    }
}

proof fn lemma_trailing_spaces(s: Seq<u8>, i: int)
    requires
        0 <= i <= s.len(),
        forall|k: int| s.len() - i <= k < s.len() ==> is_space(#[trigger] s[k]),
        i == s.len() || !is_space(s[s.len() - 1 - i]),
    ensures
        trailing_spaces(s) == i,
    decreases s.len(),
{
    if s.len() > 0 && i > 0 {
        assert(is_space(s[s.len() - 1]));
        let t = s.drop_last();
        assert forall|k: int| t.len() - (i - 1) <= k < t.len() implies is_space(#[trigger] t[k]) by {
            assert(is_space(s[k]));
        }
        if i - 1 < t.len() {
            assert(t[t.len() - 1 - (i - 1)] == s[s.len() - 1 - i]);
        }
        lemma_trailing_spaces(t, i - 1);
    }
}

/// The position of the first `c` in `h[from..to]`, or `to` if none.
fn find_in(h: &[u8], from: usize, to: usize, c: u8) -> (r: usize)
    requires
        from <= to <= h@.len(),
    ensures
        from <= r <= to,
        r - from == find_byte(h@.subrange(from as int, to as int), c),
{
    let mut i: usize = from;
    while i < to && h[i] != c
        invariant
            from <= i <= to <= h@.len(),
            forall|k: int| from <= k < i ==> #[trigger] h@[k] != c,
        decreases to - i,
    {
        i = i + 1;
    }
    proof {
        let s = h@.subrange(from as int, to as int);
        assert forall|k: int| 0 <= k < i - from implies #[trigger] s[k] != c by {
            assert(h@[from + k] != c);
        }
        lemma_find_byte(s, c, i - from);
    }
    i
}

/// The bounds of `h[lo..hi]` without its leading and trailing spaces.
fn trim_range(h: &[u8], lo: usize, hi: usize) -> (r: (usize, usize))
    requires
        lo <= hi <= h@.len(),
    ensures
        lo <= r.0 <= r.1 <= hi,
        h@.subrange(r.0 as int, r.1 as int) == trim(h@.subrange(lo as int, hi as int)),
{
    let mut a: usize = lo;
    while a < hi && (h[a] == 32u8 || h[a] == 9u8)
        invariant
            lo <= a <= hi <= h@.len(),
            forall|k: int| lo <= k < a ==> is_space(#[trigger] h@[k]),
        decreases hi - a,
    {
        a = a + 1;
    }
    let mut b: usize = hi;
    while b > a && (h[b - 1] == 32u8 || h[b - 1] == 9u8)
        invariant
            lo <= a <= b <= hi <= h@.len(),
            forall|k: int| b <= k < hi ==> is_space(#[trigger] h@[k]),
        decreases b - a,
    {
        b = b - 1;
    }
    proof {
        let s = h@.subrange(lo as int, hi as int);
        assert forall|k: int| 0 <= k < a - lo implies is_space(#[trigger] s[k]) by {
            assert(is_space(h@[lo + k]));
        }
        lemma_leading_spaces(s, a - lo);
        let t = s.subrange(a - lo, s.len() as int);
        assert(t =~= h@.subrange(a as int, hi as int));
        assert forall|k: int| t.len() - (hi - b) <= k < t.len() implies is_space(#[trigger] t[k]) by {
            assert(is_space(h@[a + k]));
        }
        lemma_trailing_spaces(t, hi - b);
        assert(t.subrange(0, t.len() - (hi - b)) =~= h@.subrange(a as int, b as int));
    }
    (a, b)
}

/// The value of the first cookie in `header` whose name is `name`.
pub fn cookie_value(header: &[u8], name: &[u8]) -> (r: Option<Vec<u8>>)
    ensures
        match r {
            Some(v) => cookie_lookup(header@, name@) == Some(v@),
            None => cookie_lookup(header@, name@) is None,
        },
{
    let n = header.len();
    let mut start: usize = 0;
    assert(header@.subrange(0, n as int) =~= header@);
    loop
        invariant
            start <= n == header@.len(),
            cookie_lookup(header@, name@) == cookie_lookup(
                header@.subrange(start as int, n as int),
                name@,
            ),
        decreases n - start,
    {
        let ghost rest = header@.subrange(start as int, n as int);
        let e = find_in(header, start, n, 59u8);
        let q = find_in(header, start, e, 61u8);
        proof {
            assert(rest.subrange(0, e - start) =~= header@.subrange(start as int, e as int));
            let pair = header@.subrange(start as int, e as int);
            if q < e {
                assert(pair.subrange(0, q - start) =~= header@.subrange(start as int, q as int));
                assert(pair.subrange(q - start + 1, pair.len() as int) =~= header@.subrange(
                    q + 1,
                    e as int,
                ));
            }
        }
        if q < e {
            let (a, b) = trim_range(header, start, q);
            if same_bytes(&header[a..b], name) {
                let (c, d) = trim_range(header, q + 1, e);
                let mut v: Vec<u8> = Vec::new();
                push_bytes(header, c, d, &mut v);
                return Some(v);
            }
        }
        if e == n {
            return None;
        }
        proof {
            assert(rest.subrange(e - start + 1, rest.len() as int) =~= header@.subrange(
                e + 1,
                n as int,
            ));
        }
        start = e + 1;
    }
}

} // verus!
