//! Parsing of `application/x-www-form-urlencoded` request bodies.
//!
//! A body is a sequence of `key=value` segments joined by `&`. Keys and
//! values are percent-decoded: `%XY` (two hex digits) stands for the byte
//! `0x XY` and `+` stands for a space. A `%` that is not followed by two hex
//! digits makes the whole body malformed. Empty segments (as in `a=1&&b=2`)
//! are skipped; a segment without `=` is a key with an empty value.

use vstd::prelude::*;

verus! {

/// `'%'`
pub const PERCENT: u8 = 0x25;

/// `'&'`
pub const AMPERSAND: u8 = 0x26;

/// `'+'`
pub const PLUS: u8 = 0x2b;

/// `'='`
pub const EQUALS: u8 = 0x3d;

/// `' '`
pub const SPACE: u8 = 0x20;

/// Whether `b` is an ASCII hexadecimal digit (`0-9`, `A-F`, `a-f`).
pub open spec fn is_hex_digit(b: u8) -> bool {
    (0x30 <= b && b <= 0x39) || (0x41 <= b && b <= 0x46) || (0x61 <= b && b <= 0x66)
}

/// The numeric value of the hexadecimal digit `b`.
pub open spec fn hex_val(b: u8) -> u8
    recommends
        is_hex_digit(b),
{
    if 0x30 <= b && b <= 0x39 {
        (b - 0x30) as u8
    } else if 0x41 <= b && b <= 0x46 {
        (b - 0x41 + 10) as u8
    } else {
        (b - 0x61 + 10) as u8
    }
}

/// Percent-decoding of `s`: `%XY` becomes the byte `16 * X + Y`, `+` becomes
/// a space, every other byte stands for itself. `None` when a `%` is not
/// followed by two hexadecimal digits.
pub open spec fn spec_decode(s: Seq<u8>) -> Option<Seq<u8>>
    decreases s.len(),
{
    if s.len() == 0 {
        Some(Seq::empty())
    } else if s[0] == PERCENT {
        if s.len() >= 3 && is_hex_digit(s[1]) && is_hex_digit(s[2]) {
            match spec_decode(s.skip(3)) {
                Some(rest) => Some(
                    seq![(hex_val(s[1]) * 16 + hex_val(s[2])) as u8].add(rest),
                ),
                None => None,
            }
        } else {
            None
        }
    } else {
        let decoded = if s[0] == PLUS {
            SPACE
        } else {
            s[0]
        };
        match spec_decode(s.skip(1)) {
            Some(rest) => Some(seq![decoded].add(rest)),
            None => None,
        }
    }
}

/// The index of the first occurrence of `c` in `s`, or `s.len()` when `c`
/// does not occur.
pub open spec fn first_idx(s: Seq<u8>, c: u8) -> int
    decreases s.len(),
{
    if s.len() == 0 {
        0
    } else if s[0] == c {
        0
    } else {
        1 + first_idx(s.skip(1), c)
    }
}

/// `first_idx` lands in `s`, on an occurrence of `c`, and nothing before it
/// is an occurrence.
pub proof fn lemma_first_idx_bounds(s: Seq<u8>, c: u8)
    ensures
        0 <= first_idx(s, c) <= s.len(),
        first_idx(s, c) < s.len() ==> s[first_idx(s, c)] == c,
        forall|m: int| 0 <= m < first_idx(s, c) ==> s[m] != c,
    decreases s.len(),
{
    if s.len() == 0 {
    } else if s[0] == c {
    } else {
        lemma_first_idx_bounds(s.skip(1), c);
        assert forall|m: int| 0 <= m < first_idx(s, c) implies s[m] != c by {
            if m > 0 {
                assert(s.skip(1)[m - 1] == s[m]);
            }
        }
    }
}

/// A position that is preceded by no occurrence of `c` and is either an
/// occurrence or the end is exactly `first_idx`.
pub proof fn lemma_first_idx_is(s: Seq<u8>, c: u8, k: int)
    requires
        0 <= k <= s.len(),
        forall|m: int| 0 <= m < k ==> s[m] != c,
        k < s.len() ==> s[k] == c,
    ensures
        first_idx(s, c) == k,
    decreases s.len(),
{
    if k == 0 {
    } else {
        assert(s[0] != c);
        assert forall|m: int| 0 <= m < k - 1 implies s.skip(1)[m] != c by {
            assert(s.skip(1)[m] == s[m + 1]);
        }
        if k - 1 < s.skip(1).len() {
            assert(s.skip(1)[k - 1] == s[k]);
        }
        lemma_first_idx_is(s.skip(1), c, k - 1);
    }
}

/// One `key=value` segment: the part before the first `=` is the key, the
/// part after it is the value (empty when there is no `=`), both
/// percent-decoded. `None` when either side fails to decode.
pub open spec fn spec_parse_pair(seg: Seq<u8>) -> Option<(Seq<u8>, Seq<u8>)> {
    let k = first_idx(seg, EQUALS);
    if k == seg.len() {
        match spec_decode(seg) {
            Some(key) => Some((key, Seq::empty())),
            None => None,
        }
    } else {
        match (spec_decode(seg.take(k)), spec_decode(seg.skip(k + 1))) {
            (Some(key), Some(val)) => Some((key, val)),
            _ => None,
        }
    }
}

/// The key/value pairs of a form body, in order of appearance: segments are
/// separated by `&`, empty segments are skipped. `None` when any segment is
/// malformed. The empty body has no pairs.
pub open spec fn spec_parse_form(s: Seq<u8>) -> Option<Seq<(Seq<u8>, Seq<u8>)>>
    decreases s.len(),
        via spec_parse_form_decreases
{
    if s.len() == 0 {
        Some(Seq::empty())
    } else {
        let j = first_idx(s, AMPERSAND);
        if j == 0 {
            spec_parse_form(s.skip(1))
        } else {
            let rest = if j == s.len() {
                Some(Seq::<(Seq<u8>, Seq<u8>)>::empty())
            } else {
                spec_parse_form(s.skip(j + 1))
            };
            match (spec_parse_pair(s.take(j)), rest) {
                (Some(p), Some(ps)) => Some(seq![p].add(ps)),
                _ => None,
            }
        }
    }
}

#[via_fn]
proof fn spec_parse_form_decreases(s: Seq<u8>) {
    lemma_first_idx_bounds(s, AMPERSAND);
}

/// The value of the ASCII hexadecimal digit `b`, or `None` when `b` is not
/// one.
fn hex_digit_value(b: u8) -> (r: Option<u8>)
    ensures
        r is Some <==> is_hex_digit(b),
        r matches Some(v) ==> v == hex_val(b),
{
    if 0x30 <= b && b <= 0x39 {
        Some(b - 0x30)
    } else if 0x41 <= b && b <= 0x46 {
        Some(b - 0x41 + 10)
    } else if 0x61 <= b && b <= 0x66 {
        Some(b - 0x61 + 10)
    } else {
        None
    }
}

/// Percent-decodes `s[lo..hi]`; `None` when a `%` escape in it is malformed.
pub fn percent_decode_range(s: &[u8], lo: usize, hi: usize) -> (r: Option<Vec<u8>>)
    requires
        lo <= hi <= s@.len(),
    ensures
        r.deep_view() == spec_decode(s@.subrange(lo as int, hi as int)),
{
    let ghost target = s@.subrange(lo as int, hi as int);
    let mut out: Vec<u8> = Vec::new();
    let mut i: usize = lo;
    while i < hi
        invariant
            lo <= i <= hi <= s@.len(),
            target == s@.subrange(lo as int, hi as int),
            spec_decode(target) == (match spec_decode(s@.subrange(i as int, hi as int)) {
                Some(rest) => Some(out@ + rest),
                None => None::<Seq<u8>>,
            }),
        decreases hi - i,
    {
        let ghost cur = s@.subrange(i as int, hi as int);
        let ghost prev_out = out@;
        assert(cur[0] == s@[i as int]);
        let b = s[i];
        if b == PERCENT {
            if hi - i >= 3 {
                match (hex_digit_value(s[i + 1]), hex_digit_value(s[i + 2])) {
                    (Some(h1), Some(h2)) => {
                        proof {
                            assert(cur[1] == s@[i as int + 1]);
                            assert(cur[2] == s@[i as int + 2]);
                            assert(hex_val(cur[1]) <= 15 && hex_val(cur[2]) <= 15);
                        }
                        let d = h1 * 16 + h2;
                        let ghost next = s@.subrange(i as int + 3, hi as int);
                        proof {
                            assert(cur.skip(3) =~= next);
                            if spec_decode(next) is Some {
                                let rest = spec_decode(next).unwrap();
                                assert(spec_decode(cur) == Some(seq![d] + rest));
                                assert(prev_out + (seq![d] + rest) =~= prev_out.push(d) + rest);
                            }
                        }
                        out.push(d);
                        i = i + 3;
                    },
                    _ => {
                        return None;
                    },
                }
            } else {
                return None;
            }
        } else {
            let d = if b == PLUS {
                SPACE
            } else {
                b
            };
            let ghost next = s@.subrange(i as int + 1, hi as int);
            proof {
                assert(cur.skip(1) =~= next);
                if spec_decode(next) is Some {
                    let rest = spec_decode(next).unwrap();
                    assert(spec_decode(cur) == Some(seq![d] + rest));
                    assert(prev_out + (seq![d] + rest) =~= prev_out.push(d) + rest);
                }
            }
            out.push(d);
            i = i + 1;
        }
    }
    proof {
        assert(s@.subrange(i as int, hi as int) =~= Seq::<u8>::empty());
        assert(out@ + Seq::<u8>::empty() =~= out@);
    }
    Some(out)
}

/// Percent-decodes a whole byte slice; `None` when a `%` escape in it is
/// malformed.
pub fn percent_decode(s: &[u8]) -> (r: Option<Vec<u8>>)
    ensures
        r.deep_view() == spec_decode(s@),
{
    let ghost whole = s@;
    let r = percent_decode_range(s, 0, s.len());
    proof {
        assert(s@.subrange(0, s@.len() as int) =~= whole);
    }
    r
}

/// Parses a form body into its key/value pairs, in order of appearance;
/// `None` when the body is malformed.
pub fn parse_form(body: &[u8]) -> (r: Option<Vec<(Vec<u8>, Vec<u8>)>>)
    ensures
        r.deep_view() == spec_parse_form(body@),
{
    let mut out: Vec<(Vec<u8>, Vec<u8>)> = Vec::new();
    let mut start: usize = 0;
    proof {
        assert(body@.skip(0) =~= body@);
        assert(out.deep_view() =~= Seq::<(Seq<u8>, Seq<u8>)>::empty());
        if spec_parse_form(body@) is Some {
            let ps = spec_parse_form(body@).unwrap();
            assert(out.deep_view() + ps =~= ps);
        }
    }
    while start < body.len()
        invariant
            start <= body@.len(),
            spec_parse_form(body@) == (match spec_parse_form(body@.skip(start as int)) {
                Some(rest) => Some(out.deep_view() + rest),
                None => None::<Seq<(Seq<u8>, Seq<u8>)>>,
            }),
        decreases body@.len() - start,
    {
        let ghost su = body@.skip(start as int);
        let ghost prev_deep = out.deep_view();
        let mut j: usize = start;
        while j < body.len() && body[j] != AMPERSAND
            invariant
                start <= j <= body@.len(),
                forall|m: int| start <= m < j ==> body@[m] != AMPERSAND,
            decreases body@.len() - j,
        {
            j = j + 1;
        }
        proof {
            assert forall|m: int| 0 <= m < j - start implies su[m] != AMPERSAND by {
                assert(su[m] == body@[start + m]);
            }
            if j - start < su.len() {
                assert(su[j - start] == body@[j as int]);
            }
            lemma_first_idx_is(su, AMPERSAND, j - start);
        }
        if j == start {
            proof {
                assert(su.skip(1) =~= body@.skip(start as int + 1));
            }
            start = start + 1;
        } else {
            let ghost seg = body@.subrange(start as int, j as int);
            proof {
                assert(su.take(j - start) =~= seg);
            }
            let mut k: usize = start;
            while k < j && body[k] != EQUALS
                invariant
                    start <= k <= j <= body@.len(),
                    forall|m: int| start <= m < k ==> body@[m] != EQUALS,
                decreases j - k,
            {
                k = k + 1;
            }
            proof {
                assert forall|m: int| 0 <= m < k - start implies seg[m] != EQUALS by {
                    assert(seg[m] == body@[start + m]);
                }
                if k - start < seg.len() {
                    assert(seg[k - start] == body@[k as int]);
                }
                lemma_first_idx_is(seg, EQUALS, k - start);
            }
            let pair_opt: Option<(Vec<u8>, Vec<u8>)> = if k == j {
                proof {
                    assert(seg.take(j - start) =~= seg);
                }
                match percent_decode_range(body, start, j) {
                    Some(key) => Some((key, Vec::new())),
                    None => None,
                }
            } else {
                proof {
                    assert(seg.take(k - start) =~= body@.subrange(start as int, k as int));
                    assert(seg.skip(k - start + 1) =~= body@.subrange(k as int + 1, j as int));
                }
                match (
                    percent_decode_range(body, start, k),
                    percent_decode_range(body, k + 1, j),
                ) {
                    (Some(key), Some(val)) => Some((key, val)),
                    _ => None,
                }
            };
            proof {
                assert(pair_opt.deep_view() == spec_parse_pair(seg));
            }
            match pair_opt {
                None => {
                    return None;
                },
                Some(pair) => {
                    let ghost p = pair.deep_view();
                    out.push(pair);
                    proof {
                        assert(out.deep_view() =~= prev_deep.push(p));
                        assert(prev_deep + seq![p] =~= prev_deep.push(p));
                    }
                    if j == body.len() {
                        proof {
                            assert(spec_parse_form(su) == Some(seq![p]));
                            assert(prev_deep.push(p) + Seq::<(Seq<u8>, Seq<u8>)>::empty()
                                =~= prev_deep.push(p));
                            assert(body@.skip(j as int) =~= Seq::<u8>::empty());
                        }
                        start = j;
                    } else {
                        proof {
                            assert(su.skip(j - start + 1) =~= body@.skip(j as int + 1));
                            if spec_parse_form(body@.skip(j as int + 1)) is Some {
                                let ps = spec_parse_form(body@.skip(j as int + 1)).unwrap();
                                assert(spec_parse_form(su) == Some(seq![p] + ps));
                                assert(prev_deep + (seq![p] + ps) =~= prev_deep.push(p) + ps);
                            }
                        }
                        start = j + 1;
                    }
                },
            }
        }
    }
    proof {
        assert(body@.skip(start as int) =~= Seq::<u8>::empty());
        assert(out.deep_view() + Seq::<(Seq<u8>, Seq<u8>)>::empty() =~= out.deep_view());
    }
    Some(out)
}

/// Whether the byte slices `a` and `b` hold the same bytes.
pub fn bytes_eq(a: &[u8], b: &[u8]) -> (r: bool)
    ensures
        r == (a@ == b@),
{
    if a.len() != b.len() {
        return false;
    }
    let mut i: usize = 0;
    while i < a.len()
        invariant
            i <= a.len(),
            a.len() == b.len(),
            forall|m: int| 0 <= m < i ==> a@[m] == b@[m],
        decreases a.len() - i,
    {
        if a[i] != b[i] {
            return false;
        }
        i = i + 1;
    }
    assert(a@ =~= b@);
    true
}

} // verus!
