//! LCCN handling: input cleaning (whitespace, URI prefix, trailing
//! slash-delimited suffixes), hyphen normalization with a six-character
//! zero-padded serial field, and the length-dispatched structural validator
//! from the Library of Congress syntax rules.

use vstd::prelude::*;
use vstd::string::StrSliceExecFns;

use crate::text::{
    chars_of, has_char, is_alpha, is_alpha_char, is_digit, is_digit_char, is_ws, is_ws_char,
    lemma_strip_ws_chars, lemma_strip_ws_id, lemma_take_till_all, lemma_take_till_shape,
    skip_past, string_of, strip_char, strip_ws, take_till,
};
use crate::traits::{Normalize, Valid};

verus! {

// ---------------------------------------------------------------------------
// Specification
// ---------------------------------------------------------------------------

/// The URI wrapper stripped from LCCN input.
pub open spec fn uri_prefix() -> Seq<char> {
    seq!['h', 't', 't', 'p', ':', '/', '/', 'l', 'c', 'c', 'n', '.', 'l', 'o', 'c', '.', 'g', 'o', 'v', '/']
}

/// The basic form of an LCCN: whitespace removed, the URI prefix stripped
/// when present, and everything from the first `'/'` on discarded.
pub open spec fn spec_reduce_to_basic(s: Seq<char>) -> Seq<char> {
    let t = strip_ws(s);
    let u = if t.len() >= 20 && t.take(20) == uri_prefix() {
        t.skip(20)
    } else {
        t
    };
    take_till(u, '/')
}

/// Left-pads a segment with `'0'` to six characters; longer segments are
/// kept as they are.
pub open spec fn pad6(s: Seq<char>) -> Seq<char> {
    if s.len() >= 6 {
        s
    } else {
        Seq::new((6 - s.len()) as nat, |i: int| '0') + s
    }
}

/// The normalized version: the basic form itself when it has no hyphen;
/// otherwise the part before the first hyphen followed by the segment
/// between the first and second hyphens zero-padded to six characters
/// (anything after a second hyphen drops).
pub open spec fn spec_normalized_version(s: Seq<char>) -> Seq<char> {
    let b = spec_reduce_to_basic(s);
    if !has_char(b, '-') {
        b
    } else {
        take_till(b, '-') + pad6(take_till(skip_past(b, '-'), '-'))
    }
}

/// The length-dispatched structural check over a cleaned, hyphen-free
/// normalized form: the rightmost eight characters must be digits, and the
/// prefix characters must follow the alphabetic/numeric pattern for the
/// total length.
pub open spec fn lccn_clean_valid(c: Seq<char>) -> bool {
    (forall|i: int| 0 <= i < c.len() && c.len() - 8 <= i ==> is_digit(#[trigger] c[i])) && (if c.len()
        == 8 {
        true
    } else if c.len() == 9 {
        is_alpha(c[0])
    } else if c.len() == 10 {
        (is_digit(c[0]) && is_digit(c[1])) || (is_alpha(c[0]) && is_alpha(c[1]))
    } else if c.len() == 11 {
        is_alpha(c[0]) && ((is_digit(c[1]) && is_digit(c[2])) || (is_alpha(c[1]) && is_alpha(
            c[2],
        )))
    } else if c.len() == 12 {
        is_alpha(c[1]) && is_digit(c[2]) && is_digit(c[3])
    } else {
        false
    })
}

/// An LCCN is valid when its normalized version, with any remaining hyphen
/// removed, passes the structural check.
pub open spec fn spec_lccn_valid(s: Seq<char>) -> bool {
    lccn_clean_valid(strip_char(spec_normalized_version(s), '-'))
}

/// Normalization returns the normalized version when that version is itself
/// a valid LCCN.
pub open spec fn spec_lccn_normalize(s: Seq<char>) -> Option<Seq<char>> {
    let n = spec_normalized_version(s);
    if spec_lccn_valid(n) {
        Option::Some(n)
    } else {
        Option::None
    }
}

// ---------------------------------------------------------------------------
// Executable cleaning
// ---------------------------------------------------------------------------

/// The character of the URI wrapper at position `j`.
fn uri_char_at(j: usize) -> (r: char)
    requires
        j < 20,
    ensures
        r == uri_prefix()[j as int],
{
    if j == 0 {
        'h'
    } else if j == 1 {
        't'
    } else if j == 2 {
        't'
    } else if j == 3 {
        'p'
    } else if j == 4 {
        ':'
    } else if j == 5 {
        '/'
    } else if j == 6 {
        '/'
    } else if j == 7 {
        'l'
    } else if j == 8 {
        'c'
    } else if j == 9 {
        'c'
    } else if j == 10 {
        'n'
    } else if j == 11 {
        '.'
    } else if j == 12 {
        'l'
    } else if j == 13 {
        'o'
    } else if j == 14 {
        'c'
    } else if j == 15 {
        '.'
    } else if j == 16 {
        'g'
    } else if j == 17 {
        'o'
    } else if j == 18 {
        'v'
    } else {
        '/'
    }
}

/// Removes all whitespace, strips the URI wrapper when present, and
/// truncates at the first `'/'`.
pub fn reduce_to_basic(lccn: &str) -> (r: String)
    ensures
        r@ == spec_reduce_to_basic(lccn@),
{
    let ghost s = lccn@;
    let v = chars_of(lccn);
    let mut t: Vec<char> = Vec::new();
    let mut i: usize = 0;
    while i < v.len()
        invariant
            i <= v.len(),
            v@ == s,
            t@ == strip_ws(s.take(i as int)),
        decreases v.len() - i,
    {
        proof {
            assert(s.take(i as int + 1).drop_last() =~= s.take(i as int));
        }
        let c = v[i];
        if !is_ws_char(c) {
            t.push(c);
        }
        i = i + 1;
    }
    proof {
        assert(s.take(s.len() as int) =~= s);
    }
    let ghost tq = strip_ws(s);
    let mut has_uri = t.len() >= 20;
    let mut j: usize = 0;
    while j < 20 && has_uri
        invariant
            j <= 20,
            t@ == tq,
            tq.len() >= 20 ==> (has_uri <==> (forall|m: int|
                0 <= m < j ==> tq[m] == uri_prefix()[m])),
            tq.len() < 20 ==> !has_uri,
            has_uri ==> tq.len() >= 20,
        decreases 20 - j,
    {
        if t[j] != uri_char_at(j) {
            has_uri = false;
            proof {
                assert(tq[j as int] != uri_prefix()[j as int]);
            }
        }
        j = j + 1;
    }
    let ghost u = if tq.len() >= 20 && tq.take(20) == uri_prefix() {
        tq.skip(20)
    } else {
        tq
    };
    let start: usize = if has_uri {
        20
    } else {
        0
    };
    proof {
        if has_uri {
            assert(tq.take(20) =~= uri_prefix());
            assert(u == tq.skip(20));
        } else {
            if tq.len() >= 20 {
                if tq.take(20) == uri_prefix() {
                    assert(forall|m: int| 0 <= m < 20 ==> tq.take(20)[m] == uri_prefix()[m]);
                    assert(forall|m: int| 0 <= m < 20 ==> tq[m] == uri_prefix()[m]);
                    assert(false);
                }
            }
            assert(u == tq);
            assert(tq.skip(0) =~= tq);
        }
        assert(u == tq.skip(start as int));
    }
    let mut out: Vec<char> = Vec::new();
    let mut k: usize = start;
    proof {
        assert(out@ =~= u.subrange(0, 0));
        assert(u.skip(0) =~= u);
    }
    while k < t.len() && t[k] != '/'
        invariant
            start <= k <= t.len(),
            t@ == tq,
            start as int <= tq.len() || k == start,
            u == tq.skip(start as int),
            out@ == u.subrange(0, k as int - start as int),
            take_till(u, '/') == out@ + take_till(u.skip(k as int - start as int), '/'),
        decreases t.len() - k,
    {
        let ghost kk = k as int - start as int;
        proof {
            assert(u.skip(kk)[0] == u[kk]);
            assert(u[kk] == tq[k as int]);
            assert(u.skip(kk).drop_first() =~= u.skip(kk + 1));
            assert(take_till(u.skip(kk), '/') == seq![u[kk]] + take_till(u.skip(kk + 1), '/'));
            assert(out@.push(u[kk]) + take_till(u.skip(kk + 1), '/') =~= out@ + (seq![u[kk]]
                + take_till(u.skip(kk + 1), '/')));
            assert(u.subrange(0, kk).push(u[kk]) =~= u.subrange(0, kk + 1));
        }
        out.push(t[k]);
        k = k + 1;
    }
    proof {
        let kk = k as int - start as int;
        if k < tq.len() {
            assert(u.skip(kk)[0] == u[kk]);
            assert(u[kk] == tq[k as int]);
            assert(take_till(u.skip(kk), '/') =~= Seq::<char>::empty());
        } else {
            assert(u.skip(kk) =~= Seq::<char>::empty());
        }
        assert(out@ + take_till(u.skip(kk), '/') =~= out@);
        assert(spec_reduce_to_basic(s) == out@);
    }
    string_of(&out)
}

/// The basic form with its first hyphen resolved: the segment between the
/// first and second hyphens is zero-padded on the left to six characters.
pub fn normalized_version(lccn: &str) -> (r: String)
    ensures
        r@ == spec_normalized_version(lccn@),
{
    let basic = reduce_to_basic(lccn);
    let ghost b = spec_reduce_to_basic(lccn@);
    let bv = chars_of(basic.as_str());
    let n = bv.len();
    let mut h: usize = 0;
    while h < n && bv[h] != '-'
        invariant
            h <= n,
            n == b.len(),
            bv@ == b,
            forall|j: int| 0 <= j < h ==> b[j] != '-',
        decreases n - h,
    {
        h = h + 1;
    }
    if h == n {
        proof {
            assert(!has_char(b, '-'));
        }
        return basic;
    }
    proof {
        assert(b[h as int] == '-');
        assert(has_char(b, '-'));
        lemma_take_till_shape(b, '-');
        let le = take_till(b, '-').len() as int;
        if le < h {
            assert(b[le] == '-');
            assert(false);
        }
        if le > h {
            assert(b[h as int] != '-');
            assert(false);
        }
        assert(take_till(b, '-') == b.take(h as int));
        assert(skip_past(b, '-') == b.skip(h as int + 1));
    }
    let ghost rest = b.skip(h as int + 1);
    let mut e: usize = h + 1;
    while e < n && bv[e] != '-'
        invariant
            h as int + 1 <= e as int <= n,
            n == b.len(),
            bv@ == b,
            forall|j: int| h + 1 <= j < e ==> b[j] != '-',
        decreases n - e,
    {
        e = e + 1;
    }
    let ghost second = take_till(rest, '-');
    proof {
        lemma_take_till_shape(rest, '-');
        let le = second.len() as int;
        let off = h as int + 1;
        assert(forall|j: int| 0 <= j < rest.len() ==> rest[j] == b[j + off]);
        if off + le < e {
            assert(rest[le] == '-');
            assert(b[off + le] != '-');
            assert(false);
        }
        if off + le > e {
            assert(e < n);
            assert(b[e as int] == '-');
            assert(rest[e - off] != '-');
            assert(false);
        }
        assert(second == rest.take(e - off));
        assert(second =~= b.subrange(off, e as int));
    }
    let seglen = e - (h + 1);
    let mut out: Vec<char> = Vec::new();
    let mut i: usize = 0;
    proof {
        assert(out@ =~= b.subrange(0, 0));
    }
    while i < h
        invariant
            i <= h,
            h < n,
            n == b.len(),
            bv@ == b,
            out@ == b.subrange(0, i as int),
        decreases h - i,
    {
        proof {
            assert(b.subrange(0, i as int).push(b[i as int]) =~= b.subrange(0, i as int + 1));
        }
        out.push(bv[i]);
        i = i + 1;
    }
    let ghost first = take_till(b, '-');
    let ghost padlen: int = if seglen < 6 {
        6 - seglen as int
    } else {
        0
    };
    let padcount: usize = if seglen < 6 {
        6 - seglen
    } else {
        0
    };
    let mut z: usize = 0;
    while z < padcount
        invariant
            padcount as int == padlen,
            z <= padcount,
            out@ == first + Seq::new(z as nat, |q: int| '0'),
            n == b.len(),
            bv@ == b,
            h < n,
            first == b.subrange(0, h as int),
            seglen == e - h - 1,
            h as int + 1 <= e as int <= n,
        decreases padcount - z,
    {
        proof {
            assert((first + Seq::new(z as nat, |q: int| '0')).push('0') =~= first + Seq::new(
                (z + 1) as nat,
                |q: int| '0',
            ));
        }
        out.push('0');
        z = z + 1;
    }
    proof {
        if seglen < 6 {
            assert(z as int == 6 - seglen as int);
        }
        assert(out@ == first + Seq::new(padlen as nat, |q: int| '0'));
    }
    let mut w: usize = h + 1;
    while w < e
        invariant
            h as int + 1 <= w as int <= e as int,
            e <= n,
            n == b.len(),
            bv@ == b,
            out@ == first + Seq::new(padlen as nat, |q: int| '0') + b.subrange(
                h as int + 1,
                w as int,
            ),
        decreases e - w,
    {
        proof {
            assert((first + Seq::new(padlen as nat, |q: int| '0') + b.subrange(
                h as int + 1,
                w as int,
            )).push(b[w as int]) =~= first + Seq::new(padlen as nat, |q: int| '0') + b.subrange(
                h as int + 1,
                w as int + 1,
            ));
        }
        out.push(bv[w]);
        w = w + 1;
    }
    proof {
        assert(second == b.subrange(h as int + 1, e as int));
        if seglen >= 6 {
            assert(pad6(second) == second);
            assert(Seq::new(0, |q: int| '0') =~= Seq::<char>::empty());
            assert(first + Seq::new(padlen as nat, |q: int| '0') + second =~= first + pad6(second));
        } else {
            assert(pad6(second) == Seq::new((6 - second.len()) as nat, |q: int| '0') + second);
            assert(first + Seq::new(padlen as nat, |q: int| '0') + second =~= first + pad6(second));
        }
        assert(out@ == spec_normalized_version(lccn@));
    }
    string_of(&out)
}

// ---------------------------------------------------------------------------
// The LCCN type
// ---------------------------------------------------------------------------

/// An LCCN wrapping its raw identifier string, which may carry embedded
/// whitespace, a URI wrapper, and trailing slash-delimited revision codes.
pub struct LCCN {
    pub identifier: String,
}

impl LCCN {
    pub fn new(identifier: &str) -> (r: LCCN)
        ensures
            r.identifier@ == identifier@,
    {
        LCCN { identifier: identifier.to_owned() }
    }
}

impl Valid for LCCN {
    open spec fn spec_valid(&self) -> bool {
        spec_lccn_valid(self.identifier@)
    }

    /// Whether the normalized version, with any remaining hyphen removed,
    /// ends in eight digits and fits one of the accepted length patterns.
    fn valid(&self) -> (r: bool) {
        let normalized = normalized_version(self.identifier.as_str());
        let ghost nv = spec_normalized_version(self.identifier@);
        let v = chars_of(normalized.as_str());
        let mut clean: Vec<char> = Vec::new();
        let mut i: usize = 0;
        while i < v.len()
            invariant
                i <= v.len(),
                v@ == nv,
                clean@ == strip_char(nv.take(i as int), '-'),
            decreases v.len() - i,
        {
            proof {
                assert(nv.take(i as int + 1).drop_last() =~= nv.take(i as int));
            }
            let c = v[i];
            if c != '-' {
                clean.push(c);
            }
            i = i + 1;
        }
        proof {
            assert(nv.take(nv.len() as int) =~= nv);
        }
        let ghost cq = strip_char(nv, '-');
        let n = clean.len();
        let lo: usize = if n > 8 {
            n - 8
        } else {
            0
        };
        let mut suffix = true;
        let mut j: usize = lo;
        while j < n
            invariant
                lo <= j <= n,
                n == cq.len(),
                clean@ == cq,
                lo as int == (if n > 8 {
                    n as int - 8
                } else {
                    0
                }),
                suffix <==> (forall|m: int| lo <= m < j ==> is_digit(#[trigger] cq[m])),
            decreases n - j,
        {
            if !is_digit_char(clean[j]) {
                suffix = false;
                proof {
                    assert(!is_digit(cq[j as int]));
                }
            }
            j = j + 1;
        }
        proof {
            assert(suffix <==> (forall|m: int|
                0 <= m < cq.len() && cq.len() - 8 <= m ==> is_digit(#[trigger] cq[m])));
        }
        if !suffix {
            return false;
        }
        if n == 8 {
            true
        } else if n == 9 {
            is_alpha_char(clean[0])
        } else if n == 10 {
            (is_digit_char(clean[0]) && is_digit_char(clean[1])) || (is_alpha_char(clean[0])
                && is_alpha_char(clean[1]))
        } else if n == 11 {
            is_alpha_char(clean[0]) && ((is_digit_char(clean[1]) && is_digit_char(clean[2])) || (
            is_alpha_char(clean[1]) && is_alpha_char(clean[2])))
        } else if n == 12 {
            is_alpha_char(clean[1]) && is_digit_char(clean[2]) && is_digit_char(clean[3])
        } else {
            false
        }
    }
}

impl Normalize for LCCN {
    open spec fn spec_normalize(&self) -> Option<Seq<char>> {
        spec_lccn_normalize(self.identifier@)
    }

    /// The normalized version, when it is itself a valid LCCN.
    fn normalize(&self) -> (r: Option<String>) {
        let normalized = normalized_version(self.identifier.as_str());
        let candidate = LCCN::new(normalized.as_str());
        if candidate.valid() {
            Some(normalized)
        } else {
            None
        }
    }
}

// ---------------------------------------------------------------------------
// Laws
// ---------------------------------------------------------------------------

/// Every character of the basic form is non-whitespace and not `'/'`.
pub proof fn lemma_lccn_basic_chars(s: Seq<char>)
    ensures
        forall|i: int|
            0 <= i < spec_reduce_to_basic(s).len() ==> !is_ws(
                #[trigger] spec_reduce_to_basic(s)[i],
            ) && spec_reduce_to_basic(s)[i] != '/',
{
    let t = strip_ws(s);
    lemma_strip_ws_chars(s);
    let u = if t.len() >= 20 && t.take(20) == uri_prefix() {
        t.skip(20)
    } else {
        t
    };
    assert forall|i: int| 0 <= i < u.len() implies !is_ws(#[trigger] u[i]) by {
        if t.len() >= 20 && t.take(20) == uri_prefix() {
            assert(u[i] == t[i + 20]);
        }
    }
    let b = take_till(u, '/');
    lemma_take_till_shape(u, '/');
    assert forall|i: int|
        0 <= i < spec_reduce_to_basic(s).len() implies !is_ws(
        #[trigger] spec_reduce_to_basic(s)[i],
    ) && spec_reduce_to_basic(s)[i] != '/' by {
        assert(spec_reduce_to_basic(s)[i] == b[i]);
        assert(b[i] == u[i]);
        assert(u[i] != '/');
    }
}

/// The normalized version contains no whitespace, no `'/'` and no hyphen.
pub proof fn lemma_lccn_normalized_chars(s: Seq<char>)
    ensures
        forall|i: int|
            0 <= i < spec_normalized_version(s).len() ==> !is_ws(
                #[trigger] spec_normalized_version(s)[i],
            ) && spec_normalized_version(s)[i] != '/' && spec_normalized_version(s)[i] != '-',
{
    let b = spec_reduce_to_basic(s);
    lemma_lccn_basic_chars(s);
    let nv = spec_normalized_version(s);
    if !has_char(b, '-') {
        assert forall|i: int|
            0 <= i < nv.len() implies !is_ws(#[trigger] nv[i]) && nv[i] != '/' && nv[i]
            != '-' by {
            assert(nv[i] == b[i]);
            if nv[i] == '-' {
                assert(has_char(b, '-'));
            }
        }
    } else {
        lemma_take_till_shape(b, '-');
        let first = take_till(b, '-');
        if first.len() == b.len() {
            let w = choose|i: int| 0 <= i < b.len() && b[i] == '-';
            assert(b[w] != '-');
            assert(false);
        }
        let rest = skip_past(b, '-');
        assert(rest == b.skip(first.len() as int + 1));
        lemma_take_till_shape(rest, '-');
        let second = take_till(rest, '-');
        let padded = pad6(second);
        assert forall|i: int|
            0 <= i < nv.len() implies !is_ws(#[trigger] nv[i]) && nv[i] != '/' && nv[i]
            != '-' by {
            if i < first.len() {
                assert(nv[i] == first[i]);
                assert(first[i] == b[i]);
                assert(b[i] != '-');
            } else {
                let p = i - first.len();
                assert(nv[i] == padded[p]);
                if second.len() >= 6 {
                    assert(padded[p] == second[p]);
                    assert(second[p] == rest[p]);
                    assert(rest[p] != '-');
                    assert(rest[p] == b[p + first.len() + 1]);
                } else {
                    if p < 6 - second.len() {
                        assert(padded[p] == '0');
                    } else {
                        let q = p - (6 - second.len());
                        assert(padded[p] == second[q]);
                        assert(second[q] == rest[q]);
                        assert(rest[q] != '-');
                        assert(rest[q] == b[q + first.len() + 1]);
                    }
                }
            }
        }
    }
}

/// Basic-form reduction is the identity on whitespace-free, slash-free
/// text.
pub proof fn lemma_lccn_reduce_of_clean(t: Seq<char>)
    requires
        forall|i: int| 0 <= i < t.len() ==> !is_ws(#[trigger] t[i]) && t[i] != '/',
    ensures
        spec_reduce_to_basic(t) == t,
{
    lemma_strip_ws_id(t);
    if t.len() >= 20 && t.take(20) == uri_prefix() {
        assert(uri_prefix()[5] == '/');
        assert(t.take(20)[5] == t[5]);
        assert(false);
    }
    lemma_take_till_all(t, '/');
}

/// Computing the normalized version twice yields the same string.
pub proof fn lemma_lccn_normalized_idempotent(s: Seq<char>)
    ensures
        spec_normalized_version(spec_normalized_version(s)) == spec_normalized_version(s),
{
    let nv = spec_normalized_version(s);
    lemma_lccn_normalized_chars(s);
    lemma_lccn_reduce_of_clean(nv);
    assert(!has_char(nv, '-')) by {
        if has_char(nv, '-') {
            let w = choose|i: int| 0 <= i < nv.len() && nv[i] == '-';
            assert(nv[w] != '-');
        }
    }
}

/// Validity does not change when an identifier is replaced by its
/// normalized version.
pub proof fn lemma_lccn_valid_stable(s: Seq<char>)
    ensures
        spec_lccn_valid(spec_normalized_version(s)) == spec_lccn_valid(s),
{
    lemma_lccn_normalized_idempotent(s);
}

/// Normalization is idempotent: renormalizing an already-normalized LCCN
/// yields the same string.
pub proof fn lemma_lccn_normalize_idempotent(s: Seq<char>)
    requires
        spec_lccn_normalize(s) is Some,
    ensures
        spec_lccn_normalize(spec_lccn_normalize(s).unwrap()) == spec_lccn_normalize(s),
{
    lemma_lccn_normalized_idempotent(s);
}

} // verus!
