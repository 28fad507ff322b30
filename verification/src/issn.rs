//! ISSN handling: the mod-11 checkdigit over seven weighted digits, the
//! basic-form reduction, validity, and normalization.

use vstd::prelude::*;
use vstd::string::StrSliceExecFns;

use crate::text::{
    chars_of, check_char_11, digit_val, digit_vals, first_n, is_digit, is_digit_char,
    lemma_strip_char_id, string_of, strip_char, upper_x,
};
use crate::traits::{option_view_eq, Normalize, Valid};

verus! {

// ---------------------------------------------------------------------------
// Specification
// ---------------------------------------------------------------------------

/// The weighted sum for the ISSN checkdigit: the digit at position `i` (in
/// the sequence of digit values) counts with weight `8 - i`.
pub open spec fn wsum_issn(d: Seq<int>) -> int
    decreases d.len(),
{
    if d.len() == 0 {
        0
    } else {
        wsum_issn(d.drop_last()) + d.last() * (8 - (d.len() as int - 1))
    }
}

/// The ISSN checkdigit of a raw identifier: hyphens removed, the digits
/// among the first seven characters weighted 8 down to 2, summed, reduced
/// mod 11, and mapped to a base-11 check character.
pub open spec fn spec_issn_checkdigit(s: Seq<char>) -> char {
    check_char_11(wsum_issn(digit_vals(first_n(strip_char(s, '-'), 7))) % 11)
}

/// The shape a basic form must have: every character an ASCII digit, except
/// that the last may be `'X'`.
pub open spec fn issn_shape_ok(c: Seq<char>) -> bool {
    forall|i: int| 0 <= i < c.len() ==> is_digit(#[trigger] c[i]) || (i == c.len() - 1 && c[i] == 'X')
}

/// The basic form of an ISSN: hyphens removed and lowercase `'x'`
/// uppercased; absent unless every character is a digit, the last possibly
/// `'X'`.
pub open spec fn spec_reduce_to_basics(s: Seq<char>) -> Option<Seq<char>> {
    let c = upper_x(strip_char(s, '-'));
    if issn_shape_ok(c) {
        Option::Some(c)
    } else {
        Option::None
    }
}

/// An ISSN is valid when its basic form exists, is nonempty, and ends in
/// the checkdigit computed from the raw identifier.
pub open spec fn spec_issn_valid(s: Seq<char>) -> bool {
    match spec_reduce_to_basics(s) {
        Option::Some(b) => b.len() > 0 && b.last() == spec_issn_checkdigit(s),
        Option::None => false,
    }
}

/// Normalization returns the basic form when it exists and is itself a
/// valid ISSN.
pub open spec fn spec_issn_normalize(s: Seq<char>) -> Option<Seq<char>> {
    match spec_reduce_to_basics(s) {
        Option::Some(b) => if spec_issn_valid(b) {
            Option::Some(b)
        } else {
            Option::None
        },
        Option::None => Option::None,
    }
}

// ---------------------------------------------------------------------------
// The ISSN type
// ---------------------------------------------------------------------------

/// An ISSN wrapping its raw identifier string, which may contain hyphens
/// and a lowercase check character.
pub struct ISSN {
    pub identifier: String,
}

impl ISSN {
    pub fn new(identifier: &str) -> (r: ISSN)
        ensures
            r.identifier@ == identifier@,
    {
        ISSN { identifier: identifier.to_owned() }
    }

    /// The mod-11 checkdigit over the first seven digits of the hyphen-free
    /// identifier. Total: for malformed input it simply computes over the
    /// digits that are present.
    pub fn checkdigit(&self) -> (r: char)
        ensures
            r == spec_issn_checkdigit(self.identifier@),
    {
        let ghost s = self.identifier@;
        let v = chars_of(self.identifier.as_str());
        let mut clean: Vec<char> = Vec::new();
        let mut i: usize = 0;
        while i < v.len()
            invariant
                i <= v.len(),
                v@ == s,
                clean@ == strip_char(s.take(i as int), '-'),
            decreases v.len() - i,
        {
            proof {
                assert(s.take(i as int + 1).drop_last() =~= s.take(i as int));
            }
            let c = v[i];
            if c != '-' {
                clean.push(c);
            }
            i = i + 1;
        }
        proof {
            assert(s.take(s.len() as int) =~= s);
        }
        let ghost cl = strip_char(s, '-');
        let n = clean.len();
        let limit: usize = if n < 7 {
            n
        } else {
            7
        };
        proof {
            if n <= 7 {
                assert(cl.take(limit as int) =~= cl);
            }
            assert(first_n(cl, 7) == cl.take(limit as int));
        }
        let mut sum: u32 = 0;
        let mut dc: u32 = 0;
        let mut j: usize = 0;
        while j < limit
            invariant
                j <= limit,
                limit <= 7,
                limit <= n,
                n == cl.len(),
                clean@ == cl,
                dc == digit_vals(cl.take(j as int)).len(),
                dc <= j,
                sum == wsum_issn(digit_vals(cl.take(j as int))),
                sum <= 72 * dc,
            decreases limit - j,
        {
            proof {
                assert(cl.take(j as int + 1).drop_last() =~= cl.take(j as int));
                assert(cl.take(j as int + 1).last() == cl[j as int]);
            }
            let c = clean[j];
            if is_digit_char(c) {
                proof {
                    let d = digit_vals(cl.take(j as int));
                    let d2 = digit_vals(cl.take(j as int + 1));
                    assert(d2 == d.push(digit_val(cl[j as int])));
                    assert(d2.drop_last() =~= d);
                }
                let dval = c as u32 - 48;
                assert(dval * (8 - dc) <= 72) by (nonlinear_arith)
                    requires
                        dval <= 9,
                        dc <= 6,
                ;
                sum = sum + dval * (8 - dc);
                dc = dc + 1;
            }
            j = j + 1;
        }
        let m = sum % 11;
        from_digit_to_checkdigit(m)
    }
}

impl Valid for ISSN {
    open spec fn spec_valid(&self) -> bool {
        spec_issn_valid(self.identifier@)
    }

    /// Whether the basic form exists, is nonempty, and ends in the
    /// checkdigit of the raw identifier.
    fn valid(&self) -> (r: bool) {
        let basic_issn = reduce_to_basics(self.identifier.as_str());
        match basic_issn {
            Option::None => false,
            Option::Some(num) => {
                let n = num.as_str().unicode_len();
                if n == 0 {
                    false
                } else {
                    let last_digit = num.as_str().get_char(n - 1);
                    last_digit == self.checkdigit()
                }
            },
        }
    }
}

impl Normalize for ISSN {
    open spec fn spec_normalize(&self) -> Option<Seq<char>> {
        spec_issn_normalize(self.identifier@)
    }

    /// The hyphen-free, uppercased basic form, when it is a valid ISSN.
    fn normalize(&self) -> (r: Option<String>) {
        let basic_issn = reduce_to_basics(self.identifier.as_str());
        match basic_issn {
            Option::None => None,
            Option::Some(bs) => {
                if ISSN::new(bs.as_str()).valid() {
                    Some(bs)
                } else {
                    None
                }
            },
        }
    }
}

// ---------------------------------------------------------------------------
// Helpers
// ---------------------------------------------------------------------------

/// Maps a mod-11 residue to its check character: base 11, value 10 as `'X'`.
fn from_digit_to_checkdigit(num: u32) -> (r: char)
    requires
        num <= 10,
    ensures
        r == check_char_11(num as int),
{
    let v = (11 - num) % 11;
    if v == 0 {
        '0'
    } else if v == 1 {
        '1'
    } else if v == 2 {
        '2'
    } else if v == 3 {
        '3'
    } else if v == 4 {
        '4'
    } else if v == 5 {
        '5'
    } else if v == 6 {
        '6'
    } else if v == 7 {
        '7'
    } else if v == 8 {
        '8'
    } else if v == 9 {
        '9'
    } else {
        'X'
    }
}

/// Strips hyphens, uppercases any lowercase `'x'`, and succeeds only when
/// every character is an ASCII digit, except that the last may be `'X'`.
pub fn reduce_to_basics(issn: &str) -> (r: Option<String>)
    ensures
        option_view_eq(r, spec_reduce_to_basics(issn@)),
{
    let ghost s = issn@;
    let v = chars_of(issn);
    let mut clean: Vec<char> = Vec::new();
    let mut i: usize = 0;
    while i < v.len()
        invariant
            i <= v.len(),
            v@ == s,
            clean@ == upper_x(strip_char(s.take(i as int), '-')),
        decreases v.len() - i,
    {
        proof {
            assert(s.take(i as int + 1).drop_last() =~= s.take(i as int));
        }
        let c = v[i];
        if c != '-' {
            proof {
                let t = strip_char(s.take(i as int), '-');
                assert(upper_x(t.push(s[i as int])) =~= upper_x(t).push(
                    if s[i as int] == 'x' {
                        'X'
                    } else {
                        s[i as int]
                    },
                ));
            }
            if c == 'x' {
                clean.push('X');
            } else {
                clean.push(c);
            }
        }
        i = i + 1;
    }
    proof {
        assert(s.take(s.len() as int) =~= s);
    }
    let ghost cl = upper_x(strip_char(s, '-'));
    let n = clean.len();
    let mut ok = true;
    let mut j: usize = 0;
    while j < n
        invariant
            j <= n,
            n == cl.len(),
            clean@ == cl,
            ok <==> (forall|m: int|
                0 <= m < j ==> is_digit(#[trigger] cl[m]) || (m == n - 1 && cl[m] == 'X')),
        decreases n - j,
    {
        let c = clean[j];
        let fine = is_digit_char(c) || (j == n - 1 && c == 'X');
        if !fine {
            ok = false;
            proof {
                assert(!(is_digit(cl[j as int]) || (j as int == n - 1 && cl[j as int] == 'X')));
            }
        }
        j = j + 1;
    }
    if ok {
        Some(string_of(&clean))
    } else {
        None
    }
}

// ---------------------------------------------------------------------------
// Laws
// ---------------------------------------------------------------------------

/// Normalization is idempotent: the normalized form of an ISSN normalizes
/// to itself.
pub proof fn lemma_issn_normalize_idempotent(s: Seq<char>)
    requires
        spec_issn_normalize(s) is Some,
    ensures
        spec_issn_normalize(spec_issn_normalize(s).unwrap()) == spec_issn_normalize(s),
{
    let b = spec_issn_normalize(s).unwrap();
    assert(spec_reduce_to_basics(s) == Option::Some(b));
    assert(issn_shape_ok(b));
    assert forall|i: int| 0 <= i < b.len() implies b[i] != '-' by {
        assert(is_digit(b[i]) || (i == b.len() - 1 && b[i] == 'X'));
    }
    lemma_strip_char_id(b, '-');
    assert(upper_x(b) =~= b) by {
        assert forall|i: int| 0 <= i < b.len() implies upper_x(b)[i] == b[i] by {
            assert(is_digit(b[i]) || (i == b.len() - 1 && b[i] == 'X'));
        }
    }
    assert(spec_reduce_to_basics(b) == Option::Some(b));
}

} // verus!
