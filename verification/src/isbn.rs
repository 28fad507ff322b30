//! ISBN handling: basic-form reduction, the mod-11 (10-digit) and weighted
//! mod-10 (13-digit) checkdigits, validity, and conversion between the
//! 10-digit and 13-digit forms.

use vstd::prelude::*;
use vstd::string::StrSliceExecFns;

use crate::text::{
    chars_of, check_char_11, digit_char, digit_val, digit_vals, dx_prefix, first_n, is_digit,
    is_digit_char, is_digit_or_x, lemma_dx_prefix_all, lemma_dx_prefix_chars,
    lemma_skip_till_digit_first, lemma_strip_char_id, skip_till_digit, string_of, strip_char,
};
use crate::traits::{option_view_eq, Normalize, Valid};

verus! {

// ---------------------------------------------------------------------------
// Specification
// ---------------------------------------------------------------------------

/// The scrub step of basic-form reduction: drop everything before the first
/// digit, then keep characters while they are digits or `'X'`.
pub open spec fn spec_scrub(s: Seq<char>) -> Seq<char> {
    dx_prefix(skip_till_digit(s))
}

/// The basic form of an ISBN: hyphens removed, then scrubbed.
pub open spec fn spec_reduce(s: Seq<char>) -> Seq<char> {
    spec_scrub(strip_char(s, '-'))
}

/// The weighted sum for the 10-digit checkdigit: the digit at position `i`
/// (in the sequence of digit values) counts with weight `10 - i`.
pub open spec fn wsum_ten(d: Seq<int>) -> int
    decreases d.len(),
{
    if d.len() == 0 {
        0
    } else {
        wsum_ten(d.drop_last()) + d.last() * (10 - (d.len() as int - 1))
    }
}

/// The weighted sum for the 13-digit checkdigit: digits at even positions
/// count with weight 1, at odd positions with weight 3.
pub open spec fn wsum_thirteen(d: Seq<int>) -> int
    decreases d.len(),
{
    if d.len() == 0 {
        0
    } else {
        wsum_thirteen(d.drop_last()) + d.last() * (1 + ((d.len() as int - 1) % 2) * 2)
    }
}

/// The 10-digit checkdigit of an already-reduced basic form: the digits among
/// the first nine characters, weighted, summed, reduced mod 11, and mapped to
/// a base-11 check character.
pub open spec fn checkdigit_ten_of(b: Seq<char>) -> char {
    check_char_11(wsum_ten(digit_vals(first_n(b, 9))) % 11)
}

/// The 13-digit checkdigit of an already-reduced basic form: the digits among
/// the first twelve characters, weighted 1-3-1-3, summed, and completed to a
/// multiple of ten.
pub open spec fn checkdigit_thirteen_of(b: Seq<char>) -> char {
    digit_char((10 - wsum_thirteen(digit_vals(first_n(b, 12))) % 10) % 10)
}

/// The checkdigit of an ISBN, when its basic form has a valid length.
pub open spec fn spec_isbn_checkdigit(s: Seq<char>) -> Option<char> {
    let b = spec_reduce(s);
    if b.len() == 10 {
        Option::Some(checkdigit_ten_of(b))
    } else if b.len() == 13 {
        Option::Some(checkdigit_thirteen_of(b))
    } else {
        Option::None
    }
}

/// An ISBN is valid when its basic form has length 10 or 13 and the
/// checkdigit computed from it equals its last character.
pub open spec fn spec_isbn_valid(s: Seq<char>) -> bool {
    let b = spec_reduce(s);
    if b.len() == 10 {
        checkdigit_ten_of(b) == b.last()
    } else if b.len() == 13 {
        checkdigit_thirteen_of(b) == b.last()
    } else {
        false
    }
}

/// Conversion to the 13-digit form: `None` for an invalid ISBN; a 10-digit
/// basic form is prefixed with `978` and given a recomputed checkdigit; a
/// 13-digit basic form is returned unchanged.
pub open spec fn spec_convert_to_13(s: Seq<char>) -> Option<Seq<char>> {
    if !spec_isbn_valid(s) {
        Option::None
    } else {
        let b = spec_reduce(s);
        if b.len() == 10 {
            let p = seq!['9', '7', '8'] + b.take(9);
            Option::Some(p.push(checkdigit_thirteen_of(p)))
        } else {
            Option::Some(b)
        }
    }
}

/// Conversion to the 10-digit form: `None` for an invalid ISBN and for a
/// basic form starting `979` (no 10-digit equivalent exists); a 13-digit
/// basic form loses its 3-character prefix and gets a recomputed checkdigit;
/// a 10-digit basic form is returned unchanged.
pub open spec fn spec_convert_to_10(s: Seq<char>) -> Option<Seq<char>> {
    if !spec_isbn_valid(s) {
        Option::None
    } else {
        let b = spec_reduce(s);
        if b.len() >= 3 && b[0] == '9' && b[1] == '7' && b[2] == '9' {
            Option::None
        } else if b.len() == 10 {
            Option::Some(b)
        } else {
            Option::Some(b.subrange(3, 12).push(checkdigit_ten_of(spec_reduce(b.skip(3)))))
        }
    }
}

// ---------------------------------------------------------------------------
// Lemmas about the basic form
// ---------------------------------------------------------------------------

/// Every character of a basic form is a digit or `'X'`, and the first one is
/// a digit.
pub proof fn lemma_reduce_chars(s: Seq<char>)
    ensures
        forall|i: int|
            0 <= i < spec_reduce(s).len() ==> is_digit_or_x(#[trigger] spec_reduce(s)[i]),
        spec_reduce(s).len() > 0 ==> is_digit(spec_reduce(s)[0]),
{
    let t = strip_char(s, '-');
    let u = skip_till_digit(t);
    lemma_skip_till_digit_first(t);
    lemma_dx_prefix_chars(u);
}

/// Reduction leaves a sequence unchanged when it already looks like a basic
/// form: all digits or `'X'`, starting with a digit.
pub proof fn lemma_reduce_of_basic(t: Seq<char>)
    requires
        forall|i: int| 0 <= i < t.len() ==> is_digit_or_x(#[trigger] t[i]),
        t.len() > 0 ==> is_digit(t[0]),
    ensures
        spec_reduce(t) == t,
{
    assert forall|i: int| 0 <= i < t.len() implies t[i] != '-' by {
        assert(is_digit_or_x(t[i]));
    }
    lemma_strip_char_id(t, '-');
    if t.len() == 0 {
        assert(spec_reduce(t) =~= t);
    } else {
        assert(skip_till_digit(t) == t);
        lemma_dx_prefix_all(t);
    }
}

/// Basic-form reduction is idempotent.
pub proof fn lemma_reduce_idempotent(s: Seq<char>)
    ensures
        spec_reduce(spec_reduce(s)) == spec_reduce(s),
{
    lemma_reduce_chars(s);
    lemma_reduce_of_basic(spec_reduce(s));
}

// ---------------------------------------------------------------------------
// Executable reduction
// ---------------------------------------------------------------------------

/// The basic form of an ISBN string: hyphens removed, then any prefix before
/// the first digit dropped, then characters kept while digits or `'X'`.
pub fn reduce_to_basic(isbn: &str) -> (r: String)
    ensures
        r@ == spec_reduce(isbn@),
{
    let v = chars_of(isbn);
    let mut clean: Vec<char> = Vec::new();
    let mut i: usize = 0;
    while i < v.len()
        invariant
            i <= v.len(),
            v@ == isbn@,
            clean@ == strip_char(isbn@.take(i as int), '-'),
        decreases v.len() - i,
    {
        proof {
            assert(isbn@.take(i as int + 1).drop_last() =~= isbn@.take(i as int));
        }
        let c = v[i];
        if c != '-' {
            clean.push(c);
        }
        i = i + 1;
    }
    proof {
        assert(isbn@.take(isbn@.len() as int) =~= isbn@);
    }
    let clean_string = string_of(&clean);
    scrub_alpha_prefix(clean_string.as_str())
}

/// Skips any characters before the first ASCII digit, then collects
/// characters while they are digits or the literal `'X'`.
pub fn scrub_alpha_prefix(string_to_scrub: &str) -> (r: String)
    ensures
        r@ == spec_scrub(string_to_scrub@),
{
    let ghost s = string_to_scrub@;
    let v = chars_of(string_to_scrub);
    let n = v.len();
    proof {
        assert(s.skip(0) =~= s);
    }
    let mut k: usize = 0;
    while k < n && !is_digit_char(v[k])
        invariant
            k <= n,
            n == s.len(),
            v@ == s,
            skip_till_digit(s) == skip_till_digit(s.skip(k as int)),
        decreases n - k,
    {
        proof {
            assert(s.skip(k as int)[0] == s[k as int]);
            assert(s.skip(k as int).drop_first() =~= s.skip(k as int + 1));
        }
        k = k + 1;
    }
    proof {
        if k < n {
            assert(s.skip(k as int)[0] == s[k as int]);
            assert(skip_till_digit(s.skip(k as int)) == s.skip(k as int));
        } else {
            assert(s.skip(k as int) =~= Seq::<char>::empty());
        }
        assert(skip_till_digit(s) == s.skip(k as int));
    }
    let mut out: Vec<char> = Vec::new();
    let mut m: usize = k;
    while m < n && (is_digit_char(v[m]) || v[m] == 'X')
        invariant
            k <= m <= n,
            n == s.len(),
            v@ == s,
            out@ == s.subrange(k as int, m as int),
            dx_prefix(s.skip(k as int)) == out@ + dx_prefix(s.skip(m as int)),
        decreases n - m,
    {
        proof {
            assert(s.skip(m as int)[0] == s[m as int]);
            assert(s.skip(m as int).drop_first() =~= s.skip(m as int + 1));
            assert(dx_prefix(s.skip(m as int)) == seq![s[m as int]] + dx_prefix(
                s.skip(m as int + 1),
            ));
            assert(s.subrange(k as int, m as int).push(s[m as int]) =~= s.subrange(
                k as int,
                m as int + 1,
            ));
            assert(out@.push(s[m as int]) + dx_prefix(s.skip(m as int + 1)) =~= out@ + (seq![
                s[m as int],
            ] + dx_prefix(s.skip(m as int + 1))));
        }
        out.push(v[m]);
        m = m + 1;
    }
    proof {
        if m < n {
            assert(s.skip(m as int)[0] == s[m as int]);
            assert(dx_prefix(s.skip(m as int)) =~= Seq::<char>::empty());
        } else {
            assert(s.skip(m as int) =~= Seq::<char>::empty());
        }
        assert(out@ + dx_prefix(s.skip(m as int)) =~= out@);
        assert(spec_scrub(s) == out@);
    }
    string_of(&out)
}

// ---------------------------------------------------------------------------
// Executable checkdigit arithmetic
// ---------------------------------------------------------------------------

/// Maps a mod-11 residue to its check character: base 11, value 10 as `'X'`.
fn from_digit_to_checkdigit(num: u32) -> (r: char)
    requires
        num <= 10,
    ensures
        r == check_char_11(num as int),
{
    let v = (11 - num) % 11;
    if v == 0 {
        '0'
    } else if v == 1 {
        '1'
    } else if v == 2 {
        '2'
    } else if v == 3 {
        '3'
    } else if v == 4 {
        '4'
    } else if v == 5 {
        '5'
    } else if v == 6 {
        '6'
    } else if v == 7 {
        '7'
    } else if v == 8 {
        '8'
    } else if v == 9 {
        '9'
    } else {
        'X'
    }
}

/// Maps a digit value in `0..=9` to its ASCII digit character.
fn to_digit_char(v: u32) -> (r: char)
    requires
        v <= 9,
    ensures
        r == digit_char(v as int),
{
    if v == 0 {
        '0'
    } else if v == 1 {
        '1'
    } else if v == 2 {
        '2'
    } else if v == 3 {
        '3'
    } else if v == 4 {
        '4'
    } else if v == 5 {
        '5'
    } else if v == 6 {
        '6'
    } else if v == 7 {
        '7'
    } else if v == 8 {
        '8'
    } else {
        '9'
    }
}

/// The 10-digit checkdigit of the basic form of `isbn`.
fn checkdigit_ten(isbn: &str) -> (r: char)
    ensures
        r == checkdigit_ten_of(spec_reduce(isbn@)),
{
    let basic_string = reduce_to_basic(isbn);
    let v = chars_of(basic_string.as_str());
    let ghost b = spec_reduce(isbn@);
    let n = v.len();
    let limit: usize = if n < 9 {
        n
    } else {
        9
    };
    proof {
        if n <= 9 {
            assert(b.take(limit as int) =~= b);
        }
        assert(first_n(b, 9) == b.take(limit as int));
    }
    let mut sum: u32 = 0;
    let mut dc: u32 = 0;
    let mut i: usize = 0;
    while i < limit
        invariant
            i <= limit,
            limit <= 9,
            limit <= n,
            n == b.len(),
            v@ == b,
            dc == digit_vals(b.take(i as int)).len(),
            dc <= i,
            sum == wsum_ten(digit_vals(b.take(i as int))),
            sum <= 90 * dc,
        decreases limit - i,
    {
        proof {
            assert(b.take(i as int + 1).drop_last() =~= b.take(i as int));
            assert(b.take(i as int + 1).last() == b[i as int]);
        }
        let c = v[i];
        if is_digit_char(c) {
            proof {
                let d = digit_vals(b.take(i as int));
                let d2 = digit_vals(b.take(i as int + 1));
                assert(d2 == d.push(digit_val(b[i as int])));
                assert(d2.drop_last() =~= d);
            }
            let dval = c as u32 - 48;
            assert(dval * (10 - dc) <= 90) by (nonlinear_arith)
                requires
                    dval <= 9,
                    dc <= 8,
            ;
            sum = sum + dval * (10 - dc);
            dc = dc + 1;
        }
        i = i + 1;
    }
    let m = sum % 11;
    from_digit_to_checkdigit(m)
}

/// The 13-digit checkdigit of the basic form of `isbn`.
fn checkdigit_thirteen(isbn: &str) -> (r: char)
    ensures
        r == checkdigit_thirteen_of(spec_reduce(isbn@)),
{
    let basic_string = reduce_to_basic(isbn);
    let v = chars_of(basic_string.as_str());
    let ghost b = spec_reduce(isbn@);
    let n = v.len();
    let limit: usize = if n < 12 {
        n
    } else {
        12
    };
    proof {
        if n <= 12 {
            assert(b.take(limit as int) =~= b);
        }
        assert(first_n(b, 12) == b.take(limit as int));
    }
    let mut sum: u32 = 0;
    let mut dc: u32 = 0;
    let mut i: usize = 0;
    while i < limit
        invariant
            i <= limit,
            limit <= 12,
            limit <= n,
            n == b.len(),
            v@ == b,
            dc == digit_vals(b.take(i as int)).len(),
            dc <= i,
            sum == wsum_thirteen(digit_vals(b.take(i as int))),
            sum <= 27 * dc,
        decreases limit - i,
    {
        proof {
            assert(b.take(i as int + 1).drop_last() =~= b.take(i as int));
            assert(b.take(i as int + 1).last() == b[i as int]);
        }
        let c = v[i];
        if is_digit_char(c) {
            proof {
                let d = digit_vals(b.take(i as int));
                let d2 = digit_vals(b.take(i as int + 1));
                assert(d2 == d.push(digit_val(b[i as int])));
                assert(d2.drop_last() =~= d);
            }
            let dval = c as u32 - 48;
            let weight = 1 + (dc % 2) * 2;
            assert(dval * weight <= 27) by (nonlinear_arith)
                requires
                    dval <= 9,
                    weight <= 3,
            ;
            sum = sum + dval * weight;
            dc = dc + 1;
        }
        i = i + 1;
    }
    let m = sum % 10;
    let finished = (10 - m) % 10;
    to_digit_char(finished)
}

// ---------------------------------------------------------------------------
// The ISBN type
// ---------------------------------------------------------------------------

/// An ISBN wrapping its raw identifier string, which may contain hyphens and
/// arbitrary leading text.
pub struct ISBN {
    pub identifier: String,
}

impl ISBN {
    pub fn new(identifier: &str) -> (r: ISBN)
        ensures
            r.identifier@ == identifier@,
    {
        ISBN { identifier: identifier.to_owned() }
    }

    /// The checkdigit of this ISBN, or `None` when its basic form has
    /// neither 10 nor 13 characters.
    pub fn checkdigit(&self) -> (r: Option<char>)
        ensures
            r == spec_isbn_checkdigit(self.identifier@),
    {
        let basic_string = reduce_to_basic(self.identifier.as_str());
        let n = basic_string.as_str().unicode_len();
        if n == 10 {
            Some(checkdigit_ten(self.identifier.as_str()))
        } else if n == 13 {
            Some(checkdigit_thirteen(self.identifier.as_str()))
        } else {
            None
        }
    }
}

impl Valid for ISBN {
    open spec fn spec_valid(&self) -> bool {
        spec_isbn_valid(self.identifier@)
    }

    /// Whether the basic form has length 10 or 13 and ends in its own
    /// checkdigit.
    fn valid(&self) -> (r: bool) {
        let basic_string = reduce_to_basic(self.identifier.as_str());
        let n = basic_string.as_str().unicode_len();
        proof {
            lemma_reduce_idempotent(self.identifier@);
        }
        if n == 10 {
            let c = checkdigit_ten(basic_string.as_str());
            let last = basic_string.as_str().get_char(n - 1);
            c == last
        } else if n == 13 {
            let c = checkdigit_thirteen(basic_string.as_str());
            let last = basic_string.as_str().get_char(n - 1);
            c == last
        } else {
            false
        }
    }
}

impl Normalize for ISBN {
    open spec fn spec_normalize(&self) -> Option<Seq<char>> {
        spec_convert_to_13(self.identifier@)
    }

    /// The normalized form of an ISBN is its 13-digit form.
    fn normalize(&self) -> (r: Option<String>) {
        convert_to_13(self.identifier.as_str())
    }
}

// ---------------------------------------------------------------------------
// Conversions
// ---------------------------------------------------------------------------

/// Converts an ISBN to its corresponding 13-digit form, or `None` when it is
/// not valid.
pub fn convert_to_13(isbn: &str) -> (r: Option<String>)
    ensures
        option_view_eq(r, spec_convert_to_13(isbn@)),
{
    if !ISBN::new(isbn).valid() {
        return None;
    }
    let basic_string = reduce_to_basic(isbn);
    let ghost b = spec_reduce(isbn@);
    let bv = chars_of(basic_string.as_str());
    let n = bv.len();
    if n == 10 {
        let mut p: Vec<char> = Vec::new();
        p.push('9');
        p.push('7');
        p.push('8');
        proof {
            assert(p@ =~= seq!['9', '7', '8'] + b.take(0));
        }
        let mut i: usize = 0;
        while i < 9
            invariant
                i <= 9,
                n == b.len(),
                n == 10,
                bv@ == b,
                p@ == seq!['9', '7', '8'] + b.take(i as int),
            decreases 9 - i,
        {
            p.push(bv[i]);
            proof {
                assert((seq!['9', '7', '8'] + b.take(i as int)).push(b[i as int]) =~= seq![
                    '9',
                    '7',
                    '8',
                ] + b.take(i as int + 1));
            }
            i = i + 1;
        }
        let ghost pseq = seq!['9', '7', '8'] + b.take(9);
        let p_str = string_of(&p);
        let c13 = checkdigit_thirteen(p_str.as_str());
        proof {
            lemma_reduce_chars(isbn@);
            assert forall|j: int| 0 <= j < pseq.len() implies is_digit_or_x(#[trigger] pseq[j]) by {
                if j >= 3 {
                    assert(pseq[j] == b[j - 3]);
                    assert(is_digit_or_x(b[j - 3]));
                }
            }
            assert(is_digit(pseq[0]));
            lemma_reduce_of_basic(pseq);
        }
        let mut result = p_str;
        result.push(c13);
        Some(result)
    } else {
        Some(basic_string)
    }
}

/// Converts an ISBN to its corresponding 10-digit form: `None` when it is
/// not valid, and `None` for a basic form starting `979`, for which no
/// 10-digit equivalent exists.
pub fn convert_to_10(isbn: &str) -> (r: Option<String>)
    ensures
        option_view_eq(r, spec_convert_to_10(isbn@)),
{
    if !ISBN::new(isbn).valid() {
        return None;
    }
    let basic_string = reduce_to_basic(isbn);
    let ghost b = spec_reduce(isbn@);
    let bv = chars_of(basic_string.as_str());
    let n = bv.len();
    if n >= 3 && bv[0] == '9' && bv[1] == '7' && bv[2] == '9' {
        return None;
    }
    if n == 10 {
        Some(basic_string)
    } else {
        let mut tail: Vec<char> = Vec::new();
        proof {
            assert(tail@ =~= b.subrange(3, 3));
        }
        let mut i: usize = 3;
        while i < n
            invariant
                3 <= i <= n,
                n == 13,
                n == b.len(),
                bv@ == b,
                tail@ == b.subrange(3, i as int),
            decreases n - i,
        {
            proof {
                assert(b.subrange(3, i as int).push(b[i as int]) =~= b.subrange(3, i as int + 1));
            }
            tail.push(bv[i]);
            i = i + 1;
        }
        let tail_str = string_of(&tail);
        let c10 = checkdigit_ten(tail_str.as_str());
        proof {
            assert(b.subrange(3, 13) =~= b.skip(3));
        }
        let mut out: Vec<char> = Vec::new();
        proof {
            assert(out@ =~= b.subrange(3, 3));
        }
        let mut j: usize = 3;
        while j < 12
            invariant
                3 <= j <= 12,
                n == 13,
                n == b.len(),
                bv@ == b,
                out@ == b.subrange(3, j as int),
            decreases 12 - j,
        {
            proof {
                assert(b.subrange(3, j as int).push(b[j as int]) =~= b.subrange(3, j as int + 1));
            }
            out.push(bv[j]);
            j = j + 1;
        }
        out.push(c10);
        Some(string_of(&out))
    }
}

// ---------------------------------------------------------------------------
// Laws
// ---------------------------------------------------------------------------

/// An ISBN whose basic form has neither 10 nor 13 characters is never valid
/// and has no checkdigit.
pub proof fn lemma_isbn_wrong_length(s: Seq<char>)
    requires
        spec_reduce(s).len() != 10,
        spec_reduce(s).len() != 13,
    ensures
        !spec_isbn_valid(s),
        spec_isbn_checkdigit(s) is None,
{
}

/// The 13-digit form of a valid ISBN with a 10-character basic form is a
/// valid basic form itself: 13 digit-or-`'X'` characters starting `978`,
/// ending in its own 13-digit checkdigit, and fixed by reduction.
proof fn lemma_prefixed_13_form(s: Seq<char>)
    requires
        spec_isbn_valid(s),
        spec_reduce(s).len() == 10,
    ensures
        ({
            let b = spec_reduce(s);
            let p = seq!['9', '7', '8'] + b.take(9);
            let t = p.push(checkdigit_thirteen_of(p));
            spec_convert_to_13(s) == Option::Some(t) && t.len() == 13 && spec_reduce(t) == t
                && checkdigit_thirteen_of(t) == t.last() && spec_isbn_valid(t) && t[0] == '9'
                && t[1] == '7' && t[2] == '8'
        }),
{
    let b = spec_reduce(s);
    lemma_reduce_chars(s);
    let p = seq!['9', '7', '8'] + b.take(9);
    let t = p.push(checkdigit_thirteen_of(p));
    assert(first_n(p, 12) == p);
    assert(is_digit(digit_char((10 - wsum_thirteen(digit_vals(p)) % 10) % 10)));
    assert forall|i: int| 0 <= i < t.len() implies is_digit_or_x(#[trigger] t[i]) by {
        if 3 <= i < 12 {
            assert(t[i] == b[i - 3]);
            assert(is_digit_or_x(b[i - 3]));
        }
    }
    assert(is_digit(t[0]));
    lemma_reduce_of_basic(t);
    assert(first_n(t, 12) =~= p);
    assert(checkdigit_thirteen_of(t) == checkdigit_thirteen_of(p));
}

/// Round trip: a valid ISBN with a 10-character basic form converts to a
/// 13-digit form, back to exactly its basic form, and to the same 13-digit
/// form again. (A form produced this way starts `978`, so the missing
/// `979` inverse never arises here.)
pub proof fn lemma_isbn_round_trip(s: Seq<char>)
    requires
        spec_isbn_valid(s),
        spec_reduce(s).len() == 10,
    ensures
        spec_convert_to_13(s) is Some,
        spec_convert_to_10(spec_convert_to_13(s).unwrap()) == Option::Some(spec_reduce(s)),
        spec_convert_to_13(spec_convert_to_10(spec_convert_to_13(s).unwrap()).unwrap())
            == spec_convert_to_13(s),
{
    let b = spec_reduce(s);
    lemma_reduce_chars(s);
    lemma_prefixed_13_form(s);
    let p = seq!['9', '7', '8'] + b.take(9);
    let t = p.push(checkdigit_thirteen_of(p));
    let tail = t.skip(3);
    assert(tail =~= b.take(9).push(t.last()));
    assert forall|i: int| 0 <= i < tail.len() implies is_digit_or_x(#[trigger] tail[i]) by {
        assert(tail[i] == t[i + 3]);
        assert(is_digit_or_x(t[i + 3]));
    }
    assert(tail[0] == b[0]);
    assert(is_digit(tail[0]));
    lemma_reduce_of_basic(tail);
    assert(first_n(tail, 9) =~= b.take(9));
    assert(first_n(b, 9) == b.take(9));
    assert(checkdigit_ten_of(tail) == checkdigit_ten_of(b));
    assert(checkdigit_ten_of(b) == b.last());
    assert(t.subrange(3, 12) =~= b.take(9));
    assert(t.subrange(3, 12).push(checkdigit_ten_of(spec_reduce(t.skip(3)))) =~= b);
    assert(spec_convert_to_10(t) == Option::Some(b));
    lemma_reduce_of_basic(b);
    assert(spec_isbn_valid(b));
    assert(spec_convert_to_13(b) == Option::Some(t));
}

/// Normalization to the 13-digit form is idempotent: renormalizing the
/// produced form yields it unchanged.
pub proof fn lemma_isbn_normalize_idempotent(s: Seq<char>)
    requires
        spec_convert_to_13(s) is Some,
    ensures
        spec_convert_to_13(spec_convert_to_13(s).unwrap()) == spec_convert_to_13(s),
{
    let b = spec_reduce(s);
    lemma_reduce_chars(s);
    if b.len() == 10 {
        lemma_prefixed_13_form(s);
        let p = seq!['9', '7', '8'] + b.take(9);
        let t = p.push(checkdigit_thirteen_of(p));
        assert(spec_convert_to_13(t) == Option::Some(t));
    } else {
        lemma_reduce_of_basic(b);
        assert(spec_convert_to_13(b) == Option::Some(b));
    }
}

} // verus!
