//! Character classes and sequence transformations shared by the identifier
//! modules, together with the small executable helpers that move between
//! `String` values and `Vec<char>` buffers.

use vstd::prelude::*;
use vstd::string::StrSliceExecFns;

verus! {

// ---------------------------------------------------------------------------
// Character classes
// ---------------------------------------------------------------------------

/// An ASCII decimal digit `'0'..='9'`.
pub open spec fn is_digit(c: char) -> bool {
    48 <= c as u32 && c as u32 <= 57
}

/// An ASCII letter `'a'..='z'` or `'A'..='Z'`.
pub open spec fn is_alpha(c: char) -> bool {
    (65 <= c as u32 && c as u32 <= 90) || (97 <= c as u32 && c as u32 <= 122)
}

/// An ASCII digit or the literal check character `'X'`.
pub open spec fn is_digit_or_x(c: char) -> bool {
    is_digit(c) || c == 'X'
}

/// A Unicode whitespace character (the `White_Space` property).
pub open spec fn is_ws(c: char) -> bool {
    let u = c as u32;
    (9 <= u && u <= 13) || u == 32 || u == 0x85 || u == 0xA0 || u == 0x1680 || (0x2000 <= u
        && u <= 0x200A) || u == 0x2028 || u == 0x2029 || u == 0x202F || u == 0x205F || u == 0x3000
}

/// The numeric value of an ASCII digit character.
pub open spec fn digit_val(c: char) -> int {
    c as u32 - 48
}

/// The ASCII digit character for a value in `0..=9`.
pub open spec fn digit_char(v: int) -> char {
    if v == 0 {
        '0'
    } else if v == 1 {
        '1'
    } else if v == 2 {
        '2'
    } else if v == 3 {
        '3'
    } else if v == 4 {
        '4'
    } else if v == 5 {
        '5'
    } else if v == 6 {
        '6'
    } else if v == 7 {
        '7'
    } else if v == 8 {
        '8'
    } else {
        '9'
    }
}

/// The mod-11 check character for a weighted sum residue `m` in `0..=10`:
/// `(11 - m) % 11` rendered in base 11, with the value 10 written `'X'`.
pub open spec fn check_char_11(m: int) -> char {
    let v = (11 - m) % 11;
    if v == 10 {
        'X'
    } else {
        digit_char(v)
    }
}

pub fn is_digit_char(c: char) -> (r: bool)
    ensures
        r == is_digit(c),
{
    let u = c as u32;
    48 <= u && u <= 57
}

pub fn is_alpha_char(c: char) -> (r: bool)
    ensures
        r == is_alpha(c),
{
    let u = c as u32;
    (65 <= u && u <= 90) || (97 <= u && u <= 122)
}

pub fn is_ws_char(c: char) -> (r: bool)
    ensures
        r == is_ws(c),
{
    let u = c as u32;
    (9 <= u && u <= 13) || u == 32 || u == 0x85 || u == 0xA0 || u == 0x1680 || (0x2000 <= u
        && u <= 0x200A) || u == 0x2028 || u == 0x2029 || u == 0x202F || u == 0x205F || u == 0x3000
}

// ---------------------------------------------------------------------------
// Sequence transformations
// ---------------------------------------------------------------------------

/// `s` with every occurrence of `ban` removed.
pub open spec fn strip_char(s: Seq<char>, ban: char) -> Seq<char>
    decreases s.len(),
{
    if s.len() == 0 {
        Seq::empty()
    } else {
        let pre = strip_char(s.drop_last(), ban);
        if s.last() == ban {
            pre
        } else {
            pre.push(s.last())
        }
    }
}

/// `s` with every whitespace character removed.
pub open spec fn strip_ws(s: Seq<char>) -> Seq<char>
    decreases s.len(),
{
    if s.len() == 0 {
        Seq::empty()
    } else {
        let pre = strip_ws(s.drop_last());
        if is_ws(s.last()) {
            pre
        } else {
            pre.push(s.last())
        }
    }
}

/// `s` with every lowercase `'x'` replaced by `'X'`.
pub open spec fn upper_x(s: Seq<char>) -> Seq<char> {
    Seq::new(s.len(), |i: int| if s[i] == 'x' { 'X' } else { s[i] })
}

/// The numeric values of the ASCII digits of `s`, in order, with every
/// non-digit character dropped.
pub open spec fn digit_vals(s: Seq<char>) -> Seq<int>
    decreases s.len(),
{
    if s.len() == 0 {
        Seq::empty()
    } else {
        let pre = digit_vals(s.drop_last());
        if is_digit(s.last()) {
            pre.push(digit_val(s.last()))
        } else {
            pre
        }
    }
}

/// The first `n` elements of `s`, or all of `s` if it is shorter.
pub open spec fn first_n(s: Seq<char>, n: int) -> Seq<char> {
    if s.len() <= n {
        s
    } else {
        s.take(n)
    }
}

/// The longest prefix of `s` that contains no `stop` character.
pub open spec fn take_till(s: Seq<char>, stop: char) -> Seq<char>
    decreases s.len(),
{
    if s.len() == 0 {
        Seq::empty()
    } else if s[0] == stop {
        Seq::empty()
    } else {
        seq![s[0]] + take_till(s.drop_first(), stop)
    }
}

/// Everything after the first `stop` character of `s`, or empty if `s`
/// contains none.
pub open spec fn skip_past(s: Seq<char>, stop: char) -> Seq<char>
    decreases s.len(),
{
    if s.len() == 0 {
        Seq::empty()
    } else if s[0] == stop {
        s.drop_first()
    } else {
        skip_past(s.drop_first(), stop)
    }
}

/// The suffix of `s` starting at its first ASCII digit, or empty if `s`
/// contains no digit.
pub open spec fn skip_till_digit(s: Seq<char>) -> Seq<char>
    decreases s.len(),
{
    if s.len() == 0 {
        Seq::empty()
    } else if is_digit(s[0]) {
        s
    } else {
        skip_till_digit(s.drop_first())
    }
}

/// The longest prefix of `s` whose characters are all digits or `'X'`.
pub open spec fn dx_prefix(s: Seq<char>) -> Seq<char>
    decreases s.len(),
{
    if s.len() == 0 {
        Seq::empty()
    } else if is_digit_or_x(s[0]) {
        seq![s[0]] + dx_prefix(s.drop_first())
    } else {
        Seq::empty()
    }
}

/// Whether `c` occurs anywhere in `s`.
pub open spec fn has_char(s: Seq<char>, c: char) -> bool {
    exists|i: int| 0 <= i < s.len() && s[i] == c
}

// ---------------------------------------------------------------------------
// Lemmas
// ---------------------------------------------------------------------------

/// Stripping a character that does not occur leaves the sequence unchanged.
pub proof fn lemma_strip_char_id(s: Seq<char>, ban: char)
    requires
        forall|i: int| 0 <= i < s.len() ==> s[i] != ban,
    ensures
        strip_char(s, ban) == s,
    decreases s.len(),
{
    if s.len() > 0 {
        lemma_strip_char_id(s.drop_last(), ban);
        assert(strip_char(s.drop_last(), ban).push(s.last()) =~= s);
    }
}

/// Stripping whitespace from a whitespace-free sequence leaves it unchanged.
pub proof fn lemma_strip_ws_id(s: Seq<char>)
    requires
        forall|i: int| 0 <= i < s.len() ==> !is_ws(s[i]),
    ensures
        strip_ws(s) == s,
    decreases s.len(),
{
    if s.len() > 0 {
        lemma_strip_ws_id(s.drop_last());
        assert(strip_ws(s.drop_last()).push(s.last()) =~= s);
    }
}

/// Whitespace stripping leaves no whitespace character behind.
pub proof fn lemma_strip_ws_chars(s: Seq<char>)
    ensures
        forall|i: int| 0 <= i < strip_ws(s).len() ==> !is_ws(#[trigger] strip_ws(s)[i]),
    decreases s.len(),
{
    if s.len() > 0 {
        lemma_strip_ws_chars(s.drop_last());
        let pre = strip_ws(s.drop_last());
        if !is_ws(s.last()) {
            assert forall|i: int| 0 <= i < strip_ws(s).len() implies !is_ws(
                #[trigger] strip_ws(s)[i],
            ) by {
                if i < pre.len() {
                    assert(strip_ws(s)[i] == pre[i]);
                } else {
                    assert(strip_ws(s)[i] == s.last());
                }
            }
        }
    }
}

/// A sequence of digits and `'X'` characters is its own longest such prefix.
pub proof fn lemma_dx_prefix_all(s: Seq<char>)
    requires
        forall|i: int| 0 <= i < s.len() ==> is_digit_or_x(s[i]),
    ensures
        dx_prefix(s) == s,
    decreases s.len(),
{
    if s.len() > 0 {
        assert(is_digit_or_x(s[0]));
        lemma_dx_prefix_all(s.drop_first());
        assert(seq![s[0]] + s.drop_first() =~= s);
    }
}

/// A `stop`-free sequence is its own longest `stop`-free prefix.
pub proof fn lemma_take_till_all(s: Seq<char>, stop: char)
    requires
        forall|i: int| 0 <= i < s.len() ==> s[i] != stop,
    ensures
        take_till(s, stop) == s,
    decreases s.len(),
{
    if s.len() > 0 {
        assert(s[0] != stop);
        lemma_take_till_all(s.drop_first(), stop);
        assert(seq![s[0]] + s.drop_first() =~= s);
    }
}

/// The longest `stop`-free prefix is a prefix, contains no `stop`, and is
/// followed by `stop` unless it is the whole sequence; what `skip_past`
/// returns is the matching remainder.
pub proof fn lemma_take_till_shape(s: Seq<char>, stop: char)
    ensures
        take_till(s, stop).len() <= s.len(),
        take_till(s, stop) == s.take(take_till(s, stop).len() as int),
        forall|j: int| 0 <= j < take_till(s, stop).len() ==> s[j] != stop,
        take_till(s, stop).len() < s.len() ==> s[take_till(s, stop).len() as int] == stop,
        take_till(s, stop).len() < s.len() ==> skip_past(s, stop) == s.skip(
            take_till(s, stop).len() as int + 1,
        ),
        take_till(s, stop).len() == s.len() ==> skip_past(s, stop) == Seq::<char>::empty(),
    decreases s.len(),
{
    if s.len() == 0 {
        assert(take_till(s, stop) =~= s.take(0));
    } else if s[0] == stop {
        assert(take_till(s, stop) =~= s.take(0));
        assert(skip_past(s, stop) =~= s.skip(1));
    } else {
        lemma_take_till_shape(s.drop_first(), stop);
        let sub = take_till(s.drop_first(), stop);
        let t = take_till(s, stop);
        assert(t == seq![s[0]] + sub);
        assert(t.len() == 1 + sub.len());
        assert(t =~= s.take(t.len() as int)) by {
            assert(sub == s.drop_first().take(sub.len() as int));
        }
        assert forall|j: int| 0 <= j < t.len() implies s[j] != stop by {
            if j > 0 {
                assert(s.drop_first()[j - 1] != stop);
            }
        }
        if t.len() < s.len() {
            assert(s.drop_first()[sub.len() as int] == stop);
            if sub.len() + 1 < s.len() {
                assert(skip_past(s, stop) == s.drop_first().skip(sub.len() as int + 1));
                assert(s.drop_first().skip(sub.len() as int + 1) =~= s.skip(t.len() as int + 1));
            }
        } else {
            assert(sub.len() == s.drop_first().len());
        }
    }
}

/// The suffix returned by `skip_till_digit` begins with a digit.
pub proof fn lemma_skip_till_digit_first(s: Seq<char>)
    ensures
        skip_till_digit(s).len() > 0 ==> is_digit(skip_till_digit(s)[0]),
    decreases s.len(),
{
    if s.len() > 0 && !is_digit(s[0]) {
        lemma_skip_till_digit_first(s.drop_first());
    }
}

/// Every character of the digit-or-`'X'` prefix is a digit or `'X'`, and its
/// first character is the first character of its argument.
pub proof fn lemma_dx_prefix_chars(s: Seq<char>)
    ensures
        forall|i: int| 0 <= i < dx_prefix(s).len() ==> is_digit_or_x(#[trigger] dx_prefix(s)[i]),
        dx_prefix(s).len() > 0 ==> dx_prefix(s)[0] == s[0],
    decreases s.len(),
{
    if s.len() > 0 && is_digit_or_x(s[0]) {
        lemma_dx_prefix_chars(s.drop_first());
        assert forall|i: int| 0 <= i < dx_prefix(s).len() implies is_digit_or_x(
            #[trigger] dx_prefix(s)[i],
        ) by {
            if i > 0 {
                assert(dx_prefix(s)[i] == dx_prefix(s.drop_first())[i - 1]);
            }
        }
    }
}

// ---------------------------------------------------------------------------
// Executable string helpers
// ---------------------------------------------------------------------------

/// Relies on `String::push`: appends the given character to the end of the
/// string.
pub assume_specification[ String::push ](s: &mut String, ch: char)
    ensures
        final(s)@ == old(s)@.push(ch),
;

/// The characters of `s`, in order, as a vector.
pub fn chars_of(s: &str) -> (r: Vec<char>)
    ensures
        r@ == s@,
{
    let n: usize = s.unicode_len();
    let mut r: Vec<char> = Vec::new();
    let mut i: usize = 0;
    while i < n
        invariant
            i <= n,
            n == s@.len(),
            r@ == s@.take(i as int),
        decreases n - i,
    {
        let c = s.get_char(i);
        r.push(c);
        proof {
            assert(s@.take(i as int).push(s@[i as int]) =~= s@.take(i + 1));
        }
        i = i + 1;
    }
    proof {
        assert(s@.take(n as int) =~= s@);
    }
    r
}

/// The characters of `v` collected into an owned string.
pub fn string_of(v: &Vec<char>) -> (r: String)
    ensures
        r@ == v@,
{
    let mut r = String::new();
    let mut i: usize = 0;
    while i < v.len()
        invariant
            i <= v.len(),
            r@ == v@.take(i as int),
        decreases v.len() - i,
    {
        r.push(v[i]);
        proof {
            assert(v@.take(i as int).push(v@[i as int]) =~= v@.take(i + 1));
        }
        i = i + 1;
    }
    proof {
        assert(v@.take(v@.len() as int) =~= v@);
    }
    r
}

} // verus!
