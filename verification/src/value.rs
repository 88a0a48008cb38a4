//! Classification of a trimmed right-hand side into one of four value kinds:
//! a 32-bit integer, a float (kept as its text), a bare alphabetic word, or a
//! quoted string.  The kinds are tried in that fixed order; the first match
//! wins, and a value that matches none of them is rejected.

use vstd::prelude::*;
use vstd::string::StrSliceExecFns;
use vstd::string::StringExecFns;
use crate::text::count_char;
use crate::text::lemma_prefix_len;
use crate::text::lemma_prefix_len_is;
use crate::text::prefix_len;

verus! {

pub open spec fn is_digit(c: char) -> bool {
    0x30 <= c as int && c as int <= 0x39
}

pub open spec fn digit_val(c: char) -> int {
    c as int - 0x30
}

pub open spec fn all_digits(s: Seq<char>) -> bool {
    forall|i: int| 0 <= i < s.len() ==> is_digit(s[i])
}

/// The number denoted by a sequence of decimal digits, most significant first.
pub open spec fn digits_val(s: Seq<char>) -> int
    decreases s.len(),
{
    if s.len() == 0 {
        0
    } else {
        10 * digits_val(s.drop_last()) + digit_val(s.last())
    }
}

/// `s` without one leading `+` or `-`, if it has one.
pub open spec fn sign_stripped(s: Seq<char>) -> Seq<char> {
    if s.len() > 0 && (s[0] == '+' || s[0] == '-') {
        s.skip(1)
    } else {
        s
    }
}

/// An optional sign followed by at least one decimal digit.
pub open spec fn is_sign_digits(s: Seq<char>) -> bool {
    sign_stripped(s).len() > 0 && all_digits(sign_stripped(s))
}

/// The signed number denoted by `s`, meaningful when `is_sign_digits(s)`.
pub open spec fn int_text_value(s: Seq<char>) -> int {
    if s.len() > 0 && s[0] == '-' {
        -digits_val(s.skip(1))
    } else {
        digits_val(sign_stripped(s))
    }
}

/// Exactly the texts that `i32::from_str` accepts: an optional sign, digits,
/// and a value within the signed 32-bit range.
pub open spec fn is_int_text(s: Seq<char>) -> bool {
    is_sign_digits(s) && -0x8000_0000 <= int_text_value(s) && int_text_value(s) <= 0x7fff_ffff
}

pub proof fn lemma_all_digits_take(t: Seq<char>, k: int)
    requires
        all_digits(t),
        0 <= k <= t.len(),
    ensures
        all_digits(t.take(k)),
{
    assert forall|i: int| 0 <= i < t.take(k).len() implies is_digit(t.take(k)[i]) by {
        assert(t.take(k)[i] == t[i]);
    }
}

pub proof fn lemma_digits_val_nonneg(t: Seq<char>)
    requires
        all_digits(t),
    ensures
        digits_val(t) >= 0,
    decreases t.len(),
{
    if t.len() > 0 {
        lemma_all_digits_take(t, t.len() - 1);
        assert(t.take(t.len() - 1) =~= t.drop_last());
        lemma_digits_val_nonneg(t.drop_last());
        assert(is_digit(t.last()));
    }
}

/// Appending further digits can only grow a digit string's value.
pub proof fn lemma_digits_val_take(t: Seq<char>, k: int)
    requires
        all_digits(t),
        0 <= k <= t.len(),
    ensures
        0 <= digits_val(t.take(k)) <= digits_val(t),
    decreases t.len() - k,
{
    if k == t.len() {
        assert(t.take(k) =~= t);
        lemma_digits_val_nonneg(t);
    } else {
        lemma_digits_val_take(t, k + 1);
        assert(t.take(k + 1).drop_last() =~= t.take(k));
        assert(t.take(k + 1).last() == t[k]);
        lemma_all_digits_take(t, k);
        lemma_digits_val_nonneg(t.take(k));
        assert(is_digit(t[k]));
    }
}

pub fn is_digit_char(c: char) -> (r: bool)
    ensures
        r == is_digit(c),
{
    let u = c as u32;
    0x30 <= u && u <= 0x39
}

/// The value of `s` as a 32-bit integer, or nothing where `i32::from_str`
/// would reject it.
pub fn try_parse_i32(s: &str) -> (r: Option<i32>)
    ensures
        match r {
            Some(n) => is_int_text(s@) && n as int == int_text_value(s@),
            None => !is_int_text(s@),
        },
{
    let len = s.unicode_len();
    if len == 0 {
        return None;
    }
    let c0 = s.get_char(0);
    let neg = c0 == '-';
    let start: usize = if c0 == '-' || c0 == '+' {
        1
    } else {
        0
    };
    if start >= len {
        return None;
    }
    let ghost body = sign_stripped(s@);
    proof {
        if start == 0 {
            assert(body =~= s@.skip(0));
        }
    }
    let mut i: usize = start;
    let mut acc: u64 = 0;
    while i < len
        invariant
            start <= i <= len,
            len == s@.len(),
            start == 1 <==> (s@[0] == '-' || s@[0] == '+'),
            start == 0 || start == 1,
            body == s@.skip(start as int),
            body == sign_stripped(s@),
            body.len() == len - start,
            all_digits(body.take(i - start)),
            acc as int == digits_val(body.take(i - start)),
            acc <= 0x8000_0000,
        decreases len - i,
    {
        let c = s.get_char(i);
        if !is_digit_char(c) {
            proof {
                assert(body[i - start] == s@[i as int]);
            }
            return None;
        }
        let u = c as u32;
        proof {
            assert(body.take(i - start + 1).drop_last() =~= body.take(i - start));
            assert(body.take(i - start + 1)[i - start] == body[i - start]);
            assert(body[i - start] == s@[i as int]);
        }
        acc = acc * 10 + ((u - 0x30) as u64);
        i += 1;
        if acc > 0x8000_0000 {
            proof {
                let k = (i - start) as int;
                if all_digits(body) {
                    lemma_digits_val_take(body, k);
                }
            }
            return None;
        }
    }
    proof {
        assert(body.take((len - start) as int) =~= body);
    }
    if neg {
        let v: i64 = -(acc as i64);
        proof {
            assert(s@[0] == '-');
            assert(body =~= s@.skip(1));
        }
        Some(v as i32)
    } else {
        if acc > 0x7fff_ffff {
            return None;
        }
        Some(acc as i32)
    }
}

pub open spec fn is_exp_char(c: char) -> bool {
    c == 'e' || c == 'E'
}

pub open spec fn exp_pred() -> spec_fn(char) -> bool {
    |c: char| is_exp_char(c)
}

pub open spec fn is_dot_digit(c: char) -> bool {
    is_digit(c) || c == '.'
}

pub open spec fn has_digit(s: Seq<char>) -> bool {
    exists|i: int| 0 <= i < s.len() && is_digit(s[i])
}

/// The part of a float before any exponent: digits with at most one point,
/// and at least one digit.
pub open spec fn mantissa_ok(m: Seq<char>) -> bool {
    m.len() > 0 && (forall|i: int| 0 <= i < m.len() ==> is_dot_digit(m[i])) && count_char(m, '.')
        <= 1 && has_digit(m)
}

/// `c` equals the lower-case letter `l`, ignoring ASCII case.
pub open spec fn eq_ignore_case(c: char, l: char) -> bool {
    c == l || c as int + 0x20 == l as int
}

/// The spellings `inf`, `infinity` and `nan`, in any mix of case.
pub open spec fn is_special_float(t: Seq<char>) -> bool {
    (t.len() == 3 && eq_ignore_case(t[0], 'i') && eq_ignore_case(t[1], 'n') && eq_ignore_case(
        t[2],
        'f',
    )) || (t.len() == 8 && eq_ignore_case(t[0], 'i') && eq_ignore_case(t[1], 'n')
        && eq_ignore_case(t[2], 'f') && eq_ignore_case(t[3], 'i') && eq_ignore_case(t[4], 'n')
        && eq_ignore_case(t[5], 'i') && eq_ignore_case(t[6], 't') && eq_ignore_case(t[7], 'y'))
        || (t.len() == 3 && eq_ignore_case(t[0], 'n') && eq_ignore_case(t[1], 'a')
        && eq_ignore_case(t[2], 'n'))
}

/// A mantissa, optionally followed by `e` or `E` and a signed digit string.
pub open spec fn number_ok(t: Seq<char>) -> bool {
    let e = prefix_len(t, exp_pred());
    if e < t.len() {
        mantissa_ok(t.take(e)) && is_sign_digits(t.skip(e + 1))
    } else {
        mantissa_ok(t)
    }
}

/// Exactly the texts that `f32::from_str` accepts, read off the grammar that
/// its documentation states: an optional sign, then one of the special
/// spellings or a number with an optional exponent.
pub open spec fn is_float_text(s: Seq<char>) -> bool {
    is_special_float(sign_stripped(s)) || number_ok(sign_stripped(s))
}

fn eq_ci_char(c: char, l: char) -> (r: bool)
    ensures
        r == eq_ignore_case(c, l),
{
    c == l || (c as u32) + 0x20 == (l as u32)
}

fn is_special_str(t: &str) -> (r: bool)
    ensures
        r == is_special_float(t@),
{
    let len = t.unicode_len();
    if len == 3 {
        let c0 = t.get_char(0);
        let c1 = t.get_char(1);
        let c2 = t.get_char(2);
        (eq_ci_char(c0, 'i') && eq_ci_char(c1, 'n') && eq_ci_char(c2, 'f')) || (eq_ci_char(
            c0,
            'n',
        ) && eq_ci_char(c1, 'a') && eq_ci_char(c2, 'n'))
    } else if len == 8 {
        eq_ci_char(t.get_char(0), 'i') && eq_ci_char(t.get_char(1), 'n') && eq_ci_char(
            t.get_char(2),
            'f',
        ) && eq_ci_char(t.get_char(3), 'i') && eq_ci_char(t.get_char(4), 'n') && eq_ci_char(
            t.get_char(5),
            'i',
        ) && eq_ci_char(t.get_char(6), 't') && eq_ci_char(t.get_char(7), 'y')
    } else {
        false
    }
}

fn mantissa_ok_str(m: &str) -> (r: bool)
    ensures
        r == mantissa_ok(m@),
{
    let len = m.unicode_len();
    if len == 0 {
        return false;
    }
    let mut dots: usize = 0;
    let mut digit_seen = false;
    let mut i: usize = 0;
    while i < len
        invariant
            i <= len,
            len == m@.len(),
            forall|j: int| 0 <= j < i ==> is_dot_digit(m@[j]),
            dots as int == count_char(m@.take(i as int), '.'),
            digit_seen == has_digit(m@.take(i as int)),
            dots <= i,
        decreases len - i,
    {
        let c = m.get_char(i);
        proof {
            assert(m@.take(i + 1).drop_last() =~= m@.take(i as int));
            assert(m@.take(i + 1)[i as int] == m@[i as int]);
        }
        if is_digit_char(c) {
            digit_seen = true;
            proof {
                assert(is_digit(m@.take(i + 1)[i as int]));
            }
        } else if c == '.' {
            dots += 1;
            proof {
                if has_digit(m@.take(i + 1)) {
                    let j = choose|j: int|
                        0 <= j < m@.take(i + 1).len() && #[trigger] is_digit(m@.take(i + 1)[j]);
                    if j < i {
                        assert(is_digit(m@.take(i as int)[j]));
                    }
                }
            }
        } else {
            return false;
        }
        proof {
            if has_digit(m@.take(i as int)) {
                let j = choose|j: int|
                    0 <= j < m@.take(i as int).len() && #[trigger] is_digit(m@.take(i as int)[j]);
                assert(is_digit(m@.take(i + 1)[j]));
            }
        }
        i += 1;
    }
    proof {
        assert(m@.take(len as int) =~= m@);
    }
    digit_seen && dots <= 1
}

fn is_sign_digits_str(x: &str) -> (r: bool)
    ensures
        r == is_sign_digits(x@),
{
    let len = x.unicode_len();
    if len == 0 {
        return false;
    }
    let c0 = x.get_char(0);
    let start: usize = if c0 == '-' || c0 == '+' {
        1
    } else {
        0
    };
    if start >= len {
        return false;
    }
    let ghost body = sign_stripped(x@);
    proof {
        if start == 0 {
            assert(body =~= x@.skip(0));
        }
    }
    let mut i: usize = start;
    while i < len
        invariant
            start <= i <= len,
            len == x@.len(),
            start == 0 || start == 1,
            body == x@.skip(start as int),
            body == sign_stripped(x@),
            body.len() == len - start,
            all_digits(body.take(i - start)),
        decreases len - i,
    {
        let c = x.get_char(i);
        if !is_digit_char(c) {
            proof {
                assert(body[i - start] == x@[i as int]);
            }
            return false;
        }
        proof {
            assert(body.take(i - start + 1).drop_last() =~= body.take(i - start));
            assert(body.take(i - start + 1)[i - start] == body[i - start]);
            assert(body[i - start] == x@[i as int]);
        }
        i += 1;
    }
    proof {
        assert(body.take((len - start) as int) =~= body);
    }
    true
}

/// Whether `f32::from_str` would accept `s`, decided by the grammar from its
/// documentation.
pub fn is_float_str(s: &str) -> (r: bool)
    ensures
        r == is_float_text(s@),
{
    let len = s.unicode_len();
    if len == 0 {
        return false;
    }
    let c0 = s.get_char(0);
    let start: usize = if c0 == '-' || c0 == '+' {
        1
    } else {
        0
    };
    let t = s.substring_char(start, len);
    proof {
        if start == 0 {
            assert(s@.subrange(0, len as int) =~= s@);
            assert(t@ =~= sign_stripped(s@));
        } else {
            assert(s@.subrange(1, len as int) =~= s@.skip(1));
            assert(t@ =~= sign_stripped(s@));
        }
    }
    let tlen = len - start;
    if is_special_str(t) {
        return true;
    }
    let mut e: usize = 0;
    loop
        invariant_except_break
            e <= tlen,
            tlen == t@.len(),
            forall|j: int| 0 <= j < e ==> !is_exp_char(t@[j]),
        ensures
            e <= tlen,
            tlen == t@.len(),
            forall|j: int| 0 <= j < e ==> !is_exp_char(t@[j]),
            e < tlen ==> is_exp_char(t@[e as int]),
        decreases tlen - e,
    {
        if e >= tlen {
            break;
        }
        let c = t.get_char(e);
        if c == 'e' || c == 'E' {
            break;
        }
        e += 1;
    }
    proof {
        lemma_prefix_len_is(t@, exp_pred(), e as int);
    }
    if e < tlen {
        let m = t.substring_char(0, e);
        let x = t.substring_char(e + 1, tlen);
        proof {
            assert(m@ =~= t@.take(e as int));
            assert(x@ =~= t@.skip(e + 1));
        }
        mantissa_ok_str(m) && is_sign_digits_str(x)
    } else {
        proof {
            assert(t@.take(e as int) =~= t@);
        }
        mantissa_ok_str(t)
    }
}


/// A bare word: non-empty, every character an ASCII letter.  Such a word can
/// hold no white space and no digit, so this is the whole of the rule.
pub open spec fn is_alpha(c: char) -> bool {
    (0x41 <= c as int && c as int <= 0x5A) || (0x61 <= c as int && c as int <= 0x7A)
}

pub open spec fn is_literal_text(s: Seq<char>) -> bool {
    s.len() > 0 && forall|i: int| 0 <= i < s.len() ==> is_alpha(s[i])
}

/// A quoted string: at least two characters, a double quote at each end, and
/// no further quote in between.
pub open spec fn is_quoted_text(s: Seq<char>) -> bool {
    s.len() >= 2 && s[0] == '"' && s[s.len() - 1] == '"' && count_char(s, '"') == 2
}

/// The text between the two delimiting quotes.
pub open spec fn quoted_inner(s: Seq<char>) -> Seq<char> {
    s.subrange(1, s.len() - 1)
}

pub fn is_alpha_char(c: char) -> (r: bool)
    ensures
        r == is_alpha(c),
{
    let u = c as u32;
    (0x41 <= u && u <= 0x5A) || (0x61 <= u && u <= 0x7A)
}

pub fn is_literal_str(s: &str) -> (r: bool)
    ensures
        r == is_literal_text(s@),
{
    let len = s.unicode_len();
    if len == 0 {
        return false;
    }
    let mut i: usize = 0;
    while i < len
        invariant
            i <= len,
            len == s@.len(),
            forall|j: int| 0 <= j < i ==> is_alpha(s@[j]),
        decreases len - i,
    {
        if !is_alpha_char(s.get_char(i)) {
            return false;
        }
        i += 1;
    }
    true
}

pub fn is_quoted_str(s: &str) -> (r: bool)
    ensures
        r == is_quoted_text(s@),
{
    let len = s.unicode_len();
    if len < 2 {
        return false;
    }
    if s.get_char(0) != '"' {
        return false;
    }
    if s.get_char(len - 1) != '"' {
        return false;
    }
    let mut quotes: usize = 0;
    let mut i: usize = 0;
    while i < len
        invariant
            i <= len,
            len == s@.len(),
            quotes <= i,
            quotes as int == count_char(s@.take(i as int), '"'),
        decreases len - i,
    {
        proof {
            assert(s@.take(i + 1).drop_last() =~= s@.take(i as int));
            assert(s@.take(i + 1)[i as int] == s@[i as int]);
        }
        if s.get_char(i) == '"' {
            quotes += 1;
        }
        i += 1;
    }
    proof {
        assert(s@.take(len as int) =~= s@);
    }
    quotes == 2
}

/// The mathematical shape of a classified value: what kind it is and what it
/// holds, free of any machine representation.
pub enum ValueModel {
    Int(int),
    Float(Seq<char>),
    Literal(Seq<char>),
    Str(Seq<char>),
}

/// Classification, in its fixed precedence order: integer first, then float,
/// then bare word, then quoted string; anything else is rejected.
pub open spec fn classify_spec(s: Seq<char>) -> Option<ValueModel> {
    if is_int_text(s) {
        Some(ValueModel::Int(int_text_value(s)))
    } else if is_float_text(s) {
        Some(ValueModel::Float(s))
    } else if is_literal_text(s) {
        Some(ValueModel::Literal(s))
    } else if is_quoted_text(s) {
        Some(ValueModel::Str(quoted_inner(s)))
    } else {
        None
    }
}

/// A parsed value: an integer, a float kept as its text, a bare word, or the
/// content of a quoted string.
#[derive(Debug, PartialEq)]
pub enum CfgType {
    IntNumber(i32),
    FloatNumber(String),
    Literal(String),
    String(String),
}

impl View for CfgType {
    type V = ValueModel;

    open spec fn view(&self) -> ValueModel {
        match self {
            CfgType::IntNumber(n) => ValueModel::Int(*n as int),
            CfgType::FloatNumber(t) => ValueModel::Float(t@),
            CfgType::Literal(t) => ValueModel::Literal(t@),
            CfgType::String(t) => ValueModel::Str(t@),
        }
    }
}

impl CfgType {
    /// Classify a trimmed value text, trying integer, float, bare word and
    /// quoted string in that order.
    pub fn from_string(s: String) -> (r: Option<CfgType>)
        ensures
            match r {
                Some(v) => classify_spec(s@) == Some(v@),
                None => classify_spec(s@) is None,
            },
    {
        match try_parse_i32(s.as_str()) {
            Some(n) => Some(CfgType::IntNumber(n)),
            None => {
                if is_float_str(s.as_str()) {
                    Some(CfgType::FloatNumber(s))
                } else if is_literal_str(s.as_str()) {
                    Some(CfgType::Literal(s))
                } else if is_quoted_str(s.as_str()) {
                    let len = s.as_str().unicode_len();
                    let inner = s.as_str().substring_char(1, len - 1);
                    Some(CfgType::String(String::from_str(inner)))
                } else {
                    None
                }
            },
        }
    }

    pub fn is_int(&self) -> (r: bool)
        ensures
            r == (self@ is Int),
    {
        matches!(self, CfgType::IntNumber(_))
    }

    pub fn is_float(&self) -> (r: bool)
        ensures
            r == (self@ is Float),
    {
        matches!(self, CfgType::FloatNumber(_))
    }

    pub fn is_literal(&self) -> (r: bool)
        ensures
            r == (self@ is Literal),
    {
        matches!(self, CfgType::Literal(_))
    }

    pub fn is_string(&self) -> (r: bool)
        ensures
            r == (self@ is Str),
    {
        matches!(self, CfgType::String(_))
    }
}

pub open spec fn digit_char(d: int) -> char {
    if d == 0 {
        '0'
    } else if d == 1 {
        '1'
    } else if d == 2 {
        '2'
    } else if d == 3 {
        '3'
    } else if d == 4 {
        '4'
    } else if d == 5 {
        '5'
    } else if d == 6 {
        '6'
    } else if d == 7 {
        '7'
    } else if d == 8 {
        '8'
    } else {
        '9'
    }
}

/// The decimal digits of a non-negative number, most significant first.
pub open spec fn decimal_digits(n: int) -> Seq<char>
    decreases n,
    when n >= 0
{
    if n < 10 {
        seq![digit_char(n)]
    } else {
        decimal_digits(n / 10).push(digit_char(n % 10))
    }
}

/// The usual decimal text of `n`, with a leading `-` when it is negative.
pub open spec fn decimal_repr(n: int) -> Seq<char> {
    if n < 0 {
        seq!['-'] + decimal_digits(-n)
    } else {
        decimal_digits(n)
    }
}

pub proof fn lemma_decimal_digits(n: int)
    requires
        n >= 0,
    ensures
        decimal_digits(n).len() >= 1,
        all_digits(decimal_digits(n)),
        digits_val(decimal_digits(n)) == n,
    decreases n,
{
    if n < 10 {
        let s = decimal_digits(n);
        assert(s =~= seq![digit_char(n)]);
        assert(s.len() == 1);
        assert(s.last() == digit_char(n));
        assert(s.drop_last() =~= Seq::<char>::empty());
        assert(digits_val(s.drop_last()) == 0);
        assert(digits_val(s) == digit_val(digit_char(n)));
    } else {
        lemma_decimal_digits(n / 10);
        let p = decimal_digits(n / 10);
        let s = decimal_digits(n);
        assert(s.drop_last() =~= p);
        assert(s.last() == digit_char(n % 10));
        assert(0 <= n % 10 < 10);
        assert(digit_val(digit_char(n % 10)) == n % 10);
        assert(digits_val(s) == 10 * (n / 10) + n % 10);
        assert forall|i: int| 0 <= i < s.len() implies is_digit(s[i]) by {
            if i < p.len() {
                assert(s[i] == p[i]);
            }
        }
    }
}

/// Law: the decimal text of any number in the signed 32-bit range classifies
/// as exactly that integer.
pub proof fn lemma_int_round_trip(n: int)
    requires
        -0x8000_0000 <= n <= 0x7fff_ffff,
    ensures
        classify_spec(decimal_repr(n)) == Some(ValueModel::Int(n)),
{
    if n >= 0 {
        let s = decimal_repr(n);
        lemma_decimal_digits(n);
        assert(is_digit(s[0]));
        assert(sign_stripped(s) == s);
        assert(int_text_value(s) == n);
        assert(is_int_text(s));
    } else {
        let d = decimal_digits(-n);
        let s = decimal_repr(n);
        lemma_decimal_digits(-n);
        assert(s[0] == '-');
        assert(s.skip(1) =~= d);
        assert(sign_stripped(s) == s.skip(1));
        assert(int_text_value(s) == -digits_val(d) == n);
        assert(is_int_text(s));
    }
}

/// Law: a non-empty word of ASCII letters classifies as a literal — except
/// for the spellings that read as a float (`inf`, `infinity` and `nan`, in
/// any mix of case), which the float rule claims first.
pub proof fn lemma_literal_classification(w: Seq<char>)
    requires
        w.len() > 0,
        forall|i: int| 0 <= i < w.len() ==> is_alpha(w[i]),
        !is_special_float(w),
    ensures
        classify_spec(w) == Some(ValueModel::Literal(w)),
{
    assert(is_alpha(w[0]));
    assert(sign_stripped(w) == w);
    assert(!is_digit(w[0]));
    assert(!is_int_text(w));
    let e = prefix_len(w, exp_pred());
    lemma_prefix_len(w, exp_pred());
    if e < w.len() {
        if e > 0 {
            assert(w.take(e)[0] == w[0]);
            assert(!mantissa_ok(w.take(e)));
        }
    } else {
        assert(!is_dot_digit(w[0]));
    }
    assert(!number_ok(w));
    assert(!is_float_text(w));
    assert(is_literal_text(w));
}

/// Law: wrapping any quote-free text in double quotes classifies as a string
/// holding exactly that text; extracting it and wrapping it again therefore
/// reproduces the same value.
pub proof fn lemma_string_round_trip(t: Seq<char>)
    requires
        forall|i: int| 0 <= i < t.len() ==> t[i] != '"',
    ensures
        classify_spec(seq!['"'] + t + seq!['"']) == Some(ValueModel::Str(t)),
{
    let q = seq!['"'] + t + seq!['"'];
    assert(q.len() == t.len() + 2);
    assert(q[0] == '"');
    assert(q[q.len() - 1] == '"');
    crate::text::lemma_count_char_concat(seq!['"'] + t, seq!['"'], '"');
    crate::text::lemma_count_char_concat(seq!['"'], t, '"');
    crate::text::lemma_count_char_zero(t, '"');
    assert(count_char(seq!['"'], '"') == 1) by {
        let one = seq!['"'];
        assert(one.len() == 1);
        assert(one.last() == '"');
        assert(one.drop_last() =~= Seq::<char>::empty());
        assert(count_char(Seq::<char>::empty(), '"') == 0);
    }
    assert(count_char(q, '"') == 2);
    assert(is_quoted_text(q));
    assert(sign_stripped(q) == q);
    assert(!is_digit(q[0]));
    assert(!is_int_text(q));
    assert(!is_special_float(q));
    let e = prefix_len(q, exp_pred());
    lemma_prefix_len(q, exp_pred());
    if e < q.len() {
        if e > 0 {
            assert(q.take(e)[0] == q[0]);
            assert(!mantissa_ok(q.take(e)));
        }
    } else {
        assert(!is_dot_digit(q[0]));
    }
    assert(!number_ok(q));
    assert(!is_float_text(q));
    assert(!is_alpha(q[0]));
    assert(!is_literal_text(q));
    assert(quoted_inner(q) =~= t);
}

} // verus!

