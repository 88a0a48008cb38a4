//! Character-sequence helpers shared by the stream and the parser: scanning
//! for the first character that satisfies a predicate, counting occurrences,
//! and trimming surrounding whitespace.

use vstd::prelude::*;
use vstd::string::StrSliceExecFns;

verus! {

/// The Unicode white-space characters, the same set that `str::trim` removes.
pub open spec fn is_space(c: char) -> bool {
    let u = c as int;
    (0x09 <= u && u <= 0x0D) || u == 0x20 || u == 0x85 || u == 0xA0 || u == 0x1680 || (0x2000
        <= u && u <= 0x200A) || u == 0x2028 || u == 0x2029 || u == 0x202F || u == 0x205F || u
        == 0x3000
}

pub fn is_space_char(c: char) -> (r: bool)
    ensures
        r == is_space(c),
{
    let u = c as u32;
    (0x09 <= u && u <= 0x0D) || u == 0x20 || u == 0x85 || u == 0xA0 || u == 0x1680 || (0x2000
        <= u && u <= 0x200A) || u == 0x2028 || u == 0x2029 || u == 0x202F || u == 0x205F || u
        == 0x3000
}

/// Length of the longest prefix of `s` in which no character satisfies `p`;
/// equivalently, the index of the first character that does, or `s.len()`.
pub open spec fn prefix_len(s: Seq<char>, p: spec_fn(char) -> bool) -> int
    decreases s.len(),
{
    if s.len() == 0 {
        0
    } else if p(s[0]) {
        0
    } else {
        1 + prefix_len(s.skip(1), p)
    }
}

pub proof fn lemma_prefix_len(s: Seq<char>, p: spec_fn(char) -> bool)
    ensures
        0 <= prefix_len(s, p) <= s.len(),
        forall|i: int| 0 <= i < prefix_len(s, p) ==> !p(s[i]),
        prefix_len(s, p) < s.len() ==> p(s[prefix_len(s, p)]),
    decreases s.len(),
{
    if s.len() == 0 {
    } else if p(s[0]) {
    } else {
        lemma_prefix_len(s.skip(1), p);
        assert forall|i: int| 0 <= i < prefix_len(s, p) implies !p(s[i]) by {
            if i >= 1 {
                assert(s.skip(1)[i - 1] == s[i]);
            }
        }
        if prefix_len(s, p) < s.len() {
            assert(s.skip(1)[prefix_len(s, p) - 1] == s[prefix_len(s, p)]);
        }
    }
}

pub proof fn lemma_prefix_len_is(s: Seq<char>, p: spec_fn(char) -> bool, k: int)
    requires
        0 <= k <= s.len(),
        forall|i: int| 0 <= i < k ==> !p(s[i]),
        k < s.len() ==> p(s[k]),
    ensures
        prefix_len(s, p) == k,
    decreases s.len(),
{
    if k == 0 {
        if s.len() > 0 && !p(s[0]) {
            lemma_prefix_len(s.skip(1), p);
        }
    } else {
        assert(!p(s[0]));
        assert forall|i: int| 0 <= i < k - 1 implies !p(s.skip(1)[i]) by {
            assert(s.skip(1)[i] == s[i + 1]);
        }
        if k - 1 < s.skip(1).len() {
            assert(s.skip(1)[k - 1] == s[k]);
        }
        lemma_prefix_len_is(s.skip(1), p, k - 1);
    }
}

/// How many characters of `s` equal `c`.
pub open spec fn count_char(s: Seq<char>, c: char) -> int
    decreases s.len(),
{
    if s.len() == 0 {
        0
    } else {
        count_char(s.drop_last(), c) + if s.last() == c {
            1int
        } else {
            0int
        }
    }
}

pub proof fn lemma_count_char_concat(a: Seq<char>, b: Seq<char>, c: char)
    ensures
        count_char(a + b, c) == count_char(a, c) + count_char(b, c),
    decreases b.len(),
{
    if b.len() == 0 {
        assert(a + b =~= a);
    } else {
        lemma_count_char_concat(a, b.drop_last(), c);
        assert((a + b).drop_last() =~= a + b.drop_last());
        assert((a + b).last() == b.last());
    }
}

pub proof fn lemma_count_char_zero(s: Seq<char>, c: char)
    requires
        forall|i: int| 0 <= i < s.len() ==> s[i] != c,
    ensures
        count_char(s, c) == 0,
    decreases s.len(),
{
    if s.len() > 0 {
        lemma_count_char_zero(s.drop_last(), c);
    }
}

/// How many white-space characters stand at the end of `s`.
pub open spec fn trailing_ws(s: Seq<char>) -> int
    decreases s.len(),
{
    if s.len() == 0 {
        0
    } else if is_space(s.last()) {
        1 + trailing_ws(s.drop_last())
    } else {
        0
    }
}

pub proof fn lemma_trailing_ws_is(s: Seq<char>, k: int)
    requires
        0 <= k <= s.len(),
        forall|i: int| s.len() - k <= i < s.len() ==> is_space(s[i]),
        k < s.len() ==> !is_space(s[s.len() - k - 1]),
    ensures
        trailing_ws(s) == k,
    decreases s.len(),
{
    if s.len() == 0 {
    } else if k == 0 {
        if is_space(s.last()) {
            assert(is_space(s[s.len() - 1]));
            assert(false);
        }
    } else {
        assert(is_space(s.last()));
        lemma_trailing_ws_is(s.drop_last(), k - 1);
    }
}

pub open spec fn nonspace_pred() -> spec_fn(char) -> bool {
    |c: char| !is_space(c)
}

/// `s` with leading and trailing white space removed, as `str::trim` leaves it.
pub open spec fn trim_spec(s: Seq<char>) -> Seq<char> {
    let a = prefix_len(s, nonspace_pred());
    let core = s.skip(a);
    core.take(core.len() - trailing_ws(core))
}

pub fn trim_str<'a>(s: &'a str) -> (r: &'a str)
    ensures
        r@ == trim_spec(s@),
{
    let len = s.unicode_len();
    let mut a: usize = 0;
    loop
        invariant_except_break
            a <= len,
            len == s@.len(),
            forall|i: int| 0 <= i < a ==> is_space(s@[i]),
        ensures
            a <= len,
            len == s@.len(),
            forall|i: int| 0 <= i < a ==> is_space(s@[i]),
            a < len ==> !is_space(s@[a as int]),
        decreases len - a,
    {
        if a >= len {
            break;
        }
        if !is_space_char(s.get_char(a)) {
            break;
        }
        a += 1;
    }
    let mut b: usize = len;
    loop
        invariant_except_break
            a <= b <= len,
            len == s@.len(),
            forall|i: int| b <= i < len ==> is_space(s@[i]),
        ensures
            a <= b <= len,
            forall|i: int| b <= i < len ==> is_space(s@[i]),
            b > a ==> !is_space(s@[b - 1]),
        decreases b,
    {
        if b <= a {
            break;
        }
        if !is_space_char(s.get_char(b - 1)) {
            break;
        }
        b -= 1;
    }
    proof {
        lemma_prefix_len_is(s@, nonspace_pred(), a as int);
        let core = s@.skip(a as int);
        assert forall|i: int| core.len() - (len - b) <= i < core.len() implies is_space(
            core[i],
        ) by {
            assert(core[i] == s@[a + i]);
        }
        let k = (len - b) as int;
        if k < core.len() {
            assert(core[core.len() - k - 1] == s@[b - 1]);
        }
        lemma_trailing_ws_is(core, k);
        assert(core.take((b - a) as int) =~= s@.subrange(a as int, b as int));
    }
    s.substring_char(a, b)
}

} // verus!
