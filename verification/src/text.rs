//! Verified text utilities shared by the argument and configuration parsers:
//! whitespace trimming, character search, and decimal numerals.

use vstd::prelude::*;

verus! {

// ----------------------------------------------------------------------
// Characters
// ----------------------------------------------------------------------

/// Whether `c` has the Unicode white-space property, the set `str::trim`
/// strips.
pub open spec fn is_space(c: char) -> bool {
    let u = c as u32;
    u == 0x9 || u == 0xA || u == 0xB || u == 0xC || u == 0xD || u == 0x20 || u == 0x85
        || u == 0xA0 || u == 0x1680 || (0x2000 <= u && u <= 0x200A) || u == 0x2028 || u == 0x2029
        || u == 0x202F || u == 0x205F || u == 0x3000
}

/// Executable counterpart of `is_space`.
pub fn is_space_char(c: char) -> (r: bool)
    ensures
        r == is_space(c),
{
    let u = c as u32;
    u == 0x9 || u == 0xA || u == 0xB || u == 0xC || u == 0xD || u == 0x20 || u == 0x85
        || u == 0xA0 || u == 0x1680 || (0x2000 <= u && u <= 0x200A) || u == 0x2028 || u == 0x2029
        || u == 0x202F || u == 0x205F || u == 0x3000
}

/// Whether `c` is an ASCII decimal digit.
pub open spec fn is_digit(c: char) -> bool {
    0x30 <= c as u32 && c as u32 <= 0x39
}

/// The value of one decimal digit.
pub open spec fn digit_val(c: char) -> int {
    c as u32 - 0x30
}

// ----------------------------------------------------------------------
// Trimming
// ----------------------------------------------------------------------

pub open spec fn trim_front(s: Seq<char>) -> Seq<char>
    decreases s.len(),
{
    if s.len() > 0 && is_space(s[0]) {
        trim_front(s.drop_first())
    } else {
        s
    }
}

pub open spec fn trim_back(s: Seq<char>) -> Seq<char>
    decreases s.len(),
{
    if s.len() > 0 && is_space(s.last()) {
        trim_back(s.drop_last())
    } else {
        s
    }
}

/// `s` with leading and trailing white space removed, as `str::trim` has it.
pub open spec fn trimmed(s: Seq<char>) -> Seq<char> {
    trim_back(trim_front(s))
}

/// Removes leading and trailing white space.
pub fn trim<'a>(s: &'a str) -> (r: &'a str)
    ensures
        r@ == trimmed(s@),
{
    let n = s.unicode_len();
    let mut a: usize = 0;
    proof {
        assert(s@.skip(0) =~= s@);
    }
    while a < n && is_space_char(s.get_char(a))
        invariant
            0 <= a <= n,
            n == s@.len(),
            trim_front(s@) == trim_front(s@.skip(a as int)),
        decreases n - a,
    {
        proof {
            assert(s@.skip(a as int)[0] == s@[a as int]);
            assert(s@.skip(a as int).drop_first() =~= s@.skip(a as int + 1));
        }
        a = a + 1;
    }
    proof {
        assert(trim_front(s@) == s@.skip(a as int)) by {
            if a < n {
                assert(s@.skip(a as int)[0] == s@[a as int]);
            } else {
                assert(s@.skip(a as int).len() == 0);
            }
        }
    }
    let mut b: usize = n;
    while b > a && is_space_char(s.get_char(b - 1))
        invariant
            a <= b <= n,
            n == s@.len(),
            trim_front(s@) == s@.skip(a as int),
            trim_back(s@.skip(a as int)) == trim_back(s@.subrange(a as int, b as int)),
        decreases b,
    {
        proof {
            let t = s@.subrange(a as int, b as int);
            assert(t.last() == s@[b - 1]);
            assert(t.drop_last() =~= s@.subrange(a as int, b as int - 1));
        }
        b = b - 1;
    }
    proof {
        let t = s@.subrange(a as int, b as int);
        assert(trim_back(t) == t) by {
            if b > a {
                assert(t.last() == s@[b - 1]);
            }
        }
        assert(s@.skip(a as int) =~= s@.subrange(a as int, n as int));
    }
    s.substring_char(a, b)
}

// ----------------------------------------------------------------------
// Searching
// ----------------------------------------------------------------------

/// How often `c` occurs in `s`.
pub open spec fn count_char(s: Seq<char>, c: char) -> int
    decreases s.len(),
{
    if s.len() == 0 {
        0
    } else {
        count_char(s.drop_last(), c) + if s.last() == c {
            1int
        } else {
            0int
        }
    }
}

/// The index of the first occurrence of `c` in `s`; `s.len()` if none.
pub open spec fn first_index(s: Seq<char>, c: char) -> int
    decreases s.len(),
{
    if s.len() == 0 {
        0
    } else if s[0] == c {
        0
    } else {
        1 + first_index(s.drop_first(), c)
    }
}


pub proof fn lemma_count_char_nonneg(s: Seq<char>, c: char)
    ensures
        count_char(s, c) >= 0,
    decreases s.len(),
{
    if s.len() > 0 {
        lemma_count_char_nonneg(s.drop_last(), c);
    }
}

pub proof fn lemma_count_char_positive(s: Seq<char>, c: char, k: int)
    requires
        0 <= k < s.len(),
        s[k] == c,
    ensures
        count_char(s, c) >= 1,
    decreases s.len(),
{
    lemma_count_char_nonneg(s.drop_last(), c);
    if k == s.len() - 1 {
        assert(s.last() == s[k]);
    } else {
        assert(s.drop_last()[k] == s[k]);
        lemma_count_char_positive(s.drop_last(), c, k);
    }
}

pub proof fn lemma_first_index_at(s: Seq<char>, c: char, k: int)
    requires
        0 <= k < s.len(),
        s[k] == c,
        forall|j: int| 0 <= j < k ==> s[j] != c,
    ensures
        first_index(s, c) == k,
    decreases k,
{
    if k > 0 {
        let d = s.drop_first();
        assert(forall|j: int| 0 <= j < k - 1 ==> d[j] == s[j + 1]);
        assert(d[k - 1] == s[k]);
        lemma_first_index_at(d, c, k - 1);
    }
}

/// Character-wise string equality.
pub fn str_eq(a: &str, b: &str) -> (r: bool)
    ensures
        r <==> a@ == b@,
{
    let na = a.unicode_len();
    let nb = b.unicode_len();
    if na != nb {
        proof {
            if a@ == b@ {
                assert(a@.len() == b@.len());
            }
        }
        return false;
    }
    let mut i: usize = 0;
    while i < na
        invariant
            0 <= i <= na,
            na == a@.len(),
            na == b@.len(),
            forall|j: int| 0 <= j < i ==> a@[j] == b@[j],
        decreases na - i,
    {
        if a.get_char(i) != b.get_char(i) {
            return false;
        }
        i = i + 1;
    }
    proof {
        assert(a@ =~= b@);
    }
    true
}

// ----------------------------------------------------------------------
// Decimal numerals
// ----------------------------------------------------------------------

pub open spec fn all_digits(s: Seq<char>) -> bool {
    forall|i: int| 0 <= i < s.len() ==> is_digit(#[trigger] s[i])
}

/// The value of a string of decimal digits.
pub open spec fn digits_val(s: Seq<char>) -> int
    decreases s.len(),
{
    if s.len() == 0 {
        0
    } else {
        digits_val(s.drop_last()) * 10 + digit_val(s.last())
    }
}

/// Whether `s` is a decimal numeral as `usize::from_str` reads one: an
/// optional leading `+`, then one or more digits.
pub open spec fn is_uint_str(s: Seq<char>) -> bool {
    if s.len() > 0 && s[0] == '+' {
        s.len() > 1 && all_digits(s.drop_first())
    } else {
        s.len() > 0 && all_digits(s)
    }
}

/// The value a decimal numeral denotes.
pub open spec fn uint_val(s: Seq<char>) -> int {
    if s.len() > 0 && s[0] == '+' {
        digits_val(s.drop_first())
    } else {
        digits_val(s)
    }
}

pub proof fn lemma_digits_val_nonneg(s: Seq<char>)
    requires
        all_digits(s),
    ensures
        digits_val(s) >= 0,
    decreases s.len(),
{
    if s.len() > 0 {
        let dl = s.drop_last();
        assert(forall|i: int| 0 <= i < dl.len() ==> dl[i] == s[i]);
        assert(all_digits(dl));
        lemma_digits_val_nonneg(dl);
        assert(s.last() == s[s.len() - 1]);
        assert(is_digit(s.last()));
        assert(digit_val(s.last()) >= 0);
        assert(digits_val(s) == digits_val(dl) * 10 + digit_val(s.last()));
    }
}

/// A digit string is worth at least any of its prefixes.
pub proof fn lemma_digits_val_prefix(s: Seq<char>, m: int)
    requires
        all_digits(s),
        0 <= m <= s.len(),
    ensures
        digits_val(s) >= digits_val(s.take(m)),
    decreases s.len(),
{
    if m < s.len() {
        let dl = s.drop_last();
        assert(forall|i: int| 0 <= i < dl.len() ==> dl[i] == s[i]);
        assert(dl.take(m) =~= s.take(m));
        lemma_digits_val_prefix(dl, m);
        lemma_digits_val_nonneg(dl);
        assert(s.last() == s[s.len() - 1]);
        assert(digits_val(s) >= digits_val(dl));
    } else {
        assert(s.take(m) =~= s);
    }
}

/// Parses a decimal numeral as `usize::from_str` does: an optional leading
/// `+`, one or more ASCII digits, rejecting anything else and any value
/// beyond `usize::MAX`.
pub fn parse_usize(s: &str) -> (r: Option<usize>)
    ensures
        r is Some <==> is_uint_str(s@) && uint_val(s@) <= usize::MAX,
        r matches Some(n) ==> n == uint_val(s@),
{
    let n = s.unicode_len();
    let mut start: usize = 0;
    if n > 0 && s.get_char(0) as u32 == 0x2B {
        start = 1;
    }
    if start >= n {
        proof {
            assert(!is_uint_str(s@));
        }
        return None;
    }
    let ghost body = s@.skip(start as int);
    proof {
        assert(body =~= s@.subrange(start as int, n as int));
    }
    let mut acc: usize = 0;
    let mut i: usize = start;
    while i < n
        invariant
            start == 0 || start == 1,
            start <= i <= n,
            n == s@.len(),
            start == 1 ==> n > 0 && s@[0] == '+',
            start == 0 ==> n == 0 || s@[0] != '+',
            body == s@.subrange(start as int, n as int),
            all_digits(s@.subrange(start as int, i as int)),
            acc == digits_val(s@.subrange(start as int, i as int)),
        decreases n - i,
    {
        let ghost seen = s@.subrange(start as int, i as int);
        let c = s.get_char(i);
        let u = c as u32;
        if u < 0x30 || u > 0x39 {
            proof {
                assert(body[i - start] == s@[i as int]);
                assert(!all_digits(body));
                assert(!is_uint_str(s@)) by {
                    if start == 1 {
                        assert(s@.drop_first() =~= body);
                    } else {
                        assert(s@ =~= body);
                    }
                }
            }
            return None;
        }
        let d = (u - 0x30) as usize;
        proof {
            assert(s@.subrange(start as int, i as int + 1).drop_last() =~= seen);
            assert(s@.subrange(start as int, i as int + 1).last() == s@[i as int]);
            assert(all_digits(s@.subrange(start as int, i as int + 1))) by {
                assert(forall|j: int|
                    0 <= j < seen.len() ==> s@.subrange(start as int, i as int + 1)[j] == seen[j]);
            }
        }
        let prod = acc.checked_mul(10);
        let next = match prod {
            Some(v) => v.checked_add(d),
            None => None,
        };
        match next {
            Some(v) => {
                acc = v;
            },
            None => {
                proof {
                    let grown = s@.subrange(start as int, i as int + 1);
                    assert(digits_val(grown) == acc * 10 + d);
                    assert(acc * 10 + d > usize::MAX);
                    if is_uint_str(s@) {
                        assert(all_digits(body)) by {
                            if start == 1 {
                                assert(s@.drop_first() =~= body);
                            } else {
                                assert(s@ =~= body);
                            }
                        }
                        assert(grown =~= body.take(i as int + 1 - start));
                        lemma_digits_val_prefix(body, i as int + 1 - start);
                        assert(uint_val(s@) == digits_val(body)) by {
                            if start == 1 {
                                assert(s@.drop_first() =~= body);
                            } else {
                                assert(s@ =~= body);
                            }
                        }
                    }
                }
                return None;
            },
        }
        i = i + 1;
    }
    proof {
        assert(s@.subrange(start as int, i as int) =~= body);
        assert(is_uint_str(s@) && uint_val(s@) == acc) by {
            if start == 1 {
                assert(s@.drop_first() =~= body);
            } else {
                assert(s@ =~= body);
            }
        }
    }
    Some(acc)
}

/// Parses a nonempty string of ASCII digits, rejecting anything else and
/// any value beyond `u64::MAX`.
pub fn parse_digits_u64(s: &str) -> (r: Option<u64>)
    ensures
        r is Some <==> s@.len() > 0 && all_digits(s@) && digits_val(s@) <= u64::MAX,
        r matches Some(v) ==> v == digits_val(s@),
{
    let n = s.unicode_len();
    if n == 0 {
        return None;
    }
    let mut acc: u64 = 0;
    let mut i: usize = 0;
    proof {
        assert(s@.take(0) =~= Seq::<char>::empty());
    }
    while i < n
        invariant
            0 <= i <= n,
            n == s@.len(),
            all_digits(s@.take(i as int)),
            acc == digits_val(s@.take(i as int)),
        decreases n - i,
    {
        let ghost seen = s@.take(i as int);
        let c = s.get_char(i);
        let u = c as u32;
        if u < 0x30 || u > 0x39 {
            return None;
        }
        let d = (u - 0x30) as u64;
        proof {
            assert(s@.take(i as int + 1).drop_last() =~= seen);
            assert(s@.take(i as int + 1).last() == s@[i as int]);
            assert(all_digits(s@.take(i as int + 1))) by {
                assert(forall|j: int|
                    0 <= j < seen.len() ==> s@.take(i as int + 1)[j] == seen[j]);
            }
        }
        let prod = acc.checked_mul(10);
        let next = match prod {
            Some(v) => v.checked_add(d),
            None => None,
        };
        match next {
            Some(v) => {
                acc = v;
            },
            None => {
                proof {
                    assert(digits_val(s@.take(i as int + 1)) == acc * 10 + d);
                    assert(acc * 10 + d > u64::MAX);
                    if all_digits(s@) {
                        lemma_digits_val_prefix(s@, i as int + 1);
                        assert(s@.take(s@.len() as int) =~= s@);
                    }
                }
                return None;
            },
        }
        i = i + 1;
    }
    proof {
        assert(s@.take(n as int) =~= s@);
    }
    Some(acc)
}

} // verus!
