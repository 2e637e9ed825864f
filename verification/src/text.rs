//! Shared character-sequence helpers: substring search, decimal digits,
//! and the conversions between `String` and `Vec<char>` at the crate's edge.
use vstd::prelude::*;

verus! {

/// The pattern `pat` stands in `s` at position `i`.
pub open spec fn is_match_at(s: Seq<char>, pat: Seq<char>, i: int) -> bool {
    0 <= i && i + pat.len() <= s.len() && s.subrange(i, i + pat.len()) == pat
}

/// Position of the first occurrence of the character `c` in `s`, if any.
pub open spec fn find_char(s: Seq<char>, c: char) -> Option<int>
    decreases s.len(),
{
    if s.len() == 0 {
        None
    } else if s[0] == c {
        Some(0)
    } else {
        match find_char(s.skip(1), c) {
            Some(k) => Some(k + 1),
            None => None,
        }
    }
}

/// What `find_char` returns: the first position holding `c`, or nothing
/// when `c` does not occur.
pub proof fn lemma_find_char(s: Seq<char>, c: char)
    ensures
        match find_char(s, c) {
            Some(i) => 0 <= i < s.len() && s[i] == c && (forall|j: int|
                0 <= j < i ==> s[j] != c),
            None => forall|j: int| 0 <= j < s.len() ==> s[j] != c,
        },
    decreases s.len(),
{
    if s.len() == 0 {
    } else if s[0] == c {
    } else {
        lemma_find_char(s.skip(1), c);
        assert forall|j: int| 1 <= j < s.len() implies s[j] == s.skip(1)[j - 1] by {}
    }
}

/// Position of the first occurrence of `pat` in `s`, if any.
pub open spec fn find_sub(s: Seq<char>, pat: Seq<char>) -> Option<int>
    decreases s.len(),
{
    if pat.len() > s.len() {
        None
    } else if s.subrange(0, pat.len() as int) == pat {
        Some(0)
    } else if s.len() == 0 {
        None
    } else {
        match find_sub(s.skip(1), pat) {
            Some(k) => Some(k + 1),
            None => None,
        }
    }
}

/// What `find_sub` returns: the first position where `pat` stands, or
/// nothing when it stands nowhere.
pub proof fn lemma_find_sub(s: Seq<char>, pat: Seq<char>)
    ensures
        match find_sub(s, pat) {
            Some(i) => is_match_at(s, pat, i) && i + pat.len() <= s.len() && (forall|j: int|
                0 <= j < i ==> !is_match_at(s, pat, j)),
            None => forall|j: int| !is_match_at(s, pat, j),
        },
    decreases s.len(),
{
    if pat.len() > s.len() {
    } else if s.subrange(0, pat.len() as int) == pat {
    } else if s.len() == 0 {
        assert(s.subrange(0, pat.len() as int) =~= pat);
    } else {
        lemma_find_sub(s.skip(1), pat);
        assert forall|j: int| 1 <= j implies (is_match_at(s, pat, j) <==> is_match_at(
            s.skip(1),
            pat,
            j - 1,
        )) by {
            if j + pat.len() <= s.len() {
                assert(s.subrange(j, j + pat.len()) =~= s.skip(1).subrange(
                    j - 1,
                    j - 1 + pat.len(),
                ));
            }
        }
    }
}

/// Skipping `a` characters and then `b` more skips `a + b`.
pub proof fn lemma_skip_skip(s: Seq<char>, a: int, b: int)
    requires
        0 <= a,
        0 <= b,
        a + b <= s.len(),
    ensures
        s.skip(a).skip(b) == s.skip(a + b),
{
    assert(s.skip(a).skip(b) =~= s.skip(a + b));
}

/// Whether `s` starts with the pattern `pat` at position `i`.
pub fn starts_with_at(s: &[char], i: usize, pat: &[char]) -> (r: bool)
    requires
        i <= s@.len(),
    ensures
        r == is_match_at(s@, pat@, i as int),
{
    if s.len() - i < pat.len() {
        return false;
    }
    let mut k: usize = 0;
    while k < pat.len()
        invariant
            0 <= k <= pat.len(),
            i + pat.len() <= s.len(),
            forall|j: int| 0 <= j < k ==> s@[i + j] == pat@[j],
        decreases pat.len() - k,
    {
        if s[i + k] != pat[k] {
            return false;
        }
        k += 1;
    }
    proof {
        assert(s@.subrange(i as int, i + pat@.len()) =~= pat@);
    }
    true
}

/// First position at or after `from` where `c` stands in `s`.
pub fn find_char_from(s: &[char], from: usize, c: char) -> (r: Option<usize>)
    requires
        from <= s@.len(),
    ensures
        match r {
            Some(j) => from <= j < s@.len() && find_char(s@.skip(from as int), c) == Some(
                j - from,
            ),
            None => find_char(s@.skip(from as int), c) is None,
        },
{
    let ghost t = s@.skip(from as int);
    let mut k: usize = from;
    while k < s.len()
        invariant
            from <= k <= s@.len(),
            t == s@.skip(from as int),
            forall|j: int| from <= j < k ==> s@[j] != c,
        decreases s@.len() - k,
    {
        if s[k] == c {
            proof {
                lemma_find_char(t, c);
                assert(t[k - from] == c);
                assert(forall|j: int| 0 <= j < k - from ==> t[j] == s@[j + from] && t[j] != c);
            }
            return Some(k);
        }
        k += 1;
    }
    proof {
        lemma_find_char(t, c);
        assert(forall|j: int| 0 <= j < t.len() ==> t[j] == s@[j + from] && t[j] != c);
    }
    None
}

/// First position at or after `from` where the pattern `pat` stands in `s`.
pub fn find_sub_from(s: &[char], from: usize, pat: &[char]) -> (r: Option<usize>)
    requires
        from <= s@.len(),
    ensures
        match r {
            Some(j) => from <= j && j + pat@.len() <= s@.len() && find_sub(
                s@.skip(from as int),
                pat@,
            ) == Some(j - from),
            None => find_sub(s@.skip(from as int), pat@) is None,
        },
{
    let ghost t = s@.skip(from as int);
    let mut k: usize = from;
    while pat.len() <= s.len() - k
        invariant
            from <= k <= s@.len(),
            t == s@.skip(from as int),
            forall|j: int| from <= j < k ==> !is_match_at(s@, pat@, j),
        decreases s@.len() - k,
    {
        if starts_with_at(s, k, pat) {
            proof {
                lemma_match_translate(s@, pat@, from as int);
                lemma_find_sub(t, pat@);
                assert(is_match_at(t, pat@, k - from));
                assert forall|j: int| 0 <= j < k - from implies !is_match_at(t, pat@, j) by {
                    assert(!is_match_at(s@, pat@, j + from));
                }
                match find_sub(t, pat@) {
                    Some(i) => {
                        if i < k - from {
                            assert(!is_match_at(t, pat@, i));
                        } else if i > k - from {
                            assert(!is_match_at(t, pat@, k - from));
                        }
                    },
                    None => {
                        assert(!is_match_at(t, pat@, k - from));
                    },
                }
            }
            return Some(k);
        }
        proof {
            if pat@.len() == 0 {
                assert(s@.subrange(k as int, k as int) =~= pat@);
                assert(is_match_at(s@, pat@, k as int));
            }
        }
        k += 1;
    }
    proof {
        lemma_match_translate(s@, pat@, from as int);
        lemma_find_sub(t, pat@);
        match find_sub(t, pat@) {
            Some(i) => {
                assert(is_match_at(t, pat@, i));
                assert(is_match_at(s@, pat@, i + from));
            },
            None => {},
        }
    }
    None
}

/// A match of `pat` in the suffix of `s` from `from` stands exactly where a
/// match of `pat` in `s` itself stands, shifted by `from`.
pub proof fn lemma_match_translate(s: Seq<char>, pat: Seq<char>, from: int)
    requires
        0 <= from <= s.len(),
    ensures
        forall|j: int| #![trigger is_match_at(s.skip(from), pat, j)]
            0 <= j ==> (is_match_at(s, pat, j + from) <==> is_match_at(s.skip(from), pat, j)),
{
    let t = s.skip(from);
    assert forall|j: int| 0 <= j implies (is_match_at(s, pat, j + from) <==> #[trigger] is_match_at(
        t,
        pat,
        j,
    )) by {
        if j + from + pat.len() <= s.len() {
            assert(s.subrange(j + from, j + from + pat.len()) =~= t.subrange(j, j + pat.len()));
        }
    }
}

/// Whether `c` is an ASCII decimal digit.
pub open spec fn is_digit(c: char) -> bool {
    48 <= c as u32 <= 57
}

/// Numeric value of an ASCII decimal digit.
pub open spec fn digit_val(c: char) -> nat {
    (c as u32 - 48) as nat
}

/// Value of a run of ASCII decimal digits, read as a decimal numeral.
pub open spec fn dec_val(s: Seq<char>) -> nat
    decreases s.len(),
{
    if s.len() == 0 {
        0
    } else {
        dec_val(s.drop_last()) * 10 + digit_val(s.last())
    }
}

/// The ASCII digit with value `n`.
pub open spec fn digit_char(n: nat) -> char {
    if n == 0 {
        '0'
    } else if n == 1 {
        '1'
    } else if n == 2 {
        '2'
    } else if n == 3 {
        '3'
    } else if n == 4 {
        '4'
    } else if n == 5 {
        '5'
    } else if n == 6 {
        '6'
    } else if n == 7 {
        '7'
    } else if n == 8 {
        '8'
    } else {
        '9'
    }
}

/// The decimal numeral of `n`, most significant digit first.
pub open spec fn dec_str(n: nat) -> Seq<char>
    decreases n,
{
    if n < 10 {
        seq![digit_char(n)]
    } else {
        dec_str(n / 10).push(digit_char(n % 10))
    }
}

/// Length of the run of ASCII decimal digits at the head of `s`.
pub open spec fn digit_run_len(s: Seq<char>) -> nat
    decreases s.len(),
{
    if s.len() == 0 || !is_digit(s[0]) {
        0
    } else {
        1 + digit_run_len(s.skip(1))
    }
}

/// The digit run at the head of `s` is exactly the maximal digit prefix.
pub proof fn lemma_digit_run_len_eq(t: Seq<char>, m: int)
    requires
        0 <= m <= t.len(),
        forall|j: int| 0 <= j < m ==> is_digit(t[j]),
        m < t.len() ==> !is_digit(t[m]),
    ensures
        digit_run_len(t) == m,
    decreases t.len(),
{
    if m == 0 {
    } else {
        lemma_digit_run_len_eq(t.skip(1), m - 1);
    }
}

/// Whether the character is an ASCII decimal digit.
pub fn digit_check(c: char) -> (r: bool)
    ensures
        r == is_digit(c),
{
    (c as u32) >= 48 && (c as u32) <= 57
}

/// End of the run of ASCII decimal digits starting at `from`.
pub fn digit_run_end(s: &[char], from: usize) -> (r: usize)
    requires
        from <= s@.len(),
    ensures
        from <= r <= s@.len(),
        r - from == digit_run_len(s@.skip(from as int)),
        forall|j: int| from <= j < r ==> is_digit(s@[j]),
{
    let mut k: usize = from;
    while k < s.len() && digit_check(s[k])
        invariant
            from <= k <= s@.len(),
            forall|j: int| from <= j < k ==> is_digit(s@[j]),
        decreases s@.len() - k,
    {
        k += 1;
    }
    proof {
        let t = s@.skip(from as int);
        assert(forall|j: int| 0 <= j < k - from ==> t[j] == s@[j + from] && is_digit(t[j]));
        if (k as int) - (from as int) < t.len() {
            assert(t[k - from] == s@[k as int]);
        }
        lemma_digit_run_len_eq(t, k - from);
    }
    k
}

/// Decimal value of the digit run `s[start..end]`, where it fits in `u32`.
pub fn parse_u32_digits(s: &[char], start: usize, end: usize) -> (r: Option<u32>)
    requires
        start <= end <= s@.len(),
        forall|i: int| start <= i < end ==> is_digit(s@[i]),
    ensures
        match r {
            Some(v) => v as nat == dec_val(s@.subrange(start as int, end as int)),
            None => dec_val(s@.subrange(start as int, end as int)) > u32::MAX,
        },
{
    let mut acc: u64 = 0;
    let mut i: usize = start;
    while i < end
        invariant
            start <= i <= end <= s@.len(),
            forall|j: int| start <= j < end ==> is_digit(s@[j]),
            acc <= 0x1_0000_0000,
            dec_val(s@.subrange(start as int, i as int)) <= u32::MAX ==> acc == dec_val(
                s@.subrange(start as int, i as int),
            ),
            dec_val(s@.subrange(start as int, i as int)) > u32::MAX ==> acc == 0x1_0000_0000,
        decreases end - i,
    {
        let d: u64 = (s[i] as u32 - 48) as u64;
        proof {
            let pre = s@.subrange(start as int, i as int);
            let post = s@.subrange(start as int, i + 1);
            assert(post.drop_last() =~= pre);
            assert(post.last() == s@[i as int]);
            assert(dec_val(post) == dec_val(pre) * 10 + digit_val(s@[i as int]));
            if dec_val(pre) > u32::MAX {
                assert(dec_val(pre) * 10 + digit_val(s@[i as int]) > u32::MAX);
            }
        }
        acc = acc * 10 + d;
        if acc > 0xFFFF_FFFF {
            acc = 0x1_0000_0000;
        }
        i += 1;
    }
    if acc > 0xFFFF_FFFF {
        None
    } else {
        Some(acc as u32)
    }
}

/// Appends the decimal numeral of `n` to `out`.
pub fn push_u64_dec(n: u64, out: &mut Vec<char>)
    ensures
        final(out)@ == old(out)@ + dec_str(n as nat),
    decreases n,
{
    if n < 10 {
        let c: char = match n {
            0 => '0',
            1 => '1',
            2 => '2',
            3 => '3',
            4 => '4',
            5 => '5',
            6 => '6',
            7 => '7',
            8 => '8',
            _ => '9',
        };
        out.push(c);
        proof {
            assert(out@ =~= old(out)@ + dec_str(n as nat));
        }
    } else {
        push_u64_dec(n / 10, out);
        let d: u64 = n % 10;
        let c: char = match d {
            0 => '0',
            1 => '1',
            2 => '2',
            3 => '3',
            4 => '4',
            5 => '5',
            6 => '6',
            7 => '7',
            8 => '8',
            _ => '9',
        };
        out.push(c);
        proof {
            assert(out@ =~= old(out)@ + dec_str(n as nat));
        }
    }
}

/// Appends the characters of `s` from `start` to `end` to `out`.
pub fn push_range(out: &mut Vec<char>, s: &[char], start: usize, end: usize)
    requires
        start <= end <= s@.len(),
    ensures
        final(out)@ == old(out)@ + s@.subrange(start as int, end as int),
{
    let mut k: usize = start;
    while k < end
        invariant
            start <= k <= end <= s@.len(),
            out@ == old(out)@ + s@.subrange(start as int, k as int),
        decreases end - k,
    {
        out.push(s[k]);
        proof {
            assert(old(out)@ + s@.subrange(start as int, k + 1) =~= (old(out)@ + s@.subrange(
                start as int,
                k as int,
            )).push(s@[k as int]));
        }
        k += 1;
    }
}

/// The characters of the string, in order.
///
/// Relies on str::chars, which yields the characters of the string
/// from first to last.
#[verifier::external_body]
pub fn str_to_chars(s: &str) -> (r: Vec<char>)
    ensures
        r@ == s@,
{
    s.chars().collect()
}

/// Whether two character slices hold the same characters.
pub fn chars_eq(a: &[char], b: &[char]) -> (r: bool)
    ensures
        r == (a@ == b@),
{
    if a.len() != b.len() {
        return false;
    }
    let mut k: usize = 0;
    while k < a.len()
        invariant
            0 <= k <= a@.len(),
            a@.len() == b@.len(),
            forall|j: int| 0 <= j < k ==> a@[j] == b@[j],
        decreases a@.len() - k,
    {
        if a[k] != b[k] {
            return false;
        }
        k += 1;
    }
    proof {
        assert(a@ =~= b@);
    }
    true
}

/// Whether the string holds exactly the characters of `lit`.
pub fn name_is(name: &str, lit: &str) -> (r: bool)
    ensures
        r == (name@ == lit@),
{
    let a = str_to_chars(name);
    let b = str_to_chars(lit);
    chars_eq(a.as_slice(), b.as_slice())
}

/// Appends the characters of the string `s` to `out`.
pub fn push_str_chars(out: &mut Vec<char>, s: &str)
    ensures
        final(out)@ == old(out)@ + s@,
{
    let v = str_to_chars(s);
    out.extend_from_slice(v.as_slice());
    proof {
        assert(out@ =~= old(out)@ + s@);
    }
}

/// A string holding exactly the given characters, in order.
///
/// Relies on String::from_iter, which concatenates the characters
/// of the iterator in order.
#[verifier::external_body]
pub fn chars_to_string(v: &Vec<char>) -> (r: String)
    ensures
        r@ == v@,
{
    v.iter().collect()
}

} // verus!
