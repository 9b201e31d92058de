use vstd::prelude::*;
use vstd::utf8::encode_utf8;

use crate::error::LinkError;
use crate::text::{is_ascii_alpha, is_ascii_digit, push_char};

verus! {

/// The longest link name, in bytes.
pub const MAX_LINK_NAME_BYTES: usize = 16;

/// A link name is non-empty and at most sixteen bytes long.
pub open spec fn name_sane(s: Seq<char>) -> bool {
    s.len() > 0 && encode_utf8(s).len() <= MAX_LINK_NAME_BYTES
}

/// The length of the run of ASCII letters at the start of `s`.
pub open spec fn alpha_prefix_len(s: Seq<char>) -> nat
    decreases s.len(),
{
    if s.len() > 0 && is_ascii_alpha(s[0]) {
        1 + alpha_prefix_len(s.drop_first())
    } else {
        0
    }
}

/// The alphabetic prefix of a link name.
pub open spec fn name_prefix(s: Seq<char>) -> Seq<char> {
    s.subrange(0, alpha_prefix_len(s) as int)
}

/// What follows the alphabetic prefix of a link name.
pub open spec fn name_suffix(s: Seq<char>) -> Seq<char> {
    s.subrange(alpha_prefix_len(s) as int, s.len() as int)
}

pub open spec fn all_digits(s: Seq<char>) -> bool {
    s.len() > 0 && forall|i: int| 0 <= i < s.len() ==> is_ascii_digit(#[trigger] s[i])
}

pub open spec fn digit_value(c: char) -> nat {
    (c as u32 - '0' as u32) as nat
}

/// The number that a string of decimal digits stands for.
pub open spec fn digits_value(s: Seq<char>) -> nat
    decreases s.len(),
{
    if s.len() == 0 {
        0
    } else {
        digits_value(s.drop_last()) * 10 + digit_value(s.last())
    }
}

/// Whether a string of decimal digits stands for a number that fits in `u64`.
pub open spec fn parses_as_u64(s: Seq<char>) -> bool {
    all_digits(s) && digits_value(s) <= u64::MAX
}

/// The decimal digits of `n`, without leading zeros.
pub open spec fn decimal(n: nat) -> Seq<char>
    decreases n,
{
    if n < 10 {
        seq![digit_char(n)]
    } else {
        decimal(n / 10).push(digit_char(n % 10))
    }
}

pub open spec fn digit_char(d: nat) -> char {
    if d == 0 {
        '0'
    } else if d == 1 {
        '1'
    } else if d == 2 {
        '2'
    } else if d == 3 {
        '3'
    } else if d == 4 {
        '4'
    } else if d == 5 {
        '5'
    } else if d == 6 {
        '6'
    } else if d == 7 {
        '7'
    } else if d == 8 {
        '8'
    } else {
        '9'
    }
}

proof fn lemma_alpha_prefix_len(s: Seq<char>, k: int)
    requires
        0 <= k <= s.len(),
        forall|j: int| 0 <= j < k ==> is_ascii_alpha(#[trigger] s[j]),
        k == s.len() || !is_ascii_alpha(s[k]),
    ensures
        alpha_prefix_len(s) == k,
    decreases k,
{
    if k > 0 {
        assert(is_ascii_alpha(s[0]));
        let t = s.drop_first();
        assert forall|j: int| 0 <= j < k - 1 implies is_ascii_alpha(#[trigger] t[j]) by {
            assert(t[j] == s[j + 1]);
        }
        if k - 1 < t.len() {
            assert(t[k - 1] == s[k]);
        }
        lemma_alpha_prefix_len(t, k - 1);
    }
}

/// The alphabetic prefix is no longer than the name.
pub proof fn lemma_alpha_prefix_len_bound(s: Seq<char>)
    ensures
        alpha_prefix_len(s) <= s.len(),
    decreases s.len(),
{
    if s.len() > 0 && is_ascii_alpha(s[0]) {
        lemma_alpha_prefix_len_bound(s.drop_first());
    }
}

proof fn lemma_digits_value_prefix(s: Seq<char>, j: int)
    requires
        0 <= j <= s.len(),
    ensures
        digits_value(s.subrange(0, j)) <= digits_value(s),
    decreases s.len(),
{
    if j < s.len() {
        assert(s.drop_last().subrange(0, j) =~= s.subrange(0, j));
        lemma_digits_value_prefix(s.drop_last(), j);
    } else {
        assert(s.subrange(0, j) =~= s);
    }
}

fn ascii_alpha(c: char) -> (r: bool)
    ensures
        r == is_ascii_alpha(c),
{
    ('a' <= c && c <= 'z') || ('A' <= c && c <= 'Z')
}

/// The length of the alphabetic prefix of `name`.
fn alpha_prefix_end(name: &str) -> (k: usize)
    ensures
        k == alpha_prefix_len(name@),
        k <= name@.len(),
{
    let n = name.unicode_len();
    let mut k: usize = 0;
    while k < n && ascii_alpha(name.get_char(k))
        invariant
            n == name@.len(),
            0 <= k <= n,
            forall|j: int| 0 <= j < k ==> is_ascii_alpha(#[trigger] name@[j]),
        decreases n - k,
    {
        k += 1;
    }
    proof {
        lemma_alpha_prefix_len(name@, k as int);
    }
    k
}

/// Reads the decimal number that the characters `from..` of `s` spell.
pub fn parse_u64_from(s: &str, from: usize) -> (r: Result<u64, LinkError>)
    requires
        from <= s@.len(),
    ensures
        parses_as_u64(s@.subrange(from as int, s@.len() as int)) ==> r == Ok::<u64, LinkError>(
            digits_value(s@.subrange(from as int, s@.len() as int)) as u64,
        ),
        !parses_as_u64(s@.subrange(from as int, s@.len() as int)) ==> r == Err::<u64, LinkError>(
            LinkError::InvalidSuffix,
        ),
{
    let ghost t = s@.subrange(from as int, s@.len() as int);
    let n = s.unicode_len();
    if from == n {
        return Err(LinkError::InvalidSuffix);
    }
    let mut i: usize = from;
    while i < n
        invariant
            n == s@.len(),
            from <= i <= n,
            t == s@.subrange(from as int, n as int),
            forall|j: int| 0 <= j < i - from ==> is_ascii_digit(#[trigger] t[j]),
        decreases n - i,
    {
        let c = s.get_char(i);
        if !('0' <= c && c <= '9') {
            assert(t[i - from] == c);
            return Err(LinkError::InvalidSuffix);
        }
        i += 1;
    }
    let mut acc: u64 = 0;
    let mut i: usize = from;
    while i < n
        invariant
            n == s@.len(),
            from <= i <= n,
            t == s@.subrange(from as int, n as int),
            all_digits(t),
            acc == digits_value(t.subrange(0, i - from)),
        decreases n - i,
    {
        let c = s.get_char(i);
        assert(t[i - from] == c);
        let d = (c as u32 - '0' as u32) as u64;
        proof {
            let p = t.subrange(0, i - from + 1);
            assert(p.drop_last() =~= t.subrange(0, i - from));
            assert(p.last() == c);
            assert(digits_value(p) == acc * 10 + d);
        }
        if acc > (u64::MAX - d) / 10 {
            proof {
                lemma_digits_value_prefix(t, i - from + 1);
            }
            return Err(LinkError::InvalidSuffix);
        }
        acc = acc * 10 + d;
        i += 1;
    }
    assert(t.subrange(0, n - from) =~= t);
    Ok(acc)
}

/// The numeric suffix of a link name.
pub fn link_name_suffix(name: &str) -> (r: Result<u64, LinkError>)
    ensures
        parses_as_u64(name_suffix(name@)) ==> r == Ok::<u64, LinkError>(
            digits_value(name_suffix(name@)) as u64,
        ),
        !parses_as_u64(name_suffix(name@)) ==> r == Err::<u64, LinkError>(LinkError::InvalidSuffix),
{
    let k = alpha_prefix_end(name);
    parse_u64_from(name, k)
}

fn digit_to_char(d: u64) -> (c: char)
    requires
        d < 10,
    ensures
        c == digit_char(d as nat),
{
    if d == 0 {
        '0'
    } else if d == 1 {
        '1'
    } else if d == 2 {
        '2'
    } else if d == 3 {
        '3'
    } else if d == 4 {
        '4'
    } else if d == 5 {
        '5'
    } else if d == 6 {
        '6'
    } else if d == 7 {
        '7'
    } else if d == 8 {
        '8'
    } else {
        '9'
    }
}

/// Appends the decimal digits of `n` to `s`.
pub fn push_decimal(s: &mut String, n: u64)
    ensures
        final(s)@ == old(s)@ + decimal(n as nat),
{
    let mut digits: Vec<char> = Vec::new();
    let mut m: u64 = n;
    while m >= 10
        invariant
            m <= n,
            decimal(n as nat) == decimal(m as nat) + digits@.reverse(),
        decreases m,
    {
        let c = digit_to_char(m % 10);
        proof {
            assert(digits@.push(c).reverse() =~= seq![c] + digits@.reverse());
            assert(decimal(m as nat) == decimal((m / 10) as nat).push(c));
            assert(decimal((m / 10) as nat).push(c) + digits@.reverse() =~= decimal(
                (m / 10) as nat,
            ) + (seq![c] + digits@.reverse()));
        }
        digits.push(c);
        m = m / 10;
    }
    let c = digit_to_char(m);
    proof {
        assert(decimal(m as nat) == seq![c]);
        assert(digits@.push(c).reverse() =~= seq![c] + digits@.reverse());
    }
    digits.push(c);
    assert(decimal(n as nat) =~= digits@.reverse());
    let mut j: usize = digits.len();
    while j > 0
        invariant
            j <= digits@.len(),
            decimal(n as nat) =~= digits@.reverse(),
            s@ =~= old(s)@ + digits@.reverse().subrange(0, digits@.len() - j),
        decreases j,
    {
        j -= 1;
        push_char(s, digits[j]);
    }
}

} // verus!

verus! {

proof fn lemma_digit_char(d: nat)
    requires
        d < 10,
    ensures
        is_ascii_digit(digit_char(d)),
        digit_value(digit_char(d)) == d,
{
}

/// The decimal digits of a number spell that number back.
pub proof fn lemma_decimal(n: nat)
    ensures
        all_digits(decimal(n)),
        digits_value(decimal(n)) == n,
        is_ascii_digit(decimal(n)[0]),
    decreases n,
{
    if n < 10 {
        lemma_digit_char(n);
        assert(decimal(n).drop_last() =~= Seq::<char>::empty());
        assert(digits_value(Seq::<char>::empty()) == 0);
        assert(digits_value(decimal(n)) == digits_value(decimal(n).drop_last()) * 10 + digit_value(
            decimal(n).last(),
        ));
    } else {
        lemma_decimal(n / 10);
        lemma_digit_char(n % 10);
        let s = decimal(n / 10);
        let t = decimal(n);
        assert(t == s.push(digit_char(n % 10)));
        assert(t.drop_last() =~= s);
        assert(t[0] == s[0]);
        assert(digits_value(t) == digits_value(s) * 10 + digit_value(t.last()));
        assert((n / 10) * 10 + n % 10 == n);
        assert forall|i: int| 0 <= i < t.len() implies is_ascii_digit(#[trigger] t[i]) by {
            if i < s.len() {
                assert(t[i] == s[i]);
            }
        }
    }
}

/// Splitting a name made of an alphabetic prefix and the digits of a number
/// gives that prefix and those digits back.
pub proof fn lemma_split_name(prefix: Seq<char>, digits: Seq<char>)
    requires
        forall|i: int| 0 <= i < prefix.len() ==> is_ascii_alpha(#[trigger] prefix[i]),
        all_digits(digits),
    ensures
        name_prefix(prefix + digits) == prefix,
        name_suffix(prefix + digits) == digits,
{
    let s = prefix + digits;
    assert forall|j: int| 0 <= j < prefix.len() implies is_ascii_alpha(#[trigger] s[j]) by {
        assert(s[j] == prefix[j]);
    }
    assert(s[prefix.len() as int] == digits[0]);
    lemma_alpha_prefix_len(s, prefix.len() as int);
    assert(s.subrange(0, prefix.len() as int) =~= prefix);
    assert(s.subrange(prefix.len() as int, s.len() as int) =~= digits);
}

} // verus!

verus! {

/// Digits without a leading zero.
pub open spec fn canonical_digits(s: Seq<char>) -> bool {
    all_digits(s) && (s.len() == 1 || s[0] != '0')
}

proof fn lemma_digit_char_of_value(c: char)
    requires
        is_ascii_digit(c),
    ensures
        digit_value(c) < 10,
        digit_char(digit_value(c)) == c,
{
    assert(c == '0' || c == '1' || c == '2' || c == '3' || c == '4' || c == '5' || c == '6' || c
        == '7' || c == '8' || c == '9') by {
        assert('0' as u32 == 48);
        assert('9' as u32 == 57);
    }
}

proof fn lemma_digits_value_positive(s: Seq<char>)
    requires
        all_digits(s),
        s[0] != '0',
    ensures
        digits_value(s) >= 1,
    decreases s.len(),
{
    if s.len() == 1 {
        lemma_digit_char_of_value(s[0]);
        assert(s.drop_last() =~= Seq::<char>::empty());
        assert(digits_value(Seq::<char>::empty()) == 0);
        assert(s.last() == s[0]);
        if digit_value(s[0]) == 0 {
            assert(digit_char(0) == '0');
        }
    } else {
        let p = s.drop_last();
        assert(p[0] == s[0]);
        assert forall|i: int| 0 <= i < p.len() implies is_ascii_digit(#[trigger] p[i]) by {
            assert(p[i] == s[i]);
        }
        lemma_digits_value_positive(p);
    }
}

/// Digits without a leading zero are the decimal digits of their value.
pub proof fn lemma_canonical_digits(s: Seq<char>)
    requires
        canonical_digits(s),
    ensures
        decimal(digits_value(s)) == s,
    decreases s.len(),
{
    let c = s.last();
    assert(is_ascii_digit(c));
    lemma_digit_char_of_value(c);
    if s.len() == 1 {
        assert(s.drop_last() =~= Seq::<char>::empty());
        assert(digits_value(Seq::<char>::empty()) == 0);
        assert(digits_value(s) == digit_value(c));
        assert(s =~= seq![c]);
    } else {
        let p = s.drop_last();
        assert(p[0] == s[0]);
        assert forall|i: int| 0 <= i < p.len() implies is_ascii_digit(#[trigger] p[i]) by {
            assert(p[i] == s[i]);
        }
        lemma_canonical_digits(p);
        lemma_digits_value_positive(p);
        let v = digits_value(s);
        assert(v == digits_value(p) * 10 + digit_value(c));
        assert(v >= 10);
        assert(v / 10 == digits_value(p));
        assert(v % 10 == digit_value(c));
        assert(decimal(v) == decimal(v / 10).push(digit_char(v % 10)));
        assert(s =~= p.push(c));
    }
}

} // verus!
