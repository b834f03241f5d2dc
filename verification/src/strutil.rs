//! Small string helpers shared by the matchers, the editor format and the
//! snapshot codec.  Everything here works on `char` vectors so that the rest
//! of the crate can reason about plain `Seq<char>` views.

use vstd::prelude::*;

verus! {

use vstd::std_specs::iter::IteratorSpec;

/// Collects the characters of a string slice into a vector with the same view.
pub fn chars_of(s: &str) -> (v: Vec<char>)
    ensures
        v@ == s@,
{
    let mut v: Vec<char> = Vec::new();
    let mut it = s.chars();
    loop
        invariant_except_break
            it.obeys_prophetic_iter_laws(),
            v@ + it.remaining() == s@,
        ensures
            v@ == s@,
        decreases s@.len() - v@.len(),
    {
        match it.next() {
            Some(c) => {
                v.push(c);
            },
            None => {
                proof {
                    assert(v@ =~= s@);
                }
                break;
            },
        }
    }
    v
}

/// Relies on `String`'s `FromIterator<char>` impl: collecting characters
/// yields the string made of exactly those characters in order.
#[verifier::external_body]
pub fn string_from_chars(v: &Vec<char>) -> (s: String)
    ensures
        s@ == v@,
{
    v.iter().copied().collect()
}

/// Element-wise equality of two character vectors.
pub fn eq_chars(a: &Vec<char>, b: &Vec<char>) -> (r: bool)
    ensures
        r == (a@ == b@),
{
    if a.len() != b.len() {
        return false;
    }
    let mut i: usize = 0;
    while i < a.len()
        invariant
            a@.len() == b@.len(),
            i <= a@.len(),
            forall|j: int| 0 <= j < i ==> a@[j] == b@[j],
        decreases a@.len() - i,
    {
        if a[i] != b[i] {
            return false;
        }
        i = i + 1;
    }
    proof {
        assert(a@ =~= b@);
    }
    true
}

/// The digit character for a value below ten.
pub open spec fn digit_char(d: int) -> char {
    if d == 0 { '0' }
    else if d == 1 { '1' }
    else if d == 2 { '2' }
    else if d == 3 { '3' }
    else if d == 4 { '4' }
    else if d == 5 { '5' }
    else if d == 6 { '6' }
    else if d == 7 { '7' }
    else if d == 8 { '8' }
    else { '9' }
}

/// Decimal digits of a non-negative number, most significant first.
pub open spec fn spec_digits(n: int) -> Seq<char>
    decreases n,
{
    if n < 10 {
        seq![digit_char(n)]
    } else {
        spec_digits(n / 10) + seq![digit_char(n % 10)]
    }
}

/// Decimal rendering of a signed number: a minus sign, then the digits of
/// the magnitude.
pub open spec fn spec_decimal(n: int) -> Seq<char> {
    if n < 0 {
        seq!['-'] + spec_digits(-n)
    } else {
        spec_digits(n)
    }
}

fn digit_char_exec(d: u64) -> (c: char)
    requires
        d < 10,
    ensures
        c == digit_char(d as int),
{
    if d == 0 { '0' }
    else if d == 1 { '1' }
    else if d == 2 { '2' }
    else if d == 3 { '3' }
    else if d == 4 { '4' }
    else if d == 5 { '5' }
    else if d == 6 { '6' }
    else if d == 7 { '7' }
    else if d == 8 { '8' }
    else { '9' }
}

/// Appends the decimal digits of `n` to `out`.
pub fn push_digits_u64(n: u64, out: &mut Vec<char>)
    ensures
        final(out)@ == old(out)@ + spec_digits(n as int),
    decreases n,
{
    if n < 10 {
        out.push(digit_char_exec(n));
    } else {
        push_digits_u64(n / 10, out);
        out.push(digit_char_exec(n % 10));
        proof {
            assert(old(out)@ + spec_digits(n as int / 10) + seq![digit_char(n as int % 10)]
                =~= old(out)@ + (spec_digits(n as int / 10) + seq![digit_char(n as int % 10)]));
        }
    }
}

/// The decimal rendering of an unsigned number.
pub fn decimal_u64(n: u64) -> (s: String)
    ensures
        s@ == spec_digits(n as int),
{
    let mut v: Vec<char> = Vec::new();
    push_digits_u64(n, &mut v);
    string_from_chars(&v)
}

/// The decimal rendering of a signed number.
pub fn decimal_i64(n: i64) -> (s: String)
    ensures
        s@ == spec_decimal(n as int),
{
    let mut v: Vec<char> = Vec::new();
    if n < 0 {
        v.push('-');
        let ghost pre = v@;
        let mag: u64 = if n == i64::MIN {
            9223372036854775808u64
        } else {
            (-n) as u64
        };
        proof {
            assert(mag as int == -(n as int));
        }
        push_digits_u64(mag, &mut v);
        proof {
            assert(v@ =~= seq!['-'] + spec_digits(-(n as int)));
        }
    } else {
        push_digits_u64(n as u64, &mut v);
    }
    string_from_chars(&v)
}

/// Whether a character is a decimal digit.
pub open spec fn is_digit(c: char) -> bool {
    '0' <= c && c <= '9'
}

/// Numeric value of a digit sequence, most significant first.
pub open spec fn digits_value(s: Seq<char>) -> int
    decreases s.len(),
{
    if s.len() == 0 {
        0
    } else {
        digits_value(s.drop_last()) * 10 + (s.last() as int - '0' as int)
    }
}

/// What a strict decimal parse of `s` yields: the value when `s` is one or
/// more digits, optionally preceded by a minus sign, and nothing otherwise.
pub open spec fn spec_parse_decimal(s: Seq<char>) -> Option<int> {
    if s.len() >= 1 && s[0] == '-' {
        let d = s.drop_first();
        if d.len() >= 1 && (forall|i: int| 0 <= i < d.len() ==> is_digit(#[trigger] d[i])) {
            Some(-digits_value(d))
        } else {
            None
        }
    } else if s.len() >= 1 && (forall|i: int| 0 <= i < s.len() ==> is_digit(#[trigger] s[i])) {
        Some(digits_value(s))
    } else {
        None
    }
}

/// Parses an unsigned decimal span of `v` from `from` to `to`, refusing
/// values that do not fit below `limit`.
pub fn parse_digits_span(v: &Vec<char>, from: usize, to: usize, limit: u64) -> (r: Option<u64>)
    requires
        from <= to <= v@.len(),
    ensures
        match r {
            Some(x) => {
                &&& to > from
                &&& forall|i: int| from <= i < to ==> is_digit(#[trigger] v@[i])
                &&& x as int == digits_value(v@.subrange(from as int, to as int))
                &&& x <= limit
            },
            None => (exists|i: int| from <= i < to && !is_digit(#[trigger] v@[i]))
                || to == from
                || digits_value(v@.subrange(from as int, to as int)) > limit,
        },
{
    if to == from {
        return None;
    }
    let mut acc: u64 = 0;
    let mut i = from;
    while i < to
        invariant
            from <= i <= to <= v@.len(),
            forall|j: int| from <= j < i ==> is_digit(#[trigger] v@[j]),
            acc as int == digits_value(v@.subrange(from as int, i as int)),
            acc <= limit,
        decreases to - i,
    {
        let c = v[i];
        if !('0' <= c && c <= '9') {
            return None;
        }
        let d: u64 = (c as u32 as u64) - 48;
        proof {
            assert(v@.subrange(from as int, i as int + 1).drop_last()
                =~= v@.subrange(from as int, i as int));
            assert(v@.subrange(from as int, i as int + 1).last() == v@[i as int]);
        }
        if d > limit || acc > (limit - d) / 10 {
            proof {
                let sub = v@.subrange(from as int, i as int + 1);
                assert(digits_value(sub) == acc as int * 10 + d);
                assert(acc as int * 10 + d > limit) by (nonlinear_arith)
                    requires
                        d > limit || acc as int > (limit as int - d) / 10,
                        0 <= d < 10,
                        0 <= limit,
                        0 <= acc,
                ;
                if forall|j: int| from <= j < to ==> is_digit(#[trigger] v@[j]) {
                    let whole = v@.subrange(from as int, to as int);
                    assert forall|j: int| 0 <= j < whole.len() implies is_digit(#[trigger] whole[j]) by {
                        assert(whole[j] == v@[from + j]);
                    }
                    lemma_digits_value_grows(whole, i as int + 1 - from as int);
                    assert(whole.subrange(0, i as int + 1 - from as int) =~= sub);
                }
            }
            return None;
        }
        acc = acc * 10 + d;
        i = i + 1;
    }
    proof {
        assert(v@.subrange(from as int, to as int) =~= v@.subrange(from as int, i as int));
    }
    Some(acc)
}

/// A longer digit string never has a smaller value: the value of a prefix
/// bounds the whole from below.
pub proof fn lemma_digits_value_grows(s: Seq<char>, k: int)
    requires
        0 <= k <= s.len(),
        forall|i: int| 0 <= i < s.len() ==> is_digit(#[trigger] s[i]),
    ensures
        digits_value(s) >= digits_value(s.subrange(0, k)),
        digits_value(s) >= 0,
    decreases s.len(),
{
    if s.len() == 0 {
        assert(s.subrange(0, k) =~= s);
    } else {
        let d = s.drop_last();
        assert forall|i: int| 0 <= i < d.len() implies is_digit(#[trigger] d[i]) by {
            assert(d[i] == s[i]);
        }
        lemma_digits_value_grows(d, if k <= d.len() { k } else { d.len() as int });
        assert(digits_value(d) >= 0);
        assert(s.last() as int - '0' as int >= 0);
        assert(digits_value(s) >= digits_value(d) * 10) by (nonlinear_arith)
            requires
                digits_value(s) == digits_value(d) * 10 + (s.last() as int - '0' as int),
                s.last() as int - '0' as int >= 0,
        ;
        assert(digits_value(d) * 10 >= digits_value(d)) by (nonlinear_arith)
            requires digits_value(d) >= 0;
        if k <= d.len() {
            assert(s.subrange(0, k) =~= d.subrange(0, k));
        } else {
            assert(s.subrange(0, k) =~= s);
        }
    }
}

/// The sequence of characters that Unicode lowercasing produces: a function
/// of the input characters alone.
pub uninterp spec fn lower_of(s: Seq<char>) -> Seq<char>;

/// Relies on `str::to_lowercase`: the result depends on the input
/// characters alone.
#[verifier::external_body]
pub fn lowercase(s: &str) -> (r: String)
    ensures
        r@ == lower_of(s@),
{
    s.to_lowercase()
}

} // verus!
