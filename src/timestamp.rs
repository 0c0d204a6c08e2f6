use vstd::prelude::*;

use crate::text::{chars_of, push_char, string_of};

verus! {

/// Whether `c` is an ASCII decimal digit.
pub open spec fn is_digit(c: char) -> bool {
    '0' <= c && c <= '9'
}

/// The numeric value of an ASCII decimal digit.
pub open spec fn digit_val(c: char) -> nat {
    (c as u32 - '0' as u32) as nat
}

/// The digit character of a value below ten.
pub open spec fn digit_char(d: nat) -> char {
    seq!['0', '1', '2', '3', '4', '5', '6', '7', '8', '9'][d as int]
}

/// The value of a run of decimal digits, most significant first.
pub open spec fn digits_value(s: Seq<char>) -> nat
    decreases s.len(),
{
    if s.len() == 0 {
        0
    } else {
        digits_value(s.drop_last()) * 10 + digit_val(s.last())
    }
}

/// The length of the run of digits of `s` that starts at `i`.
pub open spec fn digit_run(s: Seq<char>, i: int) -> nat
    decreases s.len() - i,
{
    if 0 <= i < s.len() && is_digit(s[i]) {
        1 + digit_run(s, i + 1)
    } else {
        0
    }
}

/// A fraction of a second given by one to three digits, in milliseconds:
/// the digits are read as the leading digits of a three-digit value.
pub open spec fn fraction_ms(f: Seq<char>) -> nat {
    if f.len() == 1 {
        digits_value(f) * 100
    } else if f.len() == 2 {
        digits_value(f) * 10
    } else {
        digits_value(f)
    }
}

/// The timestamp token `[MM:SS.fff]` that starts at index `i` of `s`:
/// the index just past its closing bracket and its value in milliseconds,
/// or `None` where no well-formed token starts there. The minutes are one
/// or more digits, the seconds exactly two digits up to 59, the fraction
/// one to three digits.
pub open spec fn token_at(s: Seq<char>, i: int) -> Option<(int, nat)> {
    let m0 = i + 1;
    let m = digit_run(s, m0) as int;
    let s0 = m0 + m + 1;
    let f0 = s0 + 3;
    let f = digit_run(s, f0) as int;
    let end = f0 + f + 1;
    if 0 <= i && end <= s.len() && s[i] == '[' && m >= 1 && s[m0 + m] == ':' && digit_run(s, s0)
        == 2 && s[s0 + 2] == '.' && 1 <= f <= 3 && s[f0 + f] == ']' && digits_value(
        s.subrange(s0, s0 + 2),
    ) <= 59 {
        Some(
            (
                end,
                digits_value(s.subrange(m0, m0 + m)) * 60000 + digits_value(s.subrange(s0, s0 + 2))
                    * 1000 + fraction_ms(s.subrange(f0, f0 + f)),
            ),
        )
    } else {
        None
    }
}

/// The value of a whole token: `Some` exactly where all of `t` is one
/// well-formed timestamp token.
pub open spec fn decode(t: Seq<char>) -> Option<nat> {
    match token_at(t, 0) {
        Some((end, ms)) => if end == t.len() {
            Some(ms)
        } else {
            None
        },
        None => None,
    }
}

/// The decimal digits of `n`, without leading zeros.
pub open spec fn decimal(n: nat) -> Seq<char>
    decreases n,
{
    if n < 10 {
        seq![digit_char(n)]
    } else {
        decimal(n / 10).push(digit_char(n % 10))
    }
}

/// The decimal digits of `n`, padded with zeros to at least `width` digits.
pub open spec fn padded(n: nat, width: nat) -> Seq<char>
    decreases width,
{
    if width <= decimal(n).len() {
        decimal(n)
    } else {
        seq!['0'] + padded(n, (width - 1) as nat)
    }
}

/// The token that writes `t` milliseconds: minutes with at least two digits,
/// seconds with two and milliseconds with three.
pub open spec fn encode(t: nat) -> Seq<char> {
    seq!['['] + padded(t / 60000, 2) + seq![':'] + padded((t / 1000) % 60, 2) + seq!['.']
        + padded(t % 1000, 3) + seq![']']
}

/// Why a timestamp token was not read.
#[derive(Debug, Clone, Copy, PartialEq, Eq)]
pub enum TimeError {
    /// The text does not hold a well-formed token at that place.
    MalformedTimestamp,
    /// The token is well-formed but its value does not fit in `usize`.
    TimestampTooLarge,
}

fn is_digit_exec(c: char) -> (r: bool)
    ensures
        r == is_digit(c),
{
    '0' <= c && c <= '9'
}

/// The length of the run of digits of `cs` that starts at `i`.
pub(crate) fn digit_run_exec(cs: &Vec<char>, i: usize) -> (n: usize)
    requires
        i <= cs.len(),
    ensures
        n == digit_run(cs@, i as int),
        i + n <= cs.len(),
{
    let mut k: usize = i;
    while k < cs.len() && is_digit_exec(cs[k])
        invariant
            i <= k <= cs.len(),
            digit_run(cs@, i as int) == (k - i) + digit_run(cs@, k as int),
        decreases cs.len() - k,
    {
        k = k + 1;
    }
    proof {
        assert(digit_run(cs@, k as int) == 0);
    }
    k - i
}

proof fn lemma_digits_value_step(s: Seq<char>, k: int)
    requires
        0 <= k < s.len(),
    ensures
        digits_value(s.take(k + 1)) == digits_value(s.take(k)) * 10 + digit_val(s[k]),
{
    assert(s.take(k + 1).drop_last() =~= s.take(k));
}

proof fn lemma_digits_value_mono(s: Seq<char>, j: int, k: int)
    requires
        0 <= j <= k <= s.len(),
    ensures
        digits_value(s.take(j)) <= digits_value(s.take(k)),
    decreases k - j,
{
    if j < k {
        lemma_digits_value_mono(s, j, k - 1);
        lemma_digits_value_step(s, k - 1);
    }
}

/// The value of the digits `cs[a..b]`, or `None` where it does not fit in
/// `usize`.
pub(crate) fn digits_value_exec(cs: &Vec<char>, a: usize, b: usize) -> (r: Option<usize>)
    requires
        a <= b <= cs.len(),
        forall|k: int| a <= k < b ==> is_digit(#[trigger] cs@[k]),
    ensures
        match r {
            Some(v) => v == digits_value(cs@.subrange(a as int, b as int)),
            None => digits_value(cs@.subrange(a as int, b as int)) > usize::MAX,
        },
{
    let ghost s = cs@.subrange(a as int, b as int);
    let mut v: usize = 0;
    let mut k: usize = a;
    assert(s.take(0) =~= Seq::<char>::empty());
    while k < b
        invariant
            a <= k <= b <= cs.len(),
            s == cs@.subrange(a as int, b as int),
            forall|k: int| a <= k < b ==> is_digit(#[trigger] cs@[k]),
            v == digits_value(s.take(k - a)),
        decreases b - k,
    {
        proof {
            lemma_digits_value_step(s, k - a);
        }
        let d = (cs[k] as u32 - '0' as u32) as usize;
        assert(d == digit_val(s[k - a]));
        match v.checked_mul(10) {
            Some(w) => match w.checked_add(d) {
                Some(x) => {
                    v = x;
                },
                None => {
                    proof {
                        lemma_digits_value_mono(s, k - a + 1, s.len() as int);
                        assert(s.take(s.len() as int) =~= s);
                    }
                    return None;
                },
            },
            None => {
                proof {
                    lemma_digits_value_mono(s, k - a + 1, s.len() as int);
                    assert(s.take(s.len() as int) =~= s);
                }
                return None;
            },
        }
        k = k + 1;
    }
    assert(s.take(b - a) =~= s);
    Some(v)
}

/// Reads the timestamp token that starts at index `i` of `cs`: the index
/// just past it and its value in milliseconds.
pub fn parse_time_at(cs: &Vec<char>, i: usize) -> (r: Result<(usize, usize), TimeError>)
    requires
        i <= cs.len(),
    ensures
        match r {
            Ok((end, ms)) => token_at(cs@, i as int) == Some((end as int, ms as nat)),
            Err(TimeError::MalformedTimestamp) => token_at(cs@, i as int) is None,
            Err(TimeError::TimestampTooLarge) => match token_at(cs@, i as int) {
                Some((_, ms)) => ms > usize::MAX,
                None => false,
            },
        },
{
    let ghost s = cs@;
    let n = cs.len();
    if i >= n || cs[i] != '[' {
        return Err(TimeError::MalformedTimestamp);
    }
    let m0 = i + 1;
    let m = digit_run_exec(cs, m0);
    if m == 0 || m0 + m >= n || cs[m0 + m] != ':' {
        return Err(TimeError::MalformedTimestamp);
    }
    let s0 = m0 + m + 1;
    let sr = digit_run_exec(cs, s0);
    if sr != 2 || s0 + 2 >= n || cs[s0 + 2] != '.' {
        return Err(TimeError::MalformedTimestamp);
    }
    let f0 = s0 + 3;
    let f = digit_run_exec(cs, f0);
    if f < 1 || f > 3 || f0 + f >= n || cs[f0 + f] != ']' {
        return Err(TimeError::MalformedTimestamp);
    }
    proof {
        lemma_digit_run_all(s, m0 as int);
        lemma_digit_run_all(s, s0 as int);
        lemma_digit_run_all(s, f0 as int);
    }
    proof {
        lemma_short_digits(s.subrange(s0 as int, s0 + 2));
        lemma_short_digits(s.subrange(f0 as int, f0 + f));
    }
    let sec = match digits_value_exec(cs, s0, s0 + 2) {
        Some(v) => v,
        None => {
            return Err(TimeError::MalformedTimestamp);
        },
    };
    if sec > 59 {
        return Err(TimeError::MalformedTimestamp);
    }
    let frac = match digits_value_exec(cs, f0, f0 + f) {
        Some(v) => v,
        None => {
            return Err(TimeError::MalformedTimestamp);
        },
    };
    let ms: usize = if f == 1 {
        frac * 100
    } else if f == 2 {
        frac * 10
    } else {
        frac
    };
    assert(ms == fraction_ms(s.subrange(f0 as int, f0 + f)));
    let min = match digits_value_exec(cs, m0, m0 + m) {
        Some(v) => v,
        None => {
            return Err(TimeError::TimestampTooLarge);
        },
    };
    let t = match min.checked_mul(60000) {
        Some(x) => match x.checked_add(sec * 1000 + ms as usize) {
            Some(y) => y,
            None => {
                return Err(TimeError::TimestampTooLarge);
            },
        },
        None => {
            return Err(TimeError::TimestampTooLarge);
        },
    };
    Ok((f0 + f + 1, t))
}

/// Reads a timestamp token at the start of `src`: the text that follows it
/// and its value in milliseconds.
pub fn parse_time(src: &str) -> (r: Result<(String, usize), TimeError>)
    ensures
        match r {
            Ok((rest, ms)) => match token_at(src@, 0) {
                Some((end, v)) => ms == v && rest@ == src@.subrange(end, src@.len() as int),
                None => false,
            },
            Err(TimeError::MalformedTimestamp) => token_at(src@, 0) is None,
            Err(TimeError::TimestampTooLarge) => match token_at(src@, 0) {
                Some((_, v)) => v > usize::MAX,
                None => false,
            },
        },
{
    let cs = chars_of(src);
    match parse_time_at(&cs, 0) {
        Ok((end, ms)) => {
            let rest = string_of(&cs, end, cs.len());
            Ok((rest, ms))
        },
        Err(e) => Err(e),
    }
}

fn digit_char_exec(d: usize) -> (c: char)
    requires
        d < 10,
    ensures
        c == digit_char(d as nat),
{
    let ds = ['0', '1', '2', '3', '4', '5', '6', '7', '8', '9'];
    proof {
        assert(ds@ =~= seq!['0', '1', '2', '3', '4', '5', '6', '7', '8', '9']);
    }
    ds[d]
}

/// Appends the decimal digits of `n`.
pub(crate) fn push_decimal(s: &mut String, n: usize)
    ensures
        final(s)@ == old(s)@ + decimal(n as nat),
    decreases n,
{
    if n < 10 {
        push_char(s, digit_char_exec(n));
    } else {
        push_decimal(s, n / 10);
        push_char(s, digit_char_exec(n % 10));
    }
}

/// The number of decimal digits of `n`.
fn decimal_len(n: usize) -> (r: usize)
    ensures
        r == decimal(n as nat).len(),
        r <= n as int + 1,
    decreases n,
{
    if n < 10 {
        1
    } else {
        decimal_len(n / 10) + 1
    }
}

/// Appends the decimal digits of `n`, padded with zeros to `width` digits.
fn push_padded(s: &mut String, n: usize, width: usize)
    ensures
        final(s)@ == old(s)@ + padded(n as nat, width as nat),
    decreases width,
{
    if width <= decimal_len(n) {
        push_decimal(s, n);
    } else {
        push_char(s, '0');
        push_padded(s, n, width - 1);
        assert(old(s)@.push('0') + padded(n as nat, (width - 1) as nat) =~= old(s)@ + (seq!['0']
            + padded(n as nat, (width - 1) as nat)));
    }
}

/// Appends the token that writes `time` milliseconds.
pub fn write_timestamp(result: &mut String, time: usize)
    ensures
        final(result)@ == old(result)@ + encode(time as nat),
{
    let ghost start = result@;
    push_char(result, '[');
    push_padded(result, time / 60000, 2);
    push_char(result, ':');
    push_padded(result, (time / 1000) % 60, 2);
    push_char(result, '.');
    push_padded(result, time % 1000, 3);
    push_char(result, ']');
    assert(result@ =~= start + encode(time as nat));
}

proof fn lemma_short_digits(s: Seq<char>)
    requires
        s.len() <= 3,
        forall|k: int| 0 <= k < s.len() ==> is_digit(#[trigger] s[k]),
    ensures
        digits_value(s) <= 999,
        s.len() <= 2 ==> digits_value(s) <= 99,
        s.len() <= 1 ==> digits_value(s) <= 9,
    decreases s.len(),
{
    if s.len() > 0 {
        lemma_short_digits(s.drop_last());
        assert(is_digit(s[s.len() - 1]));
    }
}

pub(crate) proof fn lemma_digit_run_all(s: Seq<char>, i: int)
    requires
        0 <= i,
    ensures
        forall|k: int| i <= k < i + digit_run(s, i) ==> is_digit(#[trigger] s[k]),
        i + digit_run(s, i) <= s.len() || digit_run(s, i) == 0,
    decreases s.len() - i,
{
    if 0 <= i < s.len() && is_digit(s[i]) {
        lemma_digit_run_all(s, i + 1);
    }
}

proof fn lemma_digit_char(d: nat)
    requires
        d < 10,
    ensures
        is_digit(digit_char(d)),
        digit_val(digit_char(d)) == d,
{
    let ds = seq!['0', '1', '2', '3', '4', '5', '6', '7', '8', '9'];
    if d == 0 {
        assert(ds[0] == '0');
    } else if d == 1 {
        assert(ds[1] == '1');
    } else if d == 2 {
        assert(ds[2] == '2');
    } else if d == 3 {
        assert(ds[3] == '3');
    } else if d == 4 {
        assert(ds[4] == '4');
    } else if d == 5 {
        assert(ds[5] == '5');
    } else if d == 6 {
        assert(ds[6] == '6');
    } else if d == 7 {
        assert(ds[7] == '7');
    } else if d == 8 {
        assert(ds[8] == '8');
    } else {
        assert(ds[9] == '9');
    }
}

proof fn lemma_decimal(n: nat)
    ensures
        digits_value(decimal(n)) == n,
        decimal(n).len() >= 1,
        forall|k: int| 0 <= k < decimal(n).len() ==> is_digit(#[trigger] decimal(n)[k]),
        n < 100 ==> decimal(n).len() <= 2,
        n < 1000 ==> decimal(n).len() <= 3,
    decreases n,
{
    if n < 10 {
        lemma_digit_char(n);
        assert(decimal(n).drop_last() =~= Seq::<char>::empty());
        assert(decimal(n).last() == digit_char(n));
        assert(digits_value(Seq::<char>::empty()) == 0);
    } else {
        lemma_decimal(n / 10);
        lemma_digit_char(n % 10);
        assert(decimal(n).drop_last() =~= decimal(n / 10));
        assert(decimal(n).last() == digit_char(n % 10));
        vstd::arithmetic::div_mod::lemma_fundamental_div_mod(n as int, 10);
    }
}

proof fn lemma_leading_zero(s: Seq<char>)
    ensures
        digits_value(seq!['0'] + s) == digits_value(s),
    decreases s.len(),
{
    if s.len() == 0 {
        assert((seq!['0'] + s).drop_last() =~= Seq::<char>::empty());
        assert((seq!['0'] + s).last() == '0');
        assert(digits_value(Seq::<char>::empty()) == 0);
    } else {
        lemma_leading_zero(s.drop_last());
        assert((seq!['0'] + s).drop_last() =~= seq!['0'] + s.drop_last());
        assert((seq!['0'] + s).last() == s.last());
    }
}

proof fn lemma_padded(n: nat, w: nat)
    ensures
        digits_value(padded(n, w)) == n,
        forall|k: int| 0 <= k < padded(n, w).len() ==> is_digit(#[trigger] padded(n, w)[k]),
        padded(n, w).len() == if w <= decimal(n).len() {
            decimal(n).len()
        } else {
            w
        },
    decreases w,
{
    lemma_decimal(n);
    if w > decimal(n).len() {
        lemma_padded(n, (w - 1) as nat);
        lemma_leading_zero(padded(n, (w - 1) as nat));
        let p = padded(n, (w - 1) as nat);
        assert forall|k: int| 0 <= k < padded(n, w).len() implies is_digit(
            #[trigger] padded(n, w)[k],
        ) by {
            if k > 0 {
                assert(padded(n, w)[k] == p[k - 1]);
            }
        }
    }
}

proof fn lemma_digit_run_block(s: Seq<char>, i: int, k: int)
    requires
        0 <= i,
        0 <= k,
        i + k <= s.len(),
        forall|j: int| i <= j < i + k ==> is_digit(#[trigger] s[j]),
        i + k == s.len() || !is_digit(s[i + k]),
    ensures
        digit_run(s, i) == k,
    decreases k,
{
    if k > 0 {
        lemma_digit_run_block(s, i + 1, k - 1);
    }
}

/// The token of `v` is read back as `v` whatever text follows it.
pub proof fn lemma_encode_prefix(v: nat, t: Seq<char>)
    ensures
        token_at(encode(v) + t, 0) == Some((encode(v).len() as int, v)),
{
    let m = v / 60000;
    let sec = (v / 1000) % 60;
    let ms = v % 1000;
    let a = padded(m, 2);
    let b = padded(sec, 2);
    let c = padded(ms, 3);
    lemma_padded(m, 2);
    lemma_padded(sec, 2);
    lemma_padded(ms, 3);
    lemma_decimal(m);
    lemma_decimal(sec);
    lemma_decimal(ms);
    let s = encode(v) + t;
    let la = a.len() as int;
    assert(b.len() == 2);
    assert(c.len() == 3);
    assert(encode(v).len() == la + 9);
    assert(s.len() == la + 9 + t.len());
    assert(s[0] == '[');
    assert(s.subrange(1, 1 + la) =~= a);
    assert(s[la + 1] == ':');
    assert(s.subrange(la + 2, la + 4) =~= b);
    assert(s[la + 4] == '.');
    assert(s.subrange(la + 5, la + 8) =~= c);
    assert(s[la + 8] == ']');
    assert forall|j: int| 1 <= j < 1 + la implies is_digit(#[trigger] s[j]) by {
        assert(s[j] == a[j - 1]);
    }
    assert forall|j: int| la + 2 <= j < la + 4 implies is_digit(#[trigger] s[j]) by {
        assert(s[j] == b[j - la - 2]);
    }
    assert forall|j: int| la + 5 <= j < la + 8 implies is_digit(#[trigger] s[j]) by {
        assert(s[j] == c[j - la - 5]);
    }
    assert(s[la + 1] == ':');
    lemma_digit_run_block(s, 1, la);
    lemma_digit_run_block(s, la + 2, 2);
    lemma_digit_run_block(s, la + 5, 3);
    vstd::arithmetic::div_mod::lemma_fundamental_div_mod(v as int, 1000);
    vstd::arithmetic::div_mod::lemma_fundamental_div_mod((v / 1000) as int, 60);
    vstd::arithmetic::div_mod::lemma_div_denominator(v as int, 1000, 60);
    assert(v == m * 60000 + sec * 1000 + ms) by (nonlinear_arith)
        requires
            v == 1000 * (v / 1000) + ms,
            v / 1000 == 60 * ((v / 1000) / 60) + sec,
            (v / 1000) / 60 == m,
    ;
}

/// Writing a number of milliseconds as a token and reading it back gives
/// the number.
pub proof fn lemma_encode_decodes(v: nat)
    ensures
        decode(encode(v)) == Some(v),
{
    lemma_encode_prefix(v, seq![]);
    assert(encode(v) + seq![] =~= encode(v));
}

/// A token is read from its own characters alone: where the same
/// characters stand elsewhere, the same token is read there.
pub proof fn lemma_token_local(s1: Seq<char>, i1: int, s2: Seq<char>, i2: int)
    requires
        token_at(s2, i2) is Some,
        0 <= i1,
        i1 + (token_at(s2, i2)->0).0 - i2 <= s1.len(),
        s1.subrange(i1, i1 + (token_at(s2, i2)->0).0 - i2) == s2.subrange(
            i2,
            (token_at(s2, i2)->0).0,
        ),
    ensures
        token_at(s1, i1) == Some((i1 + (token_at(s2, i2)->0).0 - i2, (token_at(s2, i2)->0).1)),
{
    let m0 = i2 + 1;
    let m = digit_run(s2, m0) as int;
    let q0 = m0 + m + 1;
    let f0 = q0 + 3;
    let f = digit_run(s2, f0) as int;
    let end = f0 + f + 1;
    let d = i1 - i2;
    let a1 = s1.subrange(i1, i1 + end - i2);
    let a2 = s2.subrange(i2, end);
    lemma_digit_run_all(s2, m0);
    lemma_digit_run_all(s2, q0);
    lemma_digit_run_all(s2, f0);
    assert(a1[0] == a2[0]);
    assert forall|j: int| i1 + 1 <= j < i1 + 1 + m implies is_digit(#[trigger] s1[j]) by {
        assert(a1[j - i1] == a2[j - i1]);
    }
    assert(a1[1 + m] == a2[1 + m]);
    lemma_digit_run_block(s1, i1 + 1, m);
    assert forall|j: int| q0 + d <= j < q0 + d + 2 implies is_digit(#[trigger] s1[j]) by {
        assert(a1[j - i1] == a2[j - i1]);
    }
    assert(a1[q0 - i2 + 2] == a2[q0 - i2 + 2]);
    lemma_digit_run_block(s1, q0 + d, 2);
    assert forall|j: int| f0 + d <= j < f0 + d + f implies is_digit(#[trigger] s1[j]) by {
        assert(a1[j - i1] == a2[j - i1]);
    }
    assert(a1[f0 - i2 + f] == a2[f0 - i2 + f]);
    lemma_digit_run_block(s1, f0 + d, f);
    assert(a1[q0 - i2 - 1] == a2[q0 - i2 - 1]);
    assert(a1[end - i2 - 1] == a2[end - i2 - 1]);
    assert(s1.subrange(i1 + 1, i1 + 1 + m) =~= a2.subrange(1, 1 + m));
    assert(s2.subrange(m0, m0 + m) =~= a2.subrange(1, 1 + m));
    assert(s1.subrange(q0 + d, q0 + d + 2) =~= a2.subrange(q0 - i2, q0 - i2 + 2));
    assert(s2.subrange(q0, q0 + 2) =~= a2.subrange(q0 - i2, q0 - i2 + 2));
    assert(s1.subrange(f0 + d, f0 + d + f) =~= a2.subrange(f0 - i2, f0 - i2 + f));
    assert(s2.subrange(f0, f0 + f) =~= a2.subrange(f0 - i2, f0 - i2 + f));
}

/// Reading a valid token, writing its value as a token and reading that
/// again gives the same value.
pub proof fn lemma_decode_encode_decode(t: Seq<char>, v: nat)
    requires
        decode(t) == Some(v),
    ensures
        decode(encode(v)) == decode(t),
{
    lemma_encode_decodes(v);
}

pub(crate) proof fn lemma_encode_chars(v: nat)
    ensures
        forall|i: int| 0 <= i < encode(v).len() ==> #[trigger] encode(v)[i] != '\n',
{
    let a = padded(v / 60000, 2);
    let b = padded((v / 1000) % 60, 2);
    let c = padded(v % 1000, 3);
    lemma_padded(v / 60000, 2);
    lemma_padded((v / 1000) % 60, 2);
    lemma_padded(v % 1000, 3);
    let e = encode(v);
    let la = a.len() as int;
    let lb = b.len() as int;
    let lc = c.len() as int;
    assert forall|i: int| 0 <= i < e.len() implies #[trigger] e[i] != '\n' by {
        if 1 <= i < 1 + la {
            assert(e[i] == a[i - 1]);
        } else if la + 2 <= i < la + 2 + lb {
            assert(e[i] == b[i - la - 2]);
        } else if la + lb + 3 <= i < la + lb + 3 + lc {
            assert(e[i] == c[i - la - lb - 3]);
        }
    }
}

pub(crate) proof fn lemma_decimal_facts(n: nat)
    ensures
        digits_value(decimal(n)) == n,
        decimal(n).len() >= 1,
        forall|k: int| 0 <= k < decimal(n).len() ==> is_digit(#[trigger] decimal(n)[k]),
{
    lemma_decimal(n);
}

pub(crate) proof fn lemma_digit_run_block_pub(s: Seq<char>, i: int, k: int)
    requires
        0 <= i,
        0 <= k,
        i + k <= s.len(),
        forall|j: int| i <= j < i + k ==> is_digit(#[trigger] s[j]),
        i + k == s.len() || !is_digit(s[i + k]),
    ensures
        digit_run(s, i) == k,
{
    lemma_digit_run_block(s, i, k);
}

} // verus!
