use vstd::prelude::*;
use crate::text::push_char;

verus! {

/// The largest number of fraction digits a `Number` carries.
pub const MAX_SCALE: u32 = 18;

/// A decimal number: `mantissa / 10^scale`. Numbers compare by their exact
/// value; the text of a number drops trailing fraction zeros.
#[derive(Clone, Copy, Debug, PartialEq)]
pub struct Number {
    mantissa: i64,
    scale: u32,
}

pub open spec fn pow10(e: nat) -> int
    decreases e,
{
    if e == 0 {
        1
    } else {
        10 * pow10((e - 1) as nat)
    }
}

pub open spec fn abs(x: int) -> nat {
    if x < 0 {
        (-x) as nat
    } else {
        x as nat
    }
}

pub open spec fn digit_char(d: int) -> char {
    seq!['0', '1', '2', '3', '4', '5', '6', '7', '8', '9'][d]
}

pub open spec fn is_digit(c: char) -> bool {
    '0' <= c <= '9'
}

pub open spec fn digit_value(c: char) -> int {
    c as int - '0' as int
}

/// Decimal digits of `n`, most significant first, without leading zeros.
pub open spec fn digits_of(n: nat) -> Seq<char>
    decreases n,
{
    if n < 10 {
        seq![digit_char(n as int)]
    } else {
        digits_of(n / 10).push(digit_char((n % 10) as int))
    }
}

/// The last `w` decimal digits of `n`, zero-padded on the left.
pub open spec fn padded_digits(n: nat, w: nat) -> Seq<char>
    decreases w,
{
    if w == 0 {
        Seq::empty()
    } else {
        padded_digits(n / 10, (w - 1) as nat).push(digit_char((n % 10) as int))
    }
}

/// The value of a string of decimal digits.
pub open spec fn digits_value(t: Seq<char>) -> int
    decreases t.len(),
{
    if t.len() == 0 {
        0
    } else {
        digits_value(t.drop_last()) * 10 + digit_value(t.last())
    }
}

pub open spec fn all_digits(t: Seq<char>) -> bool {
    t.len() > 0 && forall|i: int| 0 <= i < t.len() ==> is_digit(#[trigger] t[i])
}

pub open spec fn fits_i64(x: int) -> bool {
    i64::MIN <= x <= i64::MAX
}

impl Number {
    #[verifier::type_invariant]
    spec fn inv(self) -> bool {
        self.scale <= MAX_SCALE
    }

    pub closed spec fn mantissa_spec(self) -> int {
        self.mantissa as int
    }

    pub closed spec fn scale_spec(self) -> nat {
        self.scale as nat
    }

    /// The number `mantissa / 10^scale`, where `scale <= MAX_SCALE`.
    pub closed spec fn from_parts(mantissa: int, scale: nat) -> Number {
        Number { mantissa: mantissa as i64, scale: scale as u32 }
    }

    /// `mantissa / 10^scale`; `None` when `scale` exceeds `MAX_SCALE`.
    pub fn new(mantissa: i64, scale: u32) -> (r: Option<Number>)
        ensures
            r is Some <==> scale <= MAX_SCALE,
            r is Some ==> r->0 == Number::from_parts(mantissa as int, scale as nat),
            r is Some ==> r->0.mantissa_spec() == mantissa && r->0.scale_spec() == scale,
    {
        if scale <= MAX_SCALE {
            Some(Number { mantissa, scale })
        } else {
            None
        }
    }

    /// The integer `n`.
    pub fn from_i64(n: i64) -> (r: Number)
        ensures
            r == Number::from_parts(n as int, 0),
            r.mantissa_spec() == n,
            r.scale_spec() == 0,
    {
        Number { mantissa: n, scale: 0 }
    }

    pub fn mantissa(&self) -> (r: i64)
        ensures
            r == self.mantissa_spec(),
    {
        self.mantissa
    }

    pub fn scale(&self) -> (r: u32)
        ensures
            r == self.scale_spec(),
            r <= MAX_SCALE,
    {
        proof {
            use_type_invariant(self);
        }
        self.scale
    }

    /// Whether the two numbers have the same mantissa and scale.
    pub fn same(&self, o: &Number) -> (r: bool)
        ensures
            r == (*self == *o),
    {
        self.mantissa == o.mantissa && self.scale == o.scale
    }

    pub fn is_zero(&self) -> (r: bool)
        ensures
            r == (self.mantissa_spec() == 0),
    {
        self.mantissa == 0
    }
}

/// The sign of `a - b` as numbers: -1, 0 or 1.
pub open spec fn num_cmp(a: Number, b: Number) -> int {
    let l = a.mantissa_spec() * pow10(b.scale_spec());
    let r = b.mantissa_spec() * pow10(a.scale_spec());
    if l < r {
        -1
    } else if l == r {
        0
    } else {
        1
    }
}

/// The fraction `f` of `w` digits without its trailing zeros, one digit kept.
pub open spec fn trim_fraction(f: nat, w: nat) -> (nat, nat)
    decreases w,
{
    if w > 1 && f % 10 == 0 {
        trim_fraction(f / 10, (w - 1) as nat)
    } else {
        (f, w)
    }
}

/// Canonical text of a number: sign, integer digits and, for a positive scale,
/// a point followed by the fraction digits without trailing zeros (at least
/// one digit stays, so `1.0` keeps its point).
pub open spec fn number_text(n: Number) -> Seq<char> {
    let a = abs(n.mantissa_spec());
    let sign = if n.mantissa_spec() < 0 {
        seq!['-']
    } else {
        Seq::empty()
    };
    if n.scale_spec() == 0 {
        sign + digits_of(a)
    } else {
        let p: nat = pow10(n.scale_spec()) as nat;
        let (f, w) = trim_fraction(a % p, n.scale_spec());
        sign + digits_of(a / p) + seq!['.'] + padded_digits(f, w)
    }
}

/// Value of a number literal: an optional sign, digits, and optionally a point
/// followed by at least one digit; `None` unless it fits a `Number`.
pub open spec fn literal_number(t: Seq<char>) -> Option<Number> {
    let neg = t.len() > 0 && t[0] == '-';
    let body = if t.len() > 0 && (t[0] == '-' || t[0] == '+') {
        t.drop_first()
    } else {
        t
    };
    let dot = first_index_of(body, '.');
    let (digits, scale) = if dot < 0 {
        (body, 0nat)
    } else {
        (body.subrange(0, dot) + body.subrange(dot + 1, body.len() as int), (body.len() - dot
            - 1) as nat)
    };
    let ok_shape = if dot < 0 {
        all_digits(body)
    } else {
        all_digits(body.subrange(0, dot)) && all_digits(body.subrange(dot + 1, body.len() as int))
    };
    let m = if neg {
        -digits_value(digits)
    } else {
        digits_value(digits)
    };
    if ok_shape && scale <= MAX_SCALE && fits_i64(m) {
        Some(Number::from_parts(m, scale))
    } else {
        None
    }
}

/// Index of the first `c` in `t`, or -1.
pub open spec fn first_index_of(t: Seq<char>, c: char) -> int
    decreases t.len(),
{
    if t.len() == 0 {
        -1
    } else if t[0] == c {
        0
    } else {
        let r = first_index_of(t.drop_first(), c);
        if r < 0 {
            -1
        } else {
            r + 1
        }
    }
}

fn pow10_exec(e: u32) -> (r: i128)
    requires
        e <= MAX_SCALE,
    ensures
        r == pow10(e as nat),
        1 <= r <= 1_000_000_000_000_000_000i128,
{
    proof {
        lemma_pow10_table();
    }
    let mut r: i128 = 1;
    let mut i: u32 = 0;
    while i < e
        invariant
            i <= e <= MAX_SCALE,
            r == pow10(i as nat),
            forall|k: nat| k <= MAX_SCALE ==> 1 <= #[trigger] pow10(k) <= 1_000_000_000_000_000_000int,
        decreases e - i,
    {
        r = r * 10;
        i = i + 1;
    }
    r
}

pub proof fn lemma_pow10_table()
    ensures
        forall|k: nat| k <= MAX_SCALE ==> 1 <= #[trigger] pow10(k) <= 1_000_000_000_000_000_000int,
{
    assert(pow10(0) == 1);
    assert(pow10(1) == 10);
    assert(pow10(2) == 100);
    assert(pow10(3) == 1000);
    assert(pow10(4) == 10000);
    assert(pow10(5) == 100000);
    assert(pow10(6) == 1000000);
    assert(pow10(7) == 10000000);
    assert(pow10(8) == 100000000);
    assert(pow10(9) == 1000000000);
    assert(pow10(10) == 10000000000);
    assert(pow10(11) == 100000000000);
    assert(pow10(12) == 1000000000000);
    assert(pow10(13) == 10000000000000);
    assert(pow10(14) == 100000000000000);
    assert(pow10(15) == 1000000000000000);
    assert(pow10(16) == 10000000000000000);
    assert(pow10(17) == 100000000000000000);
    assert(pow10(18) == 1000000000000000000);
}

/// `-1`, `0` or `1` as `a` is below, equal to or above `b` in value.
pub fn compare_numbers(a: &Number, b: &Number) -> (r: i8)
    ensures
        r as int == num_cmp(*a, *b),
{
    proof {
        use_type_invariant(a);
        use_type_invariant(b);
    }
    let pa = pow10_exec(a.scale);
    let pb = pow10_exec(b.scale);
    let ma = a.mantissa as i128;
    let mb = b.mantissa as i128;
    proof {
        lemma_product_bound(ma as int, pb as int);
        lemma_product_bound(mb as int, pa as int);
    }
    let l = ma * pb;
    let r = mb * pa;
    if l < r {
        -1
    } else if l == r {
        0
    } else {
        1
    }
}

proof fn lemma_product_bound(m: int, p: int)
    requires
        i64::MIN <= m <= i64::MAX,
        1 <= p <= 1_000_000_000_000_000_000int,
    ensures
        -0x7fff_ffff_ffff_ffff_ffff_ffff_ffff_ffff <= m * p <= 0x7fff_ffff_ffff_ffff_ffff_ffff_ffff_ffff,
{
    assert(-9223372036854775808 * 1_000_000_000_000_000_000int <= m * p <= 9223372036854775807
        * 1_000_000_000_000_000_000int) by (nonlinear_arith)
        requires
            i64::MIN <= m <= i64::MAX,
            1 <= p <= 1_000_000_000_000_000_000int,
    ;
}

fn digit(d: u64) -> (c: char)
    requires
        d < 10,
    ensures
        c == digit_char(d as int),
{
    match d {
        0 => '0',
        1 => '1',
        2 => '2',
        3 => '3',
        4 => '4',
        5 => '5',
        6 => '6',
        7 => '7',
        8 => '8',
        _ => '9',
    }
}

fn push_digits(out: &mut String, n: u64)
    ensures
        final(out)@ == old(out)@ + digits_of(n as nat),
    decreases n,
{
    if n >= 10 {
        push_digits(out, n / 10);
    }
    push_char(out, digit(n % 10));
    proof {
        if n >= 10 {
            assert(old(out)@ + digits_of(n as nat) =~= old(out)@ + digits_of((n / 10) as nat) + seq![
                digit_char((n % 10) as int)]);
        } else {
            assert(old(out)@ + digits_of(n as nat) =~= old(out)@.push(digit_char((n % 10) as int)));
        }
    }
}

fn push_padded(out: &mut String, n: u64, w: u32)
    ensures
        final(out)@ == old(out)@ + padded_digits(n as nat, w as nat),
    decreases w,
{
    if w == 0 {
        assert(old(out)@ + padded_digits(n as nat, 0) =~= old(out)@);
        return ;
    }
    push_padded(out, n / 10, w - 1);
    push_char(out, digit(n % 10));
    assert(old(out)@ + padded_digits(n as nat, w as nat) =~= old(out)@ + padded_digits(
        (n / 10) as nat,
        (w - 1) as nat,
    ) + seq![digit_char((n % 10) as int)]);
}

/// Appends the canonical text of `n` to `out`.
pub fn write_number(out: &mut String, n: &Number)
    ensures
        final(out)@ == old(out)@ + number_text(*n),
{
    proof {
        use_type_invariant(n);
    }
    let m = n.mantissa;
    let a: u64 = if m < 0 {
        (-(m as i128)) as u64
    } else {
        m as u64
    };
    if m < 0 {
        push_char(out, '-');
    }
    let ghost mid = out@;
    if n.scale == 0 {
        push_digits(out, a);
    } else {
        let p = pow10_exec(n.scale) as u64;
        push_digits(out, a / p);
        push_char(out, '.');
        let mut f = a % p;
        let mut w = n.scale;
        while w > 1 && f % 10 == 0
            invariant
                1 <= w,
                trim_fraction(f as nat, w as nat) == trim_fraction((a % p) as nat, n.scale as nat),
            decreases w,
        {
            f = f / 10;
            w = w - 1;
        }
        push_padded(out, f, w);
    }
    proof {
        let sign = if m < 0 {
            seq!['-']
        } else {
            Seq::<char>::empty()
        };
        assert(mid =~= old(out)@ + sign);
        assert(out@ =~= old(out)@ + number_text(*n));
    }
}

pub proof fn lemma_digits_value_nonneg(t: Seq<char>)
    requires
        forall|i: int| 0 <= i < t.len() ==> is_digit(#[trigger] t[i]),
    ensures
        digits_value(t) >= 0,
    decreases t.len(),
{
    if t.len() > 0 {
        assert(forall|i: int| 0 <= i < t.drop_last().len() ==> t.drop_last()[i] == t[i]);
        lemma_digits_value_nonneg(t.drop_last());
    }
}

proof fn lemma_first_index_of(t: Seq<char>, c: char, k: int)
    requires
        0 <= k <= t.len(),
        forall|i: int| 0 <= i < k ==> t[i] != c,
        k < t.len() ==> t[k] == c,
    ensures
        first_index_of(t, c) == if k < t.len() { k } else { -1 },
    decreases k,
{
    if k > 0 {
        let u = t.drop_first();
        assert forall|i: int| 0 <= i < k - 1 implies u[i] != c by {
            assert(u[i] == t[i + 1]);
        }
        lemma_first_index_of(u, c, k - 1);
    }
}

pub const DIGITS_CAP: i128 = 9_223_372_036_854_775_809;

fn find_char(t: &Vec<char>, lo: usize, hi: usize, c: char) -> (k: usize)
    requires
        lo <= hi <= t@.len(),
    ensures
        lo <= k <= hi,
        first_index_of(t@.subrange(lo as int, hi as int), c) == if k < hi {
            k - lo
        } else {
            -1
        },
{
    let mut k = lo;
    while k < hi && t[k] != c
        invariant
            lo <= k <= hi <= t@.len(),
            forall|i: int| lo <= i < k ==> t@[i] != c,
        decreases hi - k,
    {
        k = k + 1;
    }
    proof {
        let body = t@.subrange(lo as int, hi as int);
        assert forall|i: int| 0 <= i < k - lo implies body[i] != c by {
            assert(body[i] == t@[lo + i]);
        }
        lemma_first_index_of(body, c, k - lo);
    }
    k
}

pub fn all_digits_in(t: &Vec<char>, lo: usize, hi: usize) -> (r: bool)
    requires
        lo <= hi <= t@.len(),
    ensures
        r == all_digits(t@.subrange(lo as int, hi as int)),
{
    if lo == hi {
        return false;
    }
    let mut j = lo;
    while j < hi
        invariant
            lo <= j <= hi <= t@.len(),
            forall|i: int| lo <= i < j ==> is_digit(t@[i]),
        decreases hi - j,
    {
        let c = t[j];
        if !('0' <= c && c <= '9') {
            assert(t@.subrange(lo as int, hi as int)[j - lo] == c);
            return false;
        }
        j = j + 1;
    }
    assert forall|i: int| 0 <= i < hi - lo implies is_digit(
        #[trigger] t@.subrange(lo as int, hi as int)[i],
    ) by {
        assert(t@.subrange(lo as int, hi as int)[i] == t@[lo + i]);
    }
    true
}

fn accumulate(t: &Vec<char>, lo: usize, hi: usize, acc0: i128, Ghost(pre): Ghost<Seq<char>>) -> (r:
    i128)
    requires
        lo <= hi <= t@.len(),
        forall|i: int| lo <= i < hi ==> is_digit(t@[i]),
        forall|i: int| 0 <= i < pre.len() ==> is_digit(#[trigger] pre[i]),
        0 <= acc0 <= DIGITS_CAP,
        acc0 == min_cap(digits_value(pre)),
    ensures
        0 <= r <= DIGITS_CAP,
        r == min_cap(digits_value(pre + t@.subrange(lo as int, hi as int))),
{
    let mut acc = acc0;
    let mut j = lo;
    assert(pre + t@.subrange(lo as int, lo as int) =~= pre);
    while j < hi
        invariant
            lo <= j <= hi <= t@.len(),
            forall|i: int| lo <= i < hi ==> is_digit(t@[i]),
            forall|i: int| 0 <= i < pre.len() ==> is_digit(#[trigger] pre[i]),
            0 <= acc <= DIGITS_CAP,
            acc == min_cap(digits_value(pre + t@.subrange(lo as int, j as int))),
        decreases hi - j,
    {
        let c = t[j];
        proof {
            let d1 = pre + t@.subrange(lo as int, j + 1);
            assert(d1.drop_last() =~= pre + t@.subrange(lo as int, j as int));
            assert forall|i: int| 0 <= i < d1.len() implies is_digit(#[trigger] d1[i]) by {
                if i >= pre.len() {
                    assert(d1[i] == t@[lo + i - pre.len()]);
                }
            }
            lemma_digits_step(d1, acc as int);
        }
        acc = step_cap(acc, c);
        j = j + 1;
    }
    acc
}

/// Reads the number literal `t[lo..hi]`, as `literal_number` describes.
pub fn parse_number(t: &Vec<char>, lo: usize, hi: usize) -> (r: Option<Number>)
    requires
        lo <= hi <= t@.len(),
    ensures
        r == literal_number(t@.subrange(lo as int, hi as int)),
{
    let ghost s = t@.subrange(lo as int, hi as int);
    let neg = lo < hi && t[lo] == '-';
    let b0 = if lo < hi && (t[lo] == '-' || t[lo] == '+') {
        lo + 1
    } else {
        lo
    };
    let ghost body = t@.subrange(b0 as int, hi as int);
    assert(body =~= (if s.len() > 0 && (s[0] == '-' || s[0] == '+') {
        s.drop_first()
    } else {
        s
    }));
    let k = find_char(t, b0, hi, '.');
    let has_dot = k < hi;
    let frac_lo = if has_dot {
        k + 1
    } else {
        hi
    };
    let ghost dot = first_index_of(body, '.');
    let ghost ip = t@.subrange(b0 as int, k as int);
    let ghost fp = t@.subrange(frac_lo as int, hi as int);
    proof {
        if has_dot {
            assert(body.subrange(0, dot) =~= ip);
            assert(body.subrange(dot + 1, body.len() as int) =~= fp);
        } else {
            assert(body =~= ip);
            assert(ip + fp =~= body);
        }
    }
    let shape = if has_dot {
        all_digits_in(t, b0, k) && all_digits_in(t, frac_lo, hi)
    } else {
        all_digits_in(t, b0, hi)
    };
    if !shape {
        return None;
    }
    let scale_len = hi - frac_lo;
    if scale_len > MAX_SCALE as usize {
        return None;
    }
    proof {
        assert(forall|i: int| b0 <= i < k ==> is_digit(t@[i])) by {
            assert(forall|i: int| b0 <= i < k ==> t@[i] == ip[i - b0]);
        }
        assert(forall|i: int| frac_lo <= i < hi ==> is_digit(t@[i])) by {
            if has_dot {
                assert(forall|i: int| frac_lo <= i < hi ==> t@[i] == fp[i - frac_lo]);
            }
        }
        assert(Seq::<char>::empty() + ip =~= ip);
    }
    let acc = accumulate(t, b0, k, 0, Ghost(Seq::empty()));
    let acc = accumulate(t, frac_lo, hi, acc, Ghost(ip));
    proof {
        assert(forall|i: int| 0 <= i < (ip + fp).len() ==> is_digit(#[trigger] (ip + fp)[i]));
        lemma_digits_value_nonneg(ip + fp);
    }
    let m: i128 = if neg {
        -acc
    } else {
        acc
    };
    if m < i64::MIN as i128 || m > i64::MAX as i128 {
        return None;
    }
    Some(Number { mantissa: m as i64, scale: scale_len as u32 })
}

pub open spec fn min_cap(x: int) -> int {
    if x < DIGITS_CAP {
        x
    } else {
        DIGITS_CAP as int
    }
}

proof fn lemma_digits_step(t: Seq<char>, acc: int)
    requires
        t.len() > 0,
        is_digit(t.last()),
        forall|i: int| 0 <= i < t.len() ==> is_digit(#[trigger] t[i]),
        acc == min_cap(digits_value(t.drop_last())),
    ensures
        min_cap(digits_value(t)) == min_cap(acc * 10 + digit_value(t.last())),
{
    assert(forall|i: int| 0 <= i < t.drop_last().len() ==> is_digit(#[trigger] t.drop_last()[i])) by {
        assert(forall|i: int| 0 <= i < t.drop_last().len() ==> t.drop_last()[i] == t[i]);
    }
    lemma_digits_value_nonneg(t.drop_last());
}

fn step_cap(acc: i128, c: char) -> (r: i128)
    requires
        0 <= acc <= DIGITS_CAP,
        is_digit(c),
    ensures
        r == min_cap(acc * 10 + digit_value(c)),
        0 <= r <= DIGITS_CAP,
{
    let d = (c as u32 - '0' as u32) as i128;
    let v = acc * 10 + d;
    if v < DIGITS_CAP {
        v
    } else {
        DIGITS_CAP
    }
}

} // verus!
