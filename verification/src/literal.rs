//! The number literals of a raster file.
//!
//! A decimal literal is an optional sign, digits with an optional point
//! among them, and an optional exponent: `-9999`, `12.5`, `.5`, `1.25e3`.
//! It denotes a number of this library when it can be kept exactly: no digit
//! but zero below 10^-18, and a magnitude of at most 10^17. A count is
//! written with digits only.

use vstd::prelude::*;
use crate::decimal::{pow10, Decimal, MAX_UNITS};

verus! {

/// Tells whether `b` is an ASCII digit.
pub open spec fn is_digit(b: u8) -> bool {
    48 <= b <= 57
}

/// Tells whether `b` is `+` or `-`.
pub open spec fn is_sign(b: u8) -> bool {
    b == 43 || b == 45
}

/// The number that a digit stands for.
pub open spec fn digit(b: u8) -> nat {
    if is_digit(b) {
        (b - 48) as nat
    } else {
        0
    }
}

/// Number of digits in a row from index `from` on.
pub open spec fn digit_run(s: Seq<u8>, from: int) -> nat
    decreases s.len() - from,
{
    if 0 <= from < s.len() && is_digit(s[from]) {
        (1 + digit_run(s, from + 1)) as nat
    } else {
        0
    }
}

/// The natural number written by the `count` digits from index `from` on.
pub open spec fn digits_value(s: Seq<u8>, from: int, count: nat) -> nat
    decreases count,
{
    if count == 0 {
        0
    } else {
        10 * digits_value(s, from, (count - 1) as nat) + digit(s[from + count - 1])
    }
}

/// What a one is worth, in units, at the place whose power of ten is `w`.
/// A place below the last one that is kept is worth nothing.
pub open spec fn place_value(w: int) -> nat {
    if w >= 0 {
        pow10(w as nat)
    } else {
        0
    }
}

/// The units written by the `count` digits from index `from` on, where
/// the first of them stands at the place `top`.
pub open spec fn place_sum(s: Seq<u8>, from: int, count: nat, top: int) -> nat
    decreases count,
{
    if count == 0 {
        0
    } else {
        place_sum(s, from, (count - 1) as nat, top) + digit(s[from + count - 1]) * place_value(
            top - (count - 1),
        )
    }
}

/// Tells whether every digit below the last place that is kept is a zero.
pub open spec fn place_exact(s: Seq<u8>, from: int, count: nat, top: int) -> bool {
    forall|k: int| 0 <= k < count && top - k < 0 ==> digit(#[trigger] s[from + k]) == 0
}

/// Where the parts of a number literal lie in a token.
pub struct Layout {
    pub negative: bool,
    pub int_start: int,
    pub int_len: nat,
    pub frac_start: int,
    pub frac_len: nat,
    pub has_exponent: bool,
    pub exponent_negative: bool,
    pub exponent_start: int,
    pub exponent_len: nat,
    pub end: int,
}

/// Reads a token as `[+-] digits [. digits] [(e|E) [+-] digits]`, each part
/// as long as it can be.
pub open spec fn layout(t: Seq<u8>) -> Layout {
    let int_start: int = if t.len() > 0 && is_sign(t[0]) {
        1
    } else {
        0
    };
    let int_len = digit_run(t, int_start);
    let after_int = int_start + int_len;
    let has_point = after_int < t.len() && t[after_int] == 46;
    let frac_start = if has_point {
        after_int + 1
    } else {
        after_int
    };
    let frac_len = if has_point {
        digit_run(t, frac_start)
    } else {
        0
    };
    let after_frac = frac_start + frac_len;
    let has_exponent = after_frac < t.len() && (t[after_frac] == 101 || t[after_frac] == 69);
    let signed = has_exponent && after_frac + 1 < t.len() && is_sign(t[after_frac + 1]);
    let exponent_start = if signed {
        after_frac + 2
    } else {
        after_frac + 1
    };
    let exponent_len = if has_exponent {
        digit_run(t, exponent_start)
    } else {
        0
    };
    Layout {
        negative: t.len() > 0 && t[0] == 45,
        int_start,
        int_len,
        frac_start,
        frac_len,
        has_exponent,
        exponent_negative: signed && t[after_frac + 1] == 45,
        exponent_start,
        exponent_len,
        end: if has_exponent {
            exponent_start + exponent_len
        } else {
            after_frac
        },
    }
}

/// Tells whether a token is a number literal: it has a digit before or
/// after the point, an exponent mark is followed by a digit, and nothing is
/// left over.
pub open spec fn is_number(t: Seq<u8>) -> bool {
    let l = layout(t);
    &&& l.int_len + l.frac_len >= 1
    &&& l.has_exponent ==> l.exponent_len >= 1
    &&& l.end == t.len()
}

/// The exponent that a literal names, zero if it names none.
pub open spec fn exponent_of(t: Seq<u8>) -> int {
    let l = layout(t);
    let e = digits_value(t, l.exponent_start, l.exponent_len);
    if l.exponent_negative {
        -e
    } else {
        e as int
    }
}

/// The place, in units of 10^-18, of the digit just before the point.
pub open spec fn ones_place(t: Seq<u8>) -> int {
    exponent_of(t) + 18
}

/// Tells whether a literal has no digit but zero below 10^-18.
pub open spec fn is_exact(t: Seq<u8>) -> bool {
    let l = layout(t);
    &&& place_exact(t, l.int_start, l.int_len, l.int_len - 1 + ones_place(t))
    &&& place_exact(t, l.frac_start, l.frac_len, ones_place(t) - 1)
}

/// The magnitude of a literal in units of 10^-18, digits below that place
/// left out.
pub open spec fn magnitude(t: Seq<u8>) -> nat {
    let l = layout(t);
    place_sum(t, l.int_start, l.int_len, l.int_len - 1 + ones_place(t)) + place_sum(
        t,
        l.frac_start,
        l.frac_len,
        ones_place(t) - 1,
    )
}

/// The number that a token denotes, in units of 10^-18: `None` unless the
/// token is a number literal that is exact and at most `MAX_UNITS` units
/// large.
pub open spec fn decimal_value(t: Seq<u8>) -> Option<int> {
    if is_number(t) && is_exact(t) && magnitude(t) <= MAX_UNITS {
        if layout(t).negative {
            Some(-magnitude(t))
        } else {
            Some(magnitude(t) as int)
        }
    } else {
        None
    }
}

/// The count that a token denotes: `None` unless the token is an optional
/// `+` and then digits only, at least one, and the count fits a `usize`.
pub open spec fn count_value(t: Seq<u8>) -> Option<nat> {
    let start: int = if t.len() > 0 && t[0] == 43 {
        1
    } else {
        0
    };
    let len = digit_run(t, start);
    if len >= 1 && start + len == t.len() && digits_value(t, start, len) <= usize::MAX {
        Some(digits_value(t, start, len))
    } else {
        None
    }
}

/// Exponents are read up to this magnitude; a larger one decides the
/// outcome by its sign alone.
const EXPONENT_CAP: i128 = 1_000_000_000_000_000_000_000_000_000_000;

/// A place at least this far from the units decides the outcome whatever
/// its exact distance.
const FAR: i128 = 100_000_000_000_000_000_000_000_000_000;

/// Tells whether the place `top` that the parser works with stands for the
/// true place `true_top`: they are equal, or both lie far off on one side.
spec fn stands_for(top: int, true_top: int) -> bool {
    ||| top == true_top
    ||| (top >= FAR && true_top >= top)
    ||| (top <= -FAR && true_top <= top)
}

/// Powers of ten are positive and grow with the exponent.
proof fn lemma_pow10_grows(a: nat, b: nat)
    requires
        a <= b,
    ensures
        1 <= pow10(a) <= pow10(b),
    decreases b,
{
    if b == 0 {
    } else if a == b {
        lemma_pow10_grows(0, (b - 1) as nat);
    } else {
        lemma_pow10_grows(a, (b - 1) as nat);
    }
}

/// The greatest magnitude is ten to the 35th.
proof fn lemma_pow10_max()
    ensures
        pow10(35) == MAX_UNITS,
        pow10(36) == 10 * MAX_UNITS,
{
    reveal_with_fuel(pow10, 37);
}

/// More digits never write fewer units.
proof fn lemma_place_sum_grows(s: Seq<u8>, from: int, k: nat, count: nat, top: int)
    requires
        k <= count,
    ensures
        place_sum(s, from, k, top) <= place_sum(s, from, count, top),
    decreases count,
{
    if k < count {
        lemma_place_sum_grows(s, from, k, (count - 1) as nat, top);
    }
}

/// More digits never write a smaller number.
proof fn lemma_digits_value_grows(s: Seq<u8>, from: int, k: nat, count: nat)
    requires
        k <= count,
    ensures
        digits_value(s, from, k) <= digits_value(s, from, count),
    decreases count,
{
    if k < count {
        lemma_digits_value_grows(s, from, k, (count - 1) as nat);
    }
}

/// Ten to the `w`th, for a place that a `Decimal` can hold.
fn pow10_of(w: u32) -> (r: i128)
    requires
        w <= 35,
    ensures
        r == pow10(w as nat),
        1 <= r <= MAX_UNITS,
{
    let mut r: i128 = 1;
    let mut i: u32 = 0;
    while i < w
        invariant
            i <= w <= 35,
            r == pow10(i as nat),
        decreases w - i,
    {
        proof {
            lemma_pow10_grows(i as nat, 34);
            lemma_pow10_grows(34, 35);
            lemma_pow10_max();
        }
        r = r * 10;
        i += 1;
    }
    proof {
        lemma_pow10_grows(w as nat, 35);
        lemma_pow10_max();
    }
    r
}

/// Counts the digits in a row from index `from` on.
fn count_digits(token: &[u8], from: usize) -> (count: usize)
    requires
        from <= token.len(),
    ensures
        count == digit_run(token@, from as int),
        from + count <= token.len(),
        forall|k: int| from <= k < from + count ==> is_digit(#[trigger] token@[k]),
{
    let n = token.len();
    let mut i: usize = from;
    while i < n && 48 <= token[i] && token[i] <= 57
        invariant
            from <= i <= n,
            n == token.len(),
            digit_run(token@, from as int) == (i - from) + digit_run(token@, i as int),
            forall|k: int| from <= k < i ==> is_digit(#[trigger] token@[k]),
        decreases n - i,
    {
        i += 1;
    }
    i - from
}

/// Reads `count` digits as a natural number, stopping at `EXPONENT_CAP`.
fn capped_digits_value(token: &[u8], from: usize, count: usize) -> (r: i128)
    requires
        from + count <= token.len(),
        forall|k: int| from <= k < from + count ==> is_digit(#[trigger] token@[k]),
    ensures
        0 <= r <= EXPONENT_CAP,
        digits_value(token@, from as int, count as nat) <= EXPONENT_CAP ==> r == digits_value(
            token@,
            from as int,
            count as nat,
        ),
        digits_value(token@, from as int, count as nat) > EXPONENT_CAP ==> r == EXPONENT_CAP,
{
    let mut acc: i128 = 0;
    let mut k: usize = 0;
    while k < count
        invariant
            k <= count,
            from + count <= token.len(),
            forall|j: int| from <= j < from + count ==> is_digit(#[trigger] token@[j]),
            0 <= acc <= EXPONENT_CAP,
            digits_value(token@, from as int, k as nat) <= EXPONENT_CAP ==> acc == digits_value(
                token@,
                from as int,
                k as nat,
            ),
            digits_value(token@, from as int, k as nat) > EXPONENT_CAP ==> acc == EXPONENT_CAP,
        decreases count - k,
    {
        let b = token[from + k];
        assert(is_digit(token@[from + k]));
        let d: i128 = (b - 48) as i128;
        acc = acc * 10 + d;
        if acc > EXPONENT_CAP {
            acc = EXPONENT_CAP;
        }
        k += 1;
    }
    acc
}

/// Adds to `start` the units written by `count` digits whose first stands at
/// the place `top`. Gives `None` when a digit other than zero stands below
/// the last place, or when the sum passes `MAX_UNITS`.
fn add_places(
    token: &[u8],
    from: usize,
    count: usize,
    top: i128,
    Ghost(true_top): Ghost<int>,
    start: i128,
) -> (r: Option<i128>)
    requires
        from + count <= token.len(),
        forall|k: int| from <= k < from + count ==> is_digit(#[trigger] token@[k]),
        0 <= start <= MAX_UNITS,
        -2 * EXPONENT_CAP <= top <= 2 * EXPONENT_CAP,
        stands_for(top as int, true_top),
    ensures
        match r {
            Some(sum) => {
                &&& place_exact(token@, from as int, count as nat, true_top)
                &&& sum == start + place_sum(token@, from as int, count as nat, true_top)
                &&& 0 <= sum <= MAX_UNITS
            },
            None => {
                ||| !place_exact(token@, from as int, count as nat, true_top)
                ||| start + place_sum(token@, from as int, count as nat, true_top) > MAX_UNITS
            },
        },
{
    let mut acc: i128 = start;
    let mut k: usize = 0;
    while k < count
        invariant
            k <= count,
            from + count <= token.len(),
            forall|j: int| from <= j < from + count ==> is_digit(#[trigger] token@[j]),
            -2 * EXPONENT_CAP <= top <= 2 * EXPONENT_CAP,
            stands_for(top as int, true_top),
            0 <= start <= acc <= MAX_UNITS,
            acc == start + place_sum(token@, from as int, k as nat, true_top),
            place_exact(token@, from as int, k as nat, true_top),
        decreases count - k,
    {
        let b = token[from + k];
        assert(is_digit(token@[from + k]));
        let d: i128 = (b - 48) as i128;
        let w: i128 = top - (k as i128);
        let ghost true_w = true_top - k;
        let ghost term = digit(token@[from + k]) * place_value(true_w);
        assert(place_sum(token@, from as int, (k + 1) as nat, true_top) == place_sum(
            token@,
            from as int,
            k as nat,
            true_top,
        ) + term);
        if d != 0 {
            if w < 0 {
                assert(true_w < 0);
                assert(!place_exact(token@, from as int, count as nat, true_top));
                return None;
            }
            if w > 35 {
                proof {
                    lemma_pow10_grows(36, true_w as nat);
                    lemma_pow10_max();
                    assert(term >= place_value(true_w)) by (nonlinear_arith)
                        requires
                            term == digit(token@[from + k]) * place_value(true_w),
                            digit(token@[from + k]) >= 1,
                    ;
                    lemma_place_sum_grows(
                        token@,
                        from as int,
                        (k + 1) as nat,
                        count as nat,
                        true_top,
                    );
                }
                return None;
            }
            assert(w == true_w);
            let p = pow10_of(w as u32);
            assert(0 <= d * p <= 9 * MAX_UNITS) by (nonlinear_arith)
                requires
                    1 <= d <= 9,
                    1 <= p <= MAX_UNITS,
            ;
            let next = acc + d * p;
            assert(next == acc + term);
            if next > MAX_UNITS {
                proof {
                    lemma_place_sum_grows(
                        token@,
                        from as int,
                        (k + 1) as nat,
                        count as nat,
                        true_top,
                    );
                }
                return None;
            }
            acc = next;
        } else {
            assert(term == 0) by (nonlinear_arith)
                requires
                    term == digit(token@[from + k]) * place_value(true_w),
                    digit(token@[from + k]) == 0,
            ;
        }
        k += 1;
    }
    Some(acc)
}

/// Where the parts of a number literal were found in a token.
struct Parts {
    negative: bool,
    int_start: usize,
    int_len: usize,
    frac_start: usize,
    frac_len: usize,
    has_exponent: bool,
    exponent_negative: bool,
    exponent_start: usize,
    exponent_len: usize,
    end: usize,
}

impl Parts {
    spec fn matches_layout(self, l: Layout) -> bool {
        &&& self.negative == l.negative
        &&& self.int_start == l.int_start
        &&& self.int_len == l.int_len
        &&& self.frac_start == l.frac_start
        &&& self.frac_len == l.frac_len
        &&& self.has_exponent == l.has_exponent
        &&& self.exponent_negative == l.exponent_negative
        &&& self.has_exponent ==> self.exponent_start == l.exponent_start
        &&& self.exponent_len == l.exponent_len
        &&& self.end == l.end
    }

    spec fn all_digits(self, t: Seq<u8>) -> bool {
        &&& self.int_start + self.int_len <= t.len()
        &&& self.frac_start + self.frac_len <= t.len()
        &&& self.exponent_start + self.exponent_len <= t.len()
        &&& self.end <= t.len()
        &&& forall|k: int|
            self.int_start <= k < self.int_start + self.int_len ==> is_digit(#[trigger] t[k])
        &&& forall|k: int|
            self.frac_start <= k < self.frac_start + self.frac_len ==> is_digit(#[trigger] t[k])
        &&& forall|k: int|
            self.exponent_start <= k < self.exponent_start + self.exponent_len ==> is_digit(
                #[trigger] t[k],
            )
    }
}

/// Finds the parts of a number literal in a token.
fn find_parts(token: &[u8]) -> (parts: Parts)
    ensures
        parts.matches_layout(layout(token@)),
        parts.all_digits(token@),
{
    let n = token.len();
    let mut negative = false;
    let mut int_start: usize = 0;
    if n > 0 && (token[0] == 43 || token[0] == 45) {
        negative = token[0] == 45;
        int_start = 1;
    }
    let int_len = count_digits(token, int_start);
    let after_int: usize = int_start + int_len;
    let mut frac_start: usize = after_int;
    let mut frac_len: usize = 0;
    if after_int < n && token[after_int] == 46 {
        frac_start = after_int + 1;
        frac_len = count_digits(token, frac_start);
    }
    let after_frac: usize = frac_start + frac_len;
    let mut has_exponent = false;
    let mut exponent_negative = false;
    let mut exponent_start: usize = after_frac;
    let mut exponent_len: usize = 0;
    let mut end: usize = after_frac;
    if after_frac < n && (token[after_frac] == 101 || token[after_frac] == 69) {
        has_exponent = true;
        exponent_start = after_frac + 1;
        if exponent_start < n && (token[exponent_start] == 43 || token[exponent_start] == 45) {
            exponent_negative = token[exponent_start] == 45;
            exponent_start = exponent_start + 1;
        }
        exponent_len = count_digits(token, exponent_start);
        end = exponent_start + exponent_len;
    }
    Parts {
        negative,
        int_start,
        int_len,
        frac_start,
        frac_len,
        has_exponent,
        exponent_negative,
        exponent_start,
        exponent_len,
        end,
    }
}

/// Reads the exponent of a literal, held within `EXPONENT_CAP` of zero.
fn read_exponent(token: &[u8], parts: &Parts) -> (e: i128)
    requires
        parts.matches_layout(layout(token@)),
        parts.all_digits(token@),
    ensures
        -EXPONENT_CAP <= e <= EXPONENT_CAP,
        -EXPONENT_CAP <= exponent_of(token@) <= EXPONENT_CAP ==> e == exponent_of(token@),
        exponent_of(token@) > EXPONENT_CAP ==> e == EXPONENT_CAP,
        exponent_of(token@) < -EXPONENT_CAP ==> e == -EXPONENT_CAP,
{
    if !parts.has_exponent {
        assert(digits_value(token@, layout(token@).exponent_start, 0) == 0);
        return 0;
    }
    let e = capped_digits_value(token, parts.exponent_start, parts.exponent_len);
    if parts.exponent_negative {
        -e
    } else {
        e
    }
}

/// Reads a token as a decimal number.
pub fn parse_decimal(token: &[u8]) -> (r: Option<Decimal>)
    ensures
        match r {
            Some(d) => decimal_value(token@) == Some(d@),
            None => decimal_value(token@) is None,
        },
{
    let parts = find_parts(token);
    let has_digit = parts.int_len > 0 || parts.frac_len > 0;
    let has_whole_exponent = !parts.has_exponent || parts.exponent_len > 0;
    if !has_digit || !has_whole_exponent || parts.end != token.len() {
        return None;
    }
    assert(is_number(token@));
    let ones: i128 = read_exponent(token, &parts) + 18;
    let ghost true_ones = ones_place(token@);
    let int_top: i128 = (parts.int_len as i128) - 1 + ones;
    let ghost true_int_top = parts.int_len - 1 + true_ones;
    assert(stands_for(int_top as int, true_int_top));
    assert(stands_for(ones - 1, true_ones - 1));
    let whole = match add_places(
        token,
        parts.int_start,
        parts.int_len,
        int_top,
        Ghost(true_int_top),
        0,
    ) {
        Some(sum) => sum,
        None => {
            proof {
                lemma_place_sum_grows(
                    token@,
                    parts.frac_start as int,
                    0,
                    parts.frac_len as nat,
                    true_ones - 1,
                );
            }
            return None;
        },
    };
    let total = match add_places(
        token,
        parts.frac_start,
        parts.frac_len,
        ones - 1,
        Ghost(true_ones - 1),
        whole,
    ) {
        Some(sum) => sum,
        None => {
            return None;
        },
    };
    assert(total == magnitude(token@));
    assert(is_exact(token@));
    // The sum is within `MAX_UNITS`, so it makes a number either way.
    if parts.negative {
        Decimal::from_units(-total)
    } else {
        Decimal::from_units(total)
    }
}

/// Reads a token as a count.
pub fn parse_count(token: &[u8]) -> (r: Option<usize>)
    ensures
        match r {
            Some(c) => count_value(token@) == Some(c as nat),
            None => count_value(token@) is None,
        },
{
    let n = token.len();
    let start: usize = if n > 0 && token[0] == 43 {
        1
    } else {
        0
    };
    let len = count_digits(token, start);
    if len == 0 || start + len != n {
        return None;
    }
    let mut acc: usize = 0;
    let mut k: usize = 0;
    while k < len
        invariant
            k <= len,
            1 <= len == digit_run(token@, start as int),
            start + len == token.len(),
            start == 1 <==> token@[0] == 43,
            start <= 1,
            forall|j: int| start <= j < start + len ==> is_digit(#[trigger] token@[j]),
            acc == digits_value(token@, start as int, k as nat),
        decreases len - k,
    {
        let b = token[start + k];
        assert(is_digit(token@[start + k]));
        let d: usize = (b - 48) as usize;
        assert(digits_value(token@, start as int, (k + 1) as nat) == 10 * acc + d);
        let next = match acc.checked_mul(10) {
            Some(tens) => tens.checked_add(d),
            None => None,
        };
        match next {
            Some(value) => {
                acc = value;
            },
            None => {
                proof {
                    lemma_digits_value_grows(token@, start as int, (k + 1) as nat, len as nat);
                }
                return None;
            },
        }
        k += 1;
    }
    Some(acc)
}

/// Ten to a sum is the product of the powers.
proof fn lemma_pow10_adds(a: nat, b: nat)
    ensures
        pow10(a + b) == pow10(a) * pow10(b),
    decreases a,
{
    if a > 0 {
        lemma_pow10_adds((a - 1) as nat, b);
        let p = pow10((a - 1) as nat);
        let q = pow10(b);
        assert(pow10(a) == 10 * p);
        assert(pow10(a + b) == 10 * pow10((a - 1 + b) as nat));
        assert(pow10((a - 1 + b) as nat) == p * q);
        assert(10 * (p * q) == (10 * p) * q) by (nonlinear_arith);
        assert(pow10(a) * q == (10 * p) * q);
    } else {
        assert(pow10(0) == 1);
        assert(1 * pow10(b) == pow10(b));
    }
}

/// Digits that all stand at places that are kept write their number, moved
/// up to the place of the last of them.
pub proof fn lemma_place_sum_is_shifted_value(s: Seq<u8>, from: int, count: nat, top: int)
    requires
        top - count + 1 >= 0,
    ensures
        place_sum(s, from, count, top) == digits_value(s, from, count) * pow10(
            (top - count + 1) as nat,
        ),
    decreases count,
{
    if count > 0 {
        lemma_place_sum_is_shifted_value(s, from, (count - 1) as nat, top);
        let last = (top - count + 1) as nat;
        let a = digits_value(s, from, (count - 1) as nat);
        let d = digit(s[from + count - 1]);
        let p = pow10(last);
        assert(pow10(last + 1) == 10 * p);
        assert(place_sum(s, from, count, top) == a * (10 * p) + d * p);
        assert(a * (10 * p) + d * p == (10 * a + d) * p) by (nonlinear_arith);
    } else {
        assert(0 * pow10((top + 1) as nat) == 0);
    }
}

/// A literal whose last digit stands at a place that is kept denotes its
/// digits, read as one whole number without the point, times the power of
/// ten of that place: `12.5e1` is 125 times 10^18.
pub proof fn lemma_magnitude_is_shifted_digits(t: Seq<u8>)
    requires
        ones_place(t) >= layout(t).frac_len,
    ensures
        is_exact(t),
        magnitude(t) == (digits_value(t, layout(t).int_start, layout(t).int_len) * pow10(
            layout(t).frac_len,
        ) + digits_value(t, layout(t).frac_start, layout(t).frac_len)) * pow10(
            (ones_place(t) - layout(t).frac_len) as nat,
        ),
{
    let l = layout(t);
    let ones = ones_place(t);
    let rest = (ones - l.frac_len) as nat;
    lemma_place_sum_is_shifted_value(t, l.int_start, l.int_len, l.int_len - 1 + ones);
    lemma_place_sum_is_shifted_value(t, l.frac_start, l.frac_len, ones - 1);
    lemma_pow10_adds(l.frac_len, rest);
    let whole = digits_value(t, l.int_start, l.int_len);
    let part = digits_value(t, l.frac_start, l.frac_len);
    let pf = pow10(l.frac_len);
    let pr = pow10(rest);
    assert(pow10(ones as nat) == pf * pr);
    assert(whole * (pf * pr) + part * pr == (whole * pf + part) * pr) by (nonlinear_arith);
}

} // verus!
