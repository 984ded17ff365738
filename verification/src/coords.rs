//! Geographic coordinates as fixed-point degrees.
//!
//! The callsign directory reports latitude and longitude as decimal text
//! such as `39.123456`. The library keeps coordinates exact by storing
//! degrees scaled by one billion, so `39.123456` becomes `39_123_456_000`
//! nanodegrees.

use vstd::prelude::*;

verus! {

/// One geographic coordinate: degrees scaled by `NANO_PER_DEG`.
///
/// `nanodeg == 0` is the sentinel for an unknown location, never an error.
#[derive(Clone, Copy, PartialEq, Eq, Structural, Debug)]
pub struct Coordinate {
    pub nanodeg: i64,
}

pub const NANO_PER_DEG: i64 = 1_000_000_000;

impl Coordinate {
    /// The "location unknown" sentinel.
    pub fn zero() -> (r: Coordinate)
        ensures
            r.nanodeg == 0,
    {
        Coordinate { nanodeg: 0 }
    }

    pub open spec fn is_zero(self) -> bool {
        self.nanodeg == 0
    }
}

pub open spec fn is_digit(c: char) -> bool {
    '0' as u32 <= c as u32 && c as u32 <= '9' as u32
}

pub open spec fn digit_val(c: char) -> int {
    c as u32 - '0' as u32
}

pub open spec fn all_digits(s: Seq<char>) -> bool {
    forall|i: int| 0 <= i < s.len() ==> is_digit(#[trigger] s[i])
}

/// The number written by a sequence of decimal digits, most significant first.
pub open spec fn digits_val(s: Seq<char>) -> int
    decreases s.len(),
{
    if s.len() == 0 {
        0
    } else {
        digits_val(s.drop_last()) * 10 + digit_val(s.last())
    }
}

pub open spec fn pow10(n: nat) -> int
    decreases n,
{
    if n == 0 {
        1
    } else {
        10 * pow10((n - 1) as nat)
    }
}

/// The text form of a signed decimal number: an optional minus sign, the
/// integer digits and, when `fp` is non-empty, a point and the fraction
/// digits.
pub open spec fn decimal_text(neg: bool, ip: Seq<char>, fp: Seq<char>) -> Seq<char> {
    let sign = if neg { seq!['-'] } else { Seq::<char>::empty() };
    let frac = if fp.len() > 0 { seq!['.'] + fp } else { Seq::<char>::empty() };
    sign + ip + frac
}

/// Shapes the library accepts as a coordinate: one to three integer digits
/// (degrees never need more) and at most nine fraction digits (the stored
/// precision).
pub open spec fn valid_decimal(ip: Seq<char>, fp: Seq<char>) -> bool {
    &&& 1 <= ip.len() <= 3
    &&& fp.len() <= 9
    &&& all_digits(ip)
    &&& all_digits(fp)
}

/// The nanodegree value written by a decimal text.
pub open spec fn decimal_nanodeg(neg: bool, ip: Seq<char>, fp: Seq<char>) -> int {
    let mag = digits_val(ip) * (NANO_PER_DEG as int) + digits_val(fp) * pow10((9 - fp.len()) as nat);
    if neg {
        -mag
    } else {
        mag
    }
}

pub proof fn lemma_digits_val_bounds(s: Seq<char>)
    requires
        all_digits(s),
    ensures
        0 <= digits_val(s) < pow10(s.len()),
    decreases s.len(),
{
    if s.len() > 0 {
        assert(all_digits(s.drop_last())) by {
            assert(forall|i: int| 0 <= i < s.len() - 1 ==> is_digit(#[trigger] s.drop_last()[i]));
        }
        lemma_digits_val_bounds(s.drop_last());
        assert(digits_val(s.drop_last()) <= pow10((s.len() - 1) as nat) - 1);
        assert(digits_val(s.drop_last()) * 10 <= (pow10((s.len() - 1) as nat) - 1) * 10) by (nonlinear_arith)
            requires
                digits_val(s.drop_last()) <= pow10((s.len() - 1) as nat) - 1,
        ;
    }
}

/// One decimal text spells one number: equal texts carry the same sign and
/// the same digits, so a coordinate read from a text is the only one it can
/// be.
pub proof fn lemma_decimal_text_unique(
    n1: bool,
    ip1: Seq<char>,
    fp1: Seq<char>,
    n2: bool,
    ip2: Seq<char>,
    fp2: Seq<char>,
)
    requires
        valid_decimal(ip1, fp1),
        valid_decimal(ip2, fp2),
        decimal_text(n1, ip1, fp1) == decimal_text(n2, ip2, fp2),
    ensures
        n1 == n2,
        ip1 == ip2,
        fp1 == fp2,
{
    let s = decimal_text(n1, ip1, fp1);
    lemma_rep_structure(s, n1, ip1, fp1);
    lemma_rep_structure(s, n2, ip2, fp2);
    let start = if n1 { 1int } else { 0int };
    let int_end = start + ip1.len() as int;
    lemma_digit_runs_agree(s, n2, ip2, fp2, start, int_end);
    assert(ip1 =~= ip2);
    if fp1.len() == 0 {
        assert(fp2.len() == 0);
        assert(fp1 =~= fp2);
    } else {
        assert(fp2.len() != 0);
        assert(fp1 =~= fp2);
    }
}

/// Whether `t` spells the coordinate `c`: it is a valid decimal text whose
/// nanodegree value is exactly `c.nanodeg`.
pub open spec fn coordinate_text_of(c: Coordinate, t: Seq<char>) -> bool {
    exists|neg: bool, ip: Seq<char>, fp: Seq<char>|
        valid_decimal(ip, fp) && t == decimal_text(neg, ip, fp) && decimal_nanodeg(neg, ip, fp)
            == c.nanodeg
}

/// Relies on String::push: appends exactly the one given character.
#[verifier::external_body]
fn push_char(s: &mut String, c: char)
    ensures
        final(s)@ == old(s)@.push(c),
{
    s.push(c);
}

/// The character of one digit.
fn digit_char(d: u64) -> (c: char)
    requires
        d < 10,
    ensures
        is_digit(c),
        digit_val(c) == d as int,
{
    (48 + d as u8) as char
}

proof fn lemma_digits_val_push(s: Seq<char>, c: char)
    ensures
        digits_val(s.push(c)) == digits_val(s) * 10 + digit_val(c),
{
    assert(s.push(c).drop_last() =~= s);
    assert(s.push(c).last() == c);
}

/// Appends the `nd + 1` decimal digits of `v` to `out`, most significant
/// first.
fn push_digits(out: &mut String, v: u64, nd: usize)
    requires
        nd <= 11,
        (v as int) < pow10(nd as nat + 1),
    ensures
        final(out)@.len() == old(out)@.len() + nd + 1,
        final(out)@.subrange(0, old(out)@.len() as int) == old(out)@,
        all_digits(final(out)@.subrange(old(out)@.len() as int, final(out)@.len() as int)),
        digits_val(final(out)@.subrange(old(out)@.len() as int, final(out)@.len() as int)) == v as int,
{
    let ghost base = out@.len() as int;
    let ghost orig = out@;

    // The divisor that reads off the most significant digit.
    let mut div: u64 = 1;
    let mut k: usize = 0;
    while k < nd
        invariant
            k <= nd <= 11,
            div as int == pow10(k as nat),
        decreases nd - k,
    {
        proof {
            lemma_pow10_increases(k as nat + 1, 12);
            assert(pow10(12) == 1_000_000_000_000) by {
                reveal_with_fuel(pow10, 13);
            }
        }
        div = div * 10;
        k += 1;
    }

    proof {
        vstd::arithmetic::div_mod::lemma_basic_div(v as int, pow10(nd as nat + 1));
        assert(out@.subrange(base, out@.len() as int) =~= Seq::<char>::empty());
    }
    let mut left: usize = nd + 1;
    while left > 0
        invariant
            1 <= left + 1 <= nd + 2,
            nd <= 11,
            (v as int) < pow10(nd as nat + 1),
            left >= 1 ==> div as int == pow10((left - 1) as nat),
            out@.len() == base + (nd + 1 - left),
            base == orig.len(),
            out@.subrange(0, base) == orig,
            all_digits(out@.subrange(base, out@.len() as int)),
            digits_val(out@.subrange(base, out@.len() as int)) == v as int / pow10(left as nat),
        decreases left,
    {
        proof {
            lemma_pow10_pos((left - 1) as nat);
            assert(pow10(left as nat) == 10 * pow10((left - 1) as nat));
        }
        let d = (v / div) % 10;
        let c = digit_char(d);
        let ghost before = out@.subrange(base, out@.len() as int);
        push_char(out, c);
        proof {
            assert(out@.subrange(0, base) =~= orig);
            assert(out@.subrange(base, out@.len() as int) =~= before.push(c));
            lemma_digits_val_push(before, c);
            vstd::arithmetic::div_mod::lemma_div_denominator(v as int, div as int, 10);
            vstd::arithmetic::div_mod::lemma_fundamental_div_mod(v as int / div as int, 10);
            assert(digits_val(before.push(c)) == v as int / pow10((left - 1) as nat));
        }
        div = div / 10;
        proof {
            if left >= 2 {
                assert(pow10((left - 1) as nat) == 10 * pow10((left - 2) as nat));
                assert(pow10((left - 2) as nat) >= 1) by {
                    lemma_pow10_pos((left - 2) as nat);
                }
            }
        }
        left -= 1;
    }
    proof {
        assert(pow10(0) == 1);
    }
}

/// Writes the coordinate as decimal text: the degrees and, unless it is
/// whole, a point and all nine fraction digits.
impl Coordinate {
    #[verifier::rlimit(80)]
    pub fn to_text(&self) -> (r: String)
        requires
            -1_000_000_000_000 < self.nanodeg < 1_000_000_000_000,
        ensures
            coordinate_text_of(*self, r@),
    {
        let neg = self.nanodeg < 0;
        let mag: u64 = if neg {
            (-self.nanodeg) as u64
        } else {
            self.nanodeg as u64
        };
        let deg = mag / 1_000_000_000;
        let frac = mag % 1_000_000_000;
        proof {
            reveal_with_fuel(pow10, 13);
            vstd::arithmetic::div_mod::lemma_fundamental_div_mod(mag as int, 1_000_000_000);
        }

        let mut r = String::new();
        if neg {
            push_char(&mut r, '-');
        }
        let ghost sign_end = r@.len() as int;
        let nd: usize = if deg >= 100 {
            2
        } else if deg >= 10 {
            1
        } else {
            0
        };
        push_digits(&mut r, deg, nd);
        let ghost ip = r@.subrange(sign_end, r@.len() as int);

        if frac == 0 {
            proof {
                let fp = Seq::<char>::empty();
                assert(valid_decimal(ip, fp));
                assert(r@ =~= decimal_text(neg, ip, fp));
                assert(decimal_nanodeg(neg, ip, fp) == self.nanodeg);
            }
            return r;
        }

        let ghost r0 = r@;
        push_char(&mut r, '.');
        let ghost r1 = r@;
        let ghost frac_start = r@.len() as int;
        push_digits(&mut r, frac, 8);
        proof {
            let fp = r@.subrange(frac_start, r@.len() as int);
            assert(r@.subrange(0, r1.len() as int) == r1);
            assert forall|j: int| 0 <= j < r1.len() implies r@[j] == r1[j] by {
                assert(r@.subrange(0, r1.len() as int)[j] == r@[j]);
            }
            assert(r1 == r0.push('.'));
            if neg {
                assert(r0.subrange(0, sign_end)[0] == r0[0]);
                assert(r0[0] == '-');
            }
            assert forall|j: int| 0 <= j < ip.len() implies r0[sign_end + j] == ip[j] by {
                assert(r0.subrange(sign_end, r0.len() as int)[j] == r0[sign_end + j]);
            }
            assert(valid_decimal(ip, fp));
            let t = decimal_text(neg, ip, fp);
            assert(t.len() == sign_end + ip.len() + 1 + fp.len());
            assert(fp.len() == 9);
            assert(r@.len() == sign_end + ip.len() + 1 + 9);
            assert forall|j: int| 0 <= j < r@.len() implies r@[j] == t[j] by {
                if j < sign_end {
                    assert(r@[j] == r1[j]);
                    assert(t[j] == '-');
                } else if j < sign_end + ip.len() {
                    assert(r@[j] == r1[j]);
                    assert(r1[j] == r0[j]);
                    assert(t[j] == ip[j - sign_end]);
                } else if j == sign_end + ip.len() {
                    assert(r@[j] == r1[j]);
                    assert(r1[j] == '.');
                    assert(t[j] == '.');
                } else {
                    assert(r@.subrange(frac_start, r@.len() as int)[j - frac_start] == r@[j]);
                    assert(t[j] == fp[j - (sign_end + ip.len() + 1)]);
                }
            }
            assert(r@ =~= t);
            assert(pow10(0) == 1);
            assert(digits_val(ip) == deg as int);
            assert(digits_val(fp) == frac as int);
            assert(mag as int == 1_000_000_000 * (deg as int) + frac as int);
            assert(digits_val(ip) * (NANO_PER_DEG as int) + digits_val(fp) * pow10(
                (9 - fp.len()) as nat,
            ) == mag as int);
            if neg {
                assert(mag as int == -(self.nanodeg as int));
            } else {
                assert(mag as int == self.nanodeg as int);
            }
            assert(decimal_nanodeg(neg, ip, fp) == self.nanodeg);
        }
        r
    }
}

/// A digit, as its value.
fn digit_of(c: char) -> (r: Option<u64>)
    ensures
        r is Some <==> is_digit(c),
        r is Some ==> r->0 == digit_val(c),
{
    let u = c as u32;
    if 48 <= u && u <= 57 {
        Some((u - 48) as u64)
    } else {
        None
    }
}

/// Whether position `i` of `s` exists and holds a digit.
fn at_digit(s: &str, i: usize) -> (r: bool)
    ensures
        r <==> (i < s@.len() && is_digit(s@[i as int])),
{
    if i < s.unicode_len() {
        digit_of(s.get_char(i)).is_some()
    } else {
        false
    }
}

/// Reads a coordinate from its decimal text, exactly.
///
/// Returns `Some` precisely on the texts that `valid_decimal` admits, and
/// then holds their exact nanodegree value.
#[verifier::rlimit(60)]
pub fn parse_coordinate(s: &str) -> (r: Option<Coordinate>)
    ensures
        match r {
            Some(c) => exists|neg: bool, ip: Seq<char>, fp: Seq<char>|
                valid_decimal(ip, fp) && s@ == decimal_text(neg, ip, fp) && c.nanodeg
                    == decimal_nanodeg(neg, ip, fp),
            None => forall|neg: bool, ip: Seq<char>, fp: Seq<char>|
                valid_decimal(ip, fp) ==> s@ != decimal_text(neg, ip, fp),
        },
{
    let n = s.unicode_len();
    if n == 0 {
        return None;
    }
    let neg = s.get_char(0) == '-';
    let start: usize = if neg { 1 } else { 0 };

    // Find the end of the run of integer digits.
    let mut int_end: usize = start;
    while at_digit(s, int_end)
        invariant
            start <= int_end <= n,
            n == s@.len(),
            forall|j: int| start <= j < int_end ==> is_digit(#[trigger] s@[j]),
        decreases n - int_end,
    {
        int_end += 1;
    }
    let int_len = int_end - start;
    if int_len == 0 || int_len > 3 {
        proof {
            lemma_no_rep_bad_int_run(s@, neg, start as int, int_end as int);
        }
        return None;
    }

    // The integer digits' value.
    let mut ival: u64 = 0;
    let mut k: usize = start;
    while k < int_end
        invariant
            start <= k <= int_end <= n,
            n == s@.len(),
            int_end - start <= 3,
            forall|j: int| start <= j < int_end ==> is_digit(#[trigger] s@[j]),
            ival == digits_val(s@.subrange(start as int, k as int)),
            ival < 1000,
        decreases int_end - k,
    {
        proof {
            assert(s@.subrange(start as int, k + 1).drop_last() =~= s@.subrange(
                start as int,
                k as int,
            ));
            assert(all_digits(s@.subrange(start as int, k as int)));
            lemma_digits_val_bounds(s@.subrange(start as int, k as int));
        }
        let d = digit_of(s.get_char(k)).unwrap();
        ival = ival * 10 + d;
        k += 1;
        proof {
            let pre = s@.subrange(start as int, k as int);
            assert(all_digits(pre));
            lemma_digits_val_bounds(pre);
            lemma_pow10_increases(pre.len(), 3);
            assert(pow10(3) == 1000) by {
                reveal_with_fuel(pow10, 4);
            }
        }
    }

    if int_end == n {
        // No fraction part.
        let mag = ival * (NANO_PER_DEG as u64);
        proof {
            let ip = s@.subrange(start as int, int_end as int);
            let fp = Seq::<char>::empty();
            assert(valid_decimal(ip, fp));
            assert(s@ =~= decimal_text(neg, ip, fp));
        }
        let v = if neg {
            -(mag as i64)
        } else {
            mag as i64
        };
        return Some(Coordinate { nanodeg: v });
    }

    if s.get_char(int_end) != '.' {
        proof {
            lemma_no_rep_bad_point(s@, neg, start as int, int_end as int);
        }
        return None;
    }

    // Find the end of the run of fraction digits.
    let frac_start = int_end + 1;
    let mut frac_end: usize = frac_start;
    while at_digit(s, frac_end)
        invariant
            frac_start <= frac_end <= n,
            n == s@.len(),
            forall|j: int| frac_start <= j < frac_end ==> is_digit(#[trigger] s@[j]),
        decreases n - frac_end,
    {
        frac_end += 1;
    }
    let frac_len = frac_end - frac_start;
    if frac_end < n || frac_len == 0 || frac_len > 9 {
        proof {
            lemma_no_rep_bad_frac(
                s@,
                neg,
                start as int,
                int_end as int,
                frac_start as int,
                frac_end as int,
            );
        }
        return None;
    }

    // The fraction digits' value.
    let mut fval: u64 = 0;
    let mut k2: usize = frac_start;
    while k2 < frac_end
        invariant
            frac_start <= k2 <= frac_end <= n,
            n == s@.len(),
            frac_end - frac_start <= 9,
            forall|j: int| frac_start <= j < frac_end ==> is_digit(#[trigger] s@[j]),
            fval == digits_val(s@.subrange(frac_start as int, k2 as int)),
            fval < 1_000_000_000,
        decreases frac_end - k2,
    {
        proof {
            assert(s@.subrange(frac_start as int, k2 + 1).drop_last() =~= s@.subrange(
                frac_start as int,
                k2 as int,
            ));
            assert(all_digits(s@.subrange(frac_start as int, k2 as int)));
            lemma_digits_val_bounds(s@.subrange(frac_start as int, k2 as int));
        }
        let d = digit_of(s.get_char(k2)).unwrap();
        fval = fval * 10 + d;
        k2 += 1;
        proof {
            let pre = s@.subrange(frac_start as int, k2 as int);
            assert(all_digits(pre));
            lemma_digits_val_bounds(pre);
            lemma_pow10_increases(pre.len(), 9);
            assert(pow10(9) == 1_000_000_000) by {
                reveal_with_fuel(pow10, 10);
            }
        }
    }

    // Scale the fraction to nanodegrees.
    let scale: u64 = if frac_len == 1 {
        100_000_000
    } else if frac_len == 2 {
        10_000_000
    } else if frac_len == 3 {
        1_000_000
    } else if frac_len == 4 {
        100_000
    } else if frac_len == 5 {
        10_000
    } else if frac_len == 6 {
        1_000
    } else if frac_len == 7 {
        100
    } else if frac_len == 8 {
        10
    } else {
        1
    };

    proof {
        reveal_with_fuel(pow10, 10);
        assert(scale == pow10((9 - frac_len) as nat));
        let ip = s@.subrange(start as int, int_end as int);
        let fp = s@.subrange(frac_start as int, frac_end as int);
        assert(valid_decimal(ip, fp));
        assert(s@ =~= decimal_text(neg, ip, fp));
        lemma_digits_val_bounds(fp);
        lemma_pow10_split(fp.len(), (9 - fp.len()) as nat);
        lemma_pow10_pos((9 - fp.len()) as nat);
        assert(digits_val(fp) * pow10((9 - fp.len()) as nat) < pow10(9)) by (nonlinear_arith)
            requires
                0 <= digits_val(fp) < pow10(fp.len()),
                pow10(fp.len()) * pow10((9 - fp.len()) as nat) == pow10((fp.len() + (9 - fp.len())
                    as nat) as nat),
                fp.len() + (9 - fp.len()) as nat == 9,
                pow10((9 - fp.len()) as nat) >= 1,
        ;
        assert(pow10(9) == 1_000_000_000);
        assert(fval * scale < 1_000_000_000);
        assert(NANO_PER_DEG as u64 == 1_000_000_000);
        assert(ival < 1000);
    }
    let mag = ival * (NANO_PER_DEG as u64) + fval * scale;
    let v = if neg {
        -(mag as i64)
    } else {
        mag as i64
    };
    Some(Coordinate { nanodeg: v })
}

pub proof fn lemma_pow10_pos(n: nat)
    ensures
        pow10(n) >= 1,
    decreases n,
{
    if n > 0 {
        lemma_pow10_pos((n - 1) as nat);
    }
}

pub proof fn lemma_pow10_split(a: nat, b: nat)
    ensures
        pow10(a) * pow10(b) == pow10(a + b),
    decreases a,
{
    if a == 0 {
    } else {
        lemma_pow10_split((a - 1) as nat, b);
        assert(pow10(a) == 10 * pow10((a - 1) as nat));
        assert(pow10(a) * pow10(b) == 10 * (pow10((a - 1) as nat) * pow10(b))) by (nonlinear_arith)
            requires
                pow10(a) == 10 * pow10((a - 1) as nat),
        ;
    }
}

pub proof fn lemma_pow10_increases(a: nat, b: nat)
    requires
        a <= b,
    ensures
        pow10(a) <= pow10(b),
    decreases b,
{
    if a < b {
        lemma_pow10_increases(a, (b - 1) as nat);
        lemma_pow10_pos((b - 1) as nat);
    }
}

/// No valid decimal text has an integer-digit run that is empty or longer
/// than three at the position after the sign.
proof fn lemma_no_rep_bad_int_run(s: Seq<char>, neg: bool, start: int, int_end: int)
    requires
        s.len() > 0,
        neg == (s[0] == '-'),
        start == if neg { 1int } else { 0int },
        start <= int_end <= s.len(),
        forall|j: int| start <= j < int_end ==> is_digit(#[trigger] s[j]),
        int_end == s.len() || !is_digit(s[int_end]),
        int_end - start == 0 || int_end - start > 3,
    ensures
        forall|n2: bool, ip: Seq<char>, fp: Seq<char>|
            valid_decimal(ip, fp) ==> s != decimal_text(n2, ip, fp),
{
    assert forall|n2: bool, ip: Seq<char>, fp: Seq<char>|
        valid_decimal(ip, fp) implies s != decimal_text(n2, ip, fp) by {
        if s == decimal_text(n2, ip, fp) {
            lemma_rep_structure(s, n2, ip, fp);
            lemma_digit_runs_agree(s, n2, ip, fp, start, int_end);
            assert(false);
        }
    }
}

/// After the integer digits a valid decimal text holds either its end or a
/// point.
proof fn lemma_no_rep_bad_point(s: Seq<char>, neg: bool, start: int, int_end: int)
    requires
        s.len() > 0,
        neg == (s[0] == '-'),
        start == if neg { 1int } else { 0int },
        start <= int_end < s.len(),
        1 <= int_end - start <= 3,
        forall|j: int| start <= j < int_end ==> is_digit(#[trigger] s[j]),
        !is_digit(s[int_end]),
        s[int_end] != '.',
    ensures
        forall|n2: bool, ip: Seq<char>, fp: Seq<char>|
            valid_decimal(ip, fp) ==> s != decimal_text(n2, ip, fp),
{
    assert forall|n2: bool, ip: Seq<char>, fp: Seq<char>|
        valid_decimal(ip, fp) implies s != decimal_text(n2, ip, fp) by {
        if s == decimal_text(n2, ip, fp) {
            lemma_rep_structure(s, n2, ip, fp);
            lemma_digit_runs_agree(s, n2, ip, fp, start, int_end);
            assert(ip.len() == int_end - start);
            if fp.len() == 0 {
                assert(int_end == s.len());
            } else {
                assert(s[int_end] == '.');
            }
            assert(false);
        }
    }
}

/// After the point a valid decimal text holds one to nine fraction digits
/// and nothing more.
proof fn lemma_no_rep_bad_frac(
    s: Seq<char>,
    neg: bool,
    start: int,
    int_end: int,
    frac_start: int,
    frac_end: int,
)
    requires
        s.len() > 0,
        neg == (s[0] == '-'),
        start == if neg { 1int } else { 0int },
        start <= int_end < s.len(),
        1 <= int_end - start <= 3,
        forall|j: int| start <= j < int_end ==> is_digit(#[trigger] s[j]),
        !is_digit(s[int_end]),
        s[int_end] == '.',
        frac_start == int_end + 1,
        frac_start <= frac_end <= s.len(),
        forall|j: int| frac_start <= j < frac_end ==> is_digit(#[trigger] s[j]),
        frac_end == s.len() || !is_digit(s[frac_end]),
        frac_end < s.len() || frac_end - frac_start == 0 || frac_end - frac_start > 9,
    ensures
        forall|n2: bool, ip: Seq<char>, fp: Seq<char>|
            valid_decimal(ip, fp) ==> s != decimal_text(n2, ip, fp),
{
    assert forall|n2: bool, ip: Seq<char>, fp: Seq<char>|
        valid_decimal(ip, fp) implies s != decimal_text(n2, ip, fp) by {
        if s == decimal_text(n2, ip, fp) {
            lemma_rep_structure(s, n2, ip, fp);
            lemma_digit_runs_agree(s, n2, ip, fp, start, int_end);
            assert(ip.len() == int_end - start);
            if fp.len() == 0 {
                assert(int_end == s.len());
                assert(false);
            } else {
                assert(s[int_end] == '.');
                assert(forall|j: int| int_end + 1 <= j < s.len() ==> is_digit(#[trigger] s[j]));
                if frac_end < s.len() {
                    assert(is_digit(s[frac_end]));
                    assert(false);
                }
                assert(fp.len() == s.len() - (int_end + 1));
                assert(false);
            }
        }
    }
}

/// The integer digits of a valid decimal text are exactly the maximal digit
/// run after the sign: a scan that stopped at the first non-digit found
/// their end.
proof fn lemma_digit_runs_agree(
    s: Seq<char>,
    n2: bool,
    ip: Seq<char>,
    fp: Seq<char>,
    start: int,
    int_end: int,
)
    requires
        valid_decimal(ip, fp),
        s == decimal_text(n2, ip, fp),
        start == if n2 { 1int } else { 0int },
        start <= int_end <= s.len(),
        forall|j: int| start <= j < int_end ==> is_digit(#[trigger] s[j]),
        int_end == s.len() || !is_digit(s[int_end]),
    ensures
        ip.len() == int_end - start,
{
    lemma_rep_structure(s, n2, ip, fp);
    let run2_end = start + ip.len();
    if ip.len() < int_end - start {
        assert(is_digit(s[run2_end]));
        assert(false);
    } else if ip.len() > int_end - start {
        assert(is_digit(s[int_end]));
        assert(false);
    }
}

/// What a valid decimal text pins down: the sign is the first character,
/// the integer digits are the maximal digit run after it, and the fraction
/// digits run from after the point to the end.
proof fn lemma_rep_structure(s: Seq<char>, neg: bool, ip: Seq<char>, fp: Seq<char>)
    requires
        valid_decimal(ip, fp),
        s == decimal_text(neg, ip, fp),
    ensures
        s.len() > 0,
        neg == (s[0] == '-'),
        ({
            let start = if neg { 1int } else { 0int };
            &&& start + ip.len() <= s.len()
            &&& (forall|j: int| start <= j < start + ip.len() ==> is_digit(#[trigger] s[j]))
            &&& (start + ip.len() == s.len() || !is_digit(s[start + ip.len()]))
            &&& ip =~= s.subrange(start, start + ip.len())
            &&& if fp.len() == 0 {
                start + ip.len() == s.len()
            } else {
                &&& s[start + ip.len()] == '.'
                &&& start + ip.len() + 1 + fp.len() == s.len()
                &&& fp =~= s.subrange(start + ip.len() + 1, s.len() as int)
                &&& (forall|j: int|
                    start + ip.len() + 1 <= j < s.len() ==> is_digit(#[trigger] s[j]))
            }
        }),
{
    assert(!is_digit('-'));
    assert(!is_digit('.'));
    let start = if neg { 1int } else { 0int };
    assert(is_digit(ip[0]));
    if neg {
        assert(s[0] == '-');
    } else {
        assert(s[0] == ip[0]);
        assert(s[0] != '-');
    }
    assert(forall|j: int| start <= j < start + ip.len() ==> s[j] == ip[j - start]);
    if fp.len() == 0 {
        assert(s.len() == start + ip.len());
    } else {
        assert(s[start + ip.len()] == '.');
        assert(forall|j: int|
            start + ip.len() + 1 <= j < s.len() ==> s[j] == fp[j - (start + ip.len() + 1)]);
    }
}

} // verus!
