use vstd::prelude::*;

verus! {

/// Numbers are held exactly in fixed point: a value `v` is the integer
/// `v * 10^18`. A numeral has at most 18 digits before and after the point.
pub open spec fn scale() -> int {
    1_000_000_000_000_000_000
}

pub open spec fn pow10(n: nat) -> nat
    decreases n,
{
    if n == 0 { 1 } else { 10 * pow10((n - 1) as nat) }
}

pub open spec fn is_digit(c: char) -> bool {
    '0' <= c && c <= '9'
}

pub open spec fn all_digits(d: Seq<char>) -> bool {
    forall|i: int| 0 <= i < d.len() ==> is_digit(#[trigger] d[i])
}

/// One to eighteen decimal digits.
pub open spec fn digits_ok(d: Seq<char>) -> bool {
    1 <= d.len() <= 18 && all_digits(d)
}

pub open spec fn digit_val(c: char) -> nat {
    (c as nat - '0' as nat) as nat
}

pub open spec fn digits_val(d: Seq<char>) -> nat
    decreases d.len(),
{
    if d.len() == 0 {
        0
    } else {
        digits_val(d.drop_last()) * 10 + digit_val(d.last())
    }
}

pub open spec fn is_negative(s: Seq<char>) -> bool {
    s.len() > 0 && s[0] == '-'
}

/// The numeral without its sign.
pub open spec fn unsigned_part(s: Seq<char>) -> Seq<char> {
    if is_negative(s) { s.drop_first() } else { s }
}

/// `u` is digits, a point at `k`, and digits.
pub open spec fn point_at(u: Seq<char>, k: int) -> bool {
    0 <= k < u.len() && u[k] == '.' && digits_ok(u.subrange(0, k)) && digits_ok(
        u.subrange(k + 1, u.len() as int),
    )
}

/// An integer numeral: an optional minus sign and one to eighteen digits.
pub open spec fn is_int_text(s: Seq<char>) -> bool {
    digits_ok(unsigned_part(s))
}

/// A numeral: an integer numeral, or one with a fractional part. Numbers
/// are read exactly, so a numeral has an optional minus sign, one to
/// eighteen digits, and optionally a point and one to eighteen digits; an
/// exponent (`1e3`), a plus sign or a bare leading point is not read as a
/// number, and a column holding such text is inferred as text.
pub open spec fn is_num_text(s: Seq<char>) -> bool {
    is_int_text(s) || exists|k: int| point_at(unsigned_part(s), k)
}

pub open spec fn magnitude(u: Seq<char>) -> int {
    if digits_ok(u) {
        digits_val(u) * scale()
    } else {
        let k = choose|k: int| point_at(u, k);
        let frac = u.subrange(k + 1, u.len() as int);
        digits_val(u.subrange(0, k)) * scale() + digits_val(frac) * pow10(
            (18 - frac.len()) as nat,
        )
    }
}

/// The fixed-point value of a numeral.
pub open spec fn num_value(s: Seq<char>) -> int {
    if is_negative(s) { -magnitude(unsigned_part(s)) } else { magnitude(unsigned_part(s)) }
}

/// The fixed-point value of a numeral, if the text is one.
pub open spec fn num_of(s: Seq<char>) -> Option<int> {
    if is_num_text(s) { Some(num_value(s)) } else { None }
}

proof fn lemma_pow10_18()
    ensures
        pow10(18) == scale(),
{
    reveal_with_fuel(pow10, 19);
}

proof fn lemma_pow10_mono(a: nat, b: nat)
    requires
        a <= b,
    ensures
        pow10(a) <= pow10(b),
        pow10(a) >= 1,
    decreases b,
{
    if a < b {
        lemma_pow10_mono(a, (b - 1) as nat);
    } else if a > 0 {
        lemma_pow10_mono((a - 1) as nat, (a - 1) as nat);
    }
}

fn pow10_exec(n: usize) -> (r: u64)
    requires
        n <= 18,
    ensures
        r as nat == pow10(n as nat),
{
    let mut r: u64 = 1;
    let mut i: usize = 0;
    while i < n
        invariant
            i <= n <= 18,
            r as nat == pow10(i as nat),
        decreases n - i,
    {
        proof {
            lemma_pow10_mono(i as nat, 17);
            lemma_pow10_18();
            assert(pow10(17) * 10 == pow10(18));
        }
        r = r * 10;
        i = i + 1;
    }
    r
}

/// The value of the digits `d[lo..hi]`, if they are one to eighteen digits.
fn digits_in(d: &[char], lo: usize, hi: usize) -> (r: Option<u64>)
    requires
        lo <= hi <= d@.len(),
    ensures
        r is Some <==> digits_ok(d@.subrange(lo as int, hi as int)),
        r is Some ==> r->0 as nat == digits_val(d@.subrange(lo as int, hi as int)) && (r->0 as nat)
            < pow10((hi - lo) as nat),
{
    if hi == lo || hi - lo > 18 {
        return None;
    }
    let mut v: u64 = 0;
    let mut i: usize = lo;
    while i < hi
        invariant
            lo <= i <= hi <= d@.len(),
            hi - lo <= 18,
            all_digits(d@.subrange(lo as int, i as int)),
            v as nat == digits_val(d@.subrange(lo as int, i as int)),
            (v as nat) < pow10((i - lo) as nat),
        decreases hi - i,
    {
        let c = d[i];
        if !('0' <= c && c <= '9') {
            assert(d@.subrange(lo as int, hi as int)[i - lo] == c);
            return None;
        }
        let ghost prev = d@.subrange(lo as int, i as int);
        let ghost next = d@.subrange(lo as int, i + 1);
        assert(next.drop_last() =~= prev);
        assert(next.last() == c);
        let dv: u64 = (c as u32 - '0' as u32) as u64;
        proof {
            lemma_pow10_mono((i - lo) as nat, 17);
            lemma_pow10_18();
            assert(pow10((i + 1 - lo) as nat) == 10 * pow10((i - lo) as nat));
            assert((v as nat) * 10 + dv < 10 * pow10((i - lo) as nat)) by (nonlinear_arith)
                requires
                    (v as nat) < pow10((i - lo) as nat),
                    dv < 10,
            ;
        }
        v = v * 10 + dv;
        i = i + 1;
        assert(all_digits(d@.subrange(lo as int, i as int))) by {
            assert forall|j: int| 0 <= j < next.len() implies is_digit(#[trigger] next[j]) by {
                if j < prev.len() {
                    assert(next[j] == prev[j]);
                }
            }
        }
    }
    Some(v)
}

/// The fixed-point value of a numeral (`num_of`), if the text is one.
pub fn parse_num(s: &[char]) -> (r: Option<i128>)
    ensures
        r is Some <==> is_num_text(s@),
        r is Some ==> r->0 as int == num_value(s@),
{
    let neg = s.len() > 0 && s[0] == '-';
    let start: usize = if neg { 1 } else { 0 };
    let n = s.len();
    let ghost u = unsigned_part(s@);
    assert(u =~= s@.subrange(start as int, n as int));
    proof {
        lemma_pow10_18();
    }
    match digits_in(s, start, n) {
        Some(v) => {
            let m: i128 = (v as i128) * 1_000_000_000_000_000_000i128;
            assert(is_int_text(s@));
            if neg { Some(-m) } else { Some(m) }
        },
        None => {
            let mut k: usize = start;
            while k < n && s[k] != '.'
                invariant
                    start <= k <= n == s@.len(),
                    forall|j: int| start <= j < k ==> s@[j] != '.',
                decreases n - k,
            {
                k = k + 1;
            }
            let ghost kk = k - start;
            assert forall|j: int| #![auto] point_at(u, j) implies j == kk by {
                if j < kk {
                    assert(u[j] == s@[start + j]);
                } else if j > kk {
                    assert(u.subrange(0, j)[kk] == u[kk]);
                    assert(is_digit(u.subrange(0, j)[kk]));
                }
            }
            if k == n {
                assert(!is_num_text(s@));
                return None;
            }
            let ip = digits_in(s, start, k);
            let fp = digits_in(s, k + 1, n);
            assert(u.subrange(0, kk) =~= s@.subrange(start as int, k as int));
            assert(u.subrange(kk + 1, u.len() as int) =~= s@.subrange(k + 1, n as int));
            match (ip, fp) {
                (Some(a), Some(b)) => {
                    assert(point_at(u, kk));
                    let flen = n - (k + 1);
                    let p = pow10_exec(18 - flen);
                    proof {
                        lemma_pow10_mono(flen as nat, 18);
                        lemma_pow10_mono((18 - flen) as nat, 18);
                        assert((b as nat) * (p as nat) < pow10(flen as nat) * pow10((18 - flen) as nat)) by (nonlinear_arith)
                            requires (b as nat) < pow10(flen as nat), p >= 1, (p as nat) == pow10((18 - flen) as nat);
                        lemma_pow10_split(flen as nat, (18 - flen) as nat);
                        lemma_pow10_mono((k - start) as nat, 18);
                        assert((a as nat) * scale() <= 999_999_999_999_999_999 * scale()) by (nonlinear_arith)
                            requires (a as nat) < pow10(18), pow10(18) == scale();
                    }
                    let m: i128 = (a as i128) * 1_000_000_000_000_000_000i128 + (b as i128) * (p as i128);
                    if neg { Some(-m) } else { Some(m) }
                },
                _ => {
                    assert(!point_at(u, kk));
                    None
                },
            }
        },
    }
}

proof fn lemma_pow10_split(a: nat, b: nat)
    ensures
        pow10(a) * pow10(b) == pow10(a + b),
    decreases a,
{
    if a == 0 {
        assert(pow10(0) == 1);
    } else {
        lemma_pow10_split((a - 1) as nat, b);
        assert(pow10(a + b) == 10 * pow10((a - 1 + b) as nat));
        assert(pow10(a) * pow10(b) == 10 * (pow10((a - 1) as nat) * pow10(b))) by (nonlinear_arith)
            requires pow10(a) == 10 * pow10((a - 1) as nat);
    }
}


pub proof fn lemma_digits_bound(d: Seq<char>)
    requires
        all_digits(d),
    ensures
        digits_val(d) < pow10(d.len()),
    decreases d.len(),
{
    if d.len() > 0 {
        assert(all_digits(d.drop_last())) by {
            assert forall|i: int| 0 <= i < d.drop_last().len() implies is_digit(#[trigger] d.drop_last()[i]) by {
                assert(d.drop_last()[i] == d[i]);
            }
        }
        lemma_digits_bound(d.drop_last());
        assert(is_digit(d[d.len() - 1]));
        let p = pow10(d.drop_last().len());
        assert(digits_val(d.drop_last()) * 10 + digit_val(d.last()) < 10 * p) by (nonlinear_arith)
            requires digits_val(d.drop_last()) < p, digit_val(d.last()) < 10;
        assert(pow10(d.len()) == 10 * p);
    }
}

/// Every numeral's value is below `2 * 10^36` in size.
pub proof fn lemma_num_bound(s: Seq<char>)
    requires
        is_num_text(s),
    ensures
        -2 * pow10(36) < num_value(s) < 2 * pow10(36),
{
    let u = unsigned_part(s);
    lemma_pow10_18();
    lemma_pow10_split(18, 18);
    if digits_ok(u) {
        lemma_digits_bound(u);
        lemma_pow10_mono(u.len(), 18);
        assert(digits_val(u) * scale() <= pow10(18) * pow10(18)) by (nonlinear_arith)
            requires digits_val(u) < pow10(u.len()), pow10(u.len()) <= pow10(18), scale() == pow10(18);
    } else {
        let k = choose|k: int| point_at(u, k);
        let ip = u.subrange(0, k);
        let frac = u.subrange(k + 1, u.len() as int);
        lemma_digits_bound(ip);
        lemma_digits_bound(frac);
        lemma_pow10_mono(ip.len(), 18);
        lemma_pow10_split(frac.len(), (18 - frac.len()) as nat);
        lemma_pow10_mono(0, (18 - frac.len()) as nat);
        assert(digits_val(ip) * scale() <= pow10(18) * pow10(18)) by (nonlinear_arith)
            requires digits_val(ip) < pow10(ip.len()), pow10(ip.len()) <= pow10(18), scale() == pow10(18);
        assert(digits_val(frac) * pow10((18 - frac.len()) as nat) <= pow10(frac.len()) * pow10((18 - frac.len()) as nat)) by (nonlinear_arith)
            requires digits_val(frac) < pow10(frac.len());
        assert(pow10(18) <= pow10(36)) by {
            lemma_pow10_mono(18, 36);
        }
    }
}


pub proof fn lemma_pow10_36()
    ensures
        pow10(36) == 1_000_000_000_000_000_000_000_000_000_000_000_000,
{
    reveal_with_fuel(pow10, 37);
}

} // verus!
