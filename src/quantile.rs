use vstd::prelude::*;
use crate::exec::col_values;
use crate::numeric::{lemma_num_bound, parse_num, pow10};
use crate::table::{cell_view, row_view, Cell};
use crate::text::{chars_of, digit_char, nat_text, uint_text};

verus! {

pub open spec fn ascending(v: Seq<int>) -> bool {
    forall|a: int, b: int| 0 <= a < b < v.len() ==> v[a] <= v[b]
}

/// The value at quarter `k` of sorted values (`k` = 1, 2, 3 for the 25th
/// percentile, the median and the 75th percentile), interpolating linearly
/// between neighbouring values.
pub open spec fn quarter(v: Seq<int>, k: int) -> int {
    let h = k * (v.len() - 1);
    let lo = h / 4;
    let rem = h % 4;
    if rem == 0 { v[lo] } else { v[lo] + (rem * (v[lo + 1] - v[lo])) / 4 }
}

proof fn lemma_quarter_between(v: Seq<int>, k: int)
    requires
        ascending(v),
        v.len() > 0,
        1 <= k <= 3,
    ensures
        (k * (v.len() - 1)) / 4 < v.len(),
        v[(k * (v.len() - 1)) / 4] <= quarter(v, k),
        (k * (v.len() - 1)) % 4 != 0 ==> (k * (v.len() - 1)) / 4 + 1 < v.len() && quarter(v, k) <= v[(k * (v.len() - 1)) / 4 + 1],
{
    let n = v.len() as int;
    let h = k * (n - 1);
    let lo = h / 4;
    let rem = h % 4;
    assert(0 <= h <= 3 * (n - 1)) by (nonlinear_arith)
        requires 1 <= k <= 3, n >= 1, h == k * (n - 1);
    assert(lo * 4 + rem == h && 0 <= rem < 4) by (nonlinear_arith)
        requires lo == h / 4, rem == h % 4, h >= 0;
    assert(lo < n);
    if rem != 0 {
        assert(lo + 1 < n) by (nonlinear_arith)
            requires lo * 4 + rem == h, rem > 0, h <= 3 * (n - 1), h >= 0, lo >= 0;
        let d = v[lo + 1] - v[lo];
        assert(d >= 0);
        assert(0 <= (rem * d) / 4 <= d) by (nonlinear_arith)
            requires 0 < rem < 4, d >= 0;
    }
}

/// For sorted values, the 25th percentile is at most the median, and the
/// median at most the 75th percentile.
pub proof fn lemma_quartiles_ordered(v: Seq<int>)
    requires
        ascending(v),
        v.len() > 0,
    ensures
        quarter(v, 1) <= quarter(v, 2),
        quarter(v, 2) <= quarter(v, 3),
{
    lemma_quarter_order(v, 1, 2);
    lemma_quarter_order(v, 2, 3);
}

proof fn lemma_quarter_order(v: Seq<int>, k1: int, k2: int)
    requires
        ascending(v),
        v.len() > 0,
        1 <= k1 < k2 <= 3,
    ensures
        quarter(v, k1) <= quarter(v, k2),
{
    lemma_quarter_between(v, k1);
    lemma_quarter_between(v, k2);
    let n = v.len() as int;
    let h1 = k1 * (n - 1);
    let h2 = k2 * (n - 1);
    assert(h1 <= h2) by (nonlinear_arith)
        requires k1 < k2, n >= 1, h1 == k1 * (n - 1), h2 == k2 * (n - 1);
    let lo1 = h1 / 4;
    let lo2 = h2 / 4;
    assert(lo1 <= lo2) by (nonlinear_arith)
        requires h1 <= h2, lo1 == h1 / 4, lo2 == h2 / 4, h1 >= 0;
    if lo1 == lo2 {
        let r1 = h1 % 4;
        let r2 = h2 % 4;
        assert(r1 <= r2) by (nonlinear_arith)
            requires h1 <= h2, lo1 == h1 / 4, lo2 == h2 / 4, lo1 == lo2, r1 == h1 % 4, r2 == h2 % 4, h1 >= 0;
        if r1 != 0 {
            let d = v[lo1 + 1] - v[lo1];
            assert((r1 * d) / 4 <= (r2 * d) / 4) by (nonlinear_arith)
                requires 0 < r1 <= r2, d >= 0;
        }
    } else {
        if h1 % 4 != 0 {
            assert(lo1 + 1 <= lo2);
            assert(v[lo1 + 1] <= v[lo2]);
        } else {
            assert(v[lo1] <= v[lo2]);
        }
    }
}

/// Rounds `v / 10^16` to the nearest integer, halves away from zero: a
/// fixed-point value in hundredths.
pub open spec fn cents(v: int) -> int {
    let m = if v < 0 { -v } else { v };
    let c = (m + 5_000_000_000_000_000) / 10_000_000_000_000_000;
    if v < 0 { -c } else { c }
}

/// A fixed-point value as text with exactly two decimals, rounded half away
/// from zero.
pub open spec fn two_decimals(v: int) -> Seq<char> {
    let c = cents(v);
    let m = if c < 0 { -c } else { c };
    let sign = if c < 0 { seq!['-'] } else { seq![] };
    sign + nat_text((m / 100) as nat) + seq!['.', digit_char(((m / 10) % 10) as nat), digit_char((m % 10) as nat)]
}

fn digit_of(d: u128) -> (r: char)
    requires
        d < 10,
    ensures
        r == digit_char(d as nat),
{
    if d == 0 { '0' } else if d == 1 { '1' } else if d == 2 { '2' } else if d == 3 { '3' }
    else if d == 4 { '4' } else if d == 5 { '5' } else if d == 6 { '6' } else if d == 7 { '7' }
    else if d == 8 { '8' } else { '9' }
}

/// The text of a fixed-point value with two decimals (see `two_decimals`).
pub fn two_decimals_text(v: i128) -> (r: String)
    ensures
        r@ == two_decimals(v as int),
{
    let m: u128 = if v < 0 { ((-(v + 1)) as u128) + 1 } else { v as u128 };
    let c: u128 = (m + 5_000_000_000_000_000) / 10_000_000_000_000_000;
    let mut s = if v < 0 && c > 0 { String::from_str("-") } else { String::new() };
    proof {
        reveal_strlit("-");
    }
    let w = uint_text(c / 100);
    s.append(w.as_str());
    let tail = vec!['.', digit_of((c / 10) % 10), digit_of(c % 10)];
    let t = crate::text::text_of(tail.as_slice());
    s.append(t.as_str());
    assert(tail@ =~= seq!['.', digit_char((((c / 10) % 10)) as nat), digit_char((c % 10) as nat)]);
    assert(s@ =~= two_decimals(v as int));
    s
}

pub proof fn lemma_values_bounded(col: Seq<Option<Seq<char>>>)
    ensures
        forall|k: int| 0 <= k < col_values(col).len() ==> -2 * pow10(36) < #[trigger] col_values(col)[k] < 2 * pow10(36),
    decreases col.len(),
{
    if col.len() > 0 {
        lemma_values_bounded(col.drop_last());
        match col.last() {
            Some(s) => {
                if crate::numeric::is_num_text(s) {
                    lemma_num_bound(s);
                    let p = col_values(col.drop_last());
                    assert forall|k: int| 0 <= k < col_values(col).len() implies -2 * pow10(36) < #[trigger] col_values(col)[k] < 2 * pow10(36) by {
                        if k < p.len() {
                            assert(col_values(col)[k] == p[k]);
                        }
                    }
                }
            },
            None => {},
        }
    }
}

/// The numbers of a column in ascending order.
pub fn sorted_numbers(cells: &Vec<Cell>) -> (r: Vec<i128>)
    ensures
        ascending(r@.map_values(|x: i128| x as int)),
        r@.map_values(|x: i128| x as int).to_multiset() == col_values(row_view(*cells)).to_multiset(),
        r@.len() == col_values(row_view(*cells)).len(),
        forall|k: int| 0 <= k < r@.len() ==> -2 * pow10(36) < #[trigger] r@[k] < 2 * pow10(36),
{
    broadcast use vstd::seq_lib::group_to_multiset_ensures;
    let ghost col = row_view(*cells);
    proof {
        lemma_values_bounded(col);
    }
    let mut res: Vec<i128> = Vec::new();
    let mut i: usize = 0;
    while i < cells.len()
        invariant
            col == row_view(*cells),
            i <= cells@.len(),
            forall|k: int| 0 <= k < col_values(col).len() ==> -2 * pow10(36) < #[trigger] col_values(col)[k] < 2 * pow10(36),
            ascending(res@.map_values(|x: i128| x as int)),
            res@.map_values(|x: i128| x as int).to_multiset() == col_values(col.subrange(0, i as int)).to_multiset(),
            res@.len() == col_values(col.subrange(0, i as int)).len(),
            forall|k: int| 0 <= k < res@.len() ==> -2 * pow10(36) < #[trigger] res@[k] < 2 * pow10(36),
        decreases cells@.len() - i,
    {
        let ghost pre = col.subrange(0, i as int);
        let ghost nxt = col.subrange(0, i + 1);
        assert(nxt.drop_last() =~= pre);
        assert(cell_view(cells@[i as int]) == nxt.last());
        let v = match &cells[i] {
            Some(s) => parse_num(chars_of(s.as_str()).as_slice()),
            None => None,
        };
        match v {
            Some(x) => {
                proof {
                    crate::exec::lemma_values_prefix(col, i + 1);
                    let full = col_values(col);
                    let vn = col_values(nxt);
                    assert(vn == col_values(pre).push(x as int));
                    assert(vn[vn.len() - 1] == full[vn.len() - 1]);
                }
                let ghost rv = res@.map_values(|x: i128| x as int);
                let mut p: usize = 0;
                while p < res.len() && res[p] <= x
                    invariant
                        p <= res@.len(),
                        rv == res@.map_values(|x: i128| x as int),
                        forall|q: int| 0 <= q < p ==> #[trigger] rv[q] <= x as int,
                    decreases res@.len() - p,
                {
                    p = p + 1;
                }
                let ghost old_res = res@;
                res.insert(p, x);
                proof {
                    let nv = res@.map_values(|x: i128| x as int);
                    assert(nv =~= rv.insert(p as int, x as int));
                    vstd::seq_lib::to_multiset_insert(rv, p as int, x as int);
                    vstd::seq_lib::to_multiset_build(col_values(pre), x as int);
                    assert forall|a: int, b: int| 0 <= a < b < nv.len() implies nv[a] <= nv[b] by {
                        if p < rv.len() {
                            assert(rv[p as int] > x as int);
                        }
                        if b < p {
                            assert(nv[a] == rv[a] && nv[b] == rv[b]);
                        } else if b == p {
                            assert(nv[a] == rv[a]);
                        } else if a == p {
                            assert(nv[b] == rv[b - 1]);
                            assert(rv[p as int] <= rv[b - 1] || b - 1 == p);
                        } else if a < p {
                            assert(nv[a] == rv[a] && nv[b] == rv[b - 1]);
                        } else {
                            assert(nv[a] == rv[a - 1] && nv[b] == rv[b - 1]);
                        }
                    }
                    assert forall|k: int| 0 <= k < res@.len() implies -2 * pow10(36) < #[trigger] res@[k] < 2 * pow10(36) by {
                        if k < p {
                            assert(res@[k] == old_res[k]);
                        } else if k > p {
                            assert(res@[k] == old_res[k - 1]);
                        }
                    }
                }
            },
            None => {
                assert(col_values(nxt) == col_values(pre));
            },
        }
        i = i + 1;
    }
    assert(col.subrange(0, i as int) =~= col);
    res
}

/// The value at quarter `k` of sorted numbers (see `quarter`).
pub fn quarter_exec(v: &Vec<i128>, k: usize) -> (r: i128)
    requires
        ascending(v@.map_values(|x: i128| x as int)),
        v@.len() > 0,
        1 <= k <= 3,
        forall|q: int| 0 <= q < v@.len() ==> -2 * pow10(36) < #[trigger] v@[q] < 2 * pow10(36),
    ensures
        r as int == quarter(v@.map_values(|x: i128| x as int), k as int),
        -2 * pow10(36) < r < 2 * pow10(36),
{
    let ghost sv = v@.map_values(|x: i128| x as int);
    proof {
        lemma_quarter_between(sv, k as int);
        crate::numeric::lemma_pow10_36();
        assert((k as int) * (v@.len() - 1) <= 3 * v@.len()) by (nonlinear_arith)
            requires k <= 3, v@.len() >= 1;
    }
    let n = v.len();
    let h: u128 = (k as u128) * ((n - 1) as u128);
    let lo = (h / 4) as usize;
    let rem = (h % 4) as i128;
    if rem == 0 {
        v[lo]
    } else {
        let d: i128 = v[lo + 1] - v[lo];
        assert(sv[lo + 1] == v@[lo + 1] as int && sv[lo as int] == v@[lo as int] as int);
        assert(d >= 0);
        assert(0 <= ((rem as int) * (d as int)) / 4 <= d) by (nonlinear_arith)
            requires 0 < rem < 4, d >= 0;
        let r = v[lo] + ((rem as i128) * d) / 4;
        r
    }
}

} // verus!
