use vstd::prelude::*;

verus! {

/// Case folding of a character sequence, as `str::to_lowercase` computes it.
pub uninterp spec fn lower_of(s: Seq<char>) -> Seq<char>;

/// Relies on `str::to_lowercase`: the result depends on the characters alone,
/// and an empty string stays empty.
#[verifier::external_body]
pub(crate) fn lowercase(s: &str) -> (r: String)
    ensures
        r@ == lower_of(s@),
        s@.len() == 0 ==> r@.len() == 0,
{
    s.to_lowercase()
}

/// Relies on `str::chars`: it yields the characters of the string in order.
#[verifier::external_body]
pub(crate) fn chars_of(s: &str) -> (r: Vec<char>)
    ensures
        r@ == s@,
{
    s.chars().collect()
}

/// Relies on `FromIterator<char>` for `String`: the string holds the given
/// characters in order.
#[verifier::external_body]
pub(crate) fn text_of(cs: &[char]) -> (r: String)
    ensures
        r@ == cs@,
{
    cs.iter().collect()
}

/// `t` occurs in `s` starting at position `i`.
pub open spec fn occurs_at(s: Seq<char>, t: Seq<char>, i: int) -> bool {
    0 <= i && i + t.len() <= s.len() && s.subrange(i, i + t.len()) == t
}

/// `t` is a contiguous part of `s`.
pub open spec fn has_part(s: Seq<char>, t: Seq<char>) -> bool {
    exists|i: int| occurs_at(s, t, i)
}

/// `t` is a final part of `s`.
pub open spec fn has_suffix(s: Seq<char>, t: Seq<char>) -> bool {
    t.len() <= s.len() && s.subrange(s.len() - t.len(), s.len() as int) == t
}

fn matches_at(s: &Vec<char>, t: &Vec<char>, i: usize) -> (r: bool)
    requires
        i + t@.len() <= s@.len(),
    ensures
        r == occurs_at(s@, t@, i as int),
{
    let mut k: usize = 0;
    let n = s.len();
    while k < t.len()
        invariant
            n == s@.len(),
            k <= t@.len(),
            i + t@.len() <= s@.len(),
            forall|j: int| 0 <= j < k ==> s@[i + j] == t@[j],
        decreases t@.len() - k,
    {
        if s[i + k] != t[k] {
            assert(s@.subrange(i as int, i + t@.len())[k as int] != t@[k as int]);
            return false;
        }
        k = k + 1;
    }
    assert(s@.subrange(i as int, i + t@.len()) =~= t@);
    true
}

/// Whether `t` occurs in `s` as a contiguous part.
pub fn contains_text(s: &str, t: &str) -> (r: bool)
    ensures
        r == has_part(s@, t@),
{
    let sv = chars_of(s);
    let tv = chars_of(t);
    if tv.len() > sv.len() {
        assert(!has_part(s@, t@));
        return false;
    }
    let mut i: usize = 0;
    let last = sv.len() - tv.len();
    while i <= last
        invariant
            sv@ == s@,
            tv@ == t@,
            tv@.len() <= sv@.len(),
            last == sv@.len() - tv@.len(),
            i <= last + 1,
            forall|j: int| 0 <= j < i ==> !occurs_at(s@, t@, j),
        decreases sv@.len() + 1 - i,
    {
        if matches_at(&sv, &tv, i) {
            return true;
        }
        if i == last {
            assert forall|j: int| !occurs_at(s@, t@, j) by {
                if 0 <= j && j + t@.len() <= s@.len() {
                    assert(j <= i);
                }
            }
            return false;
        }
        i = i + 1;
    }
    assert forall|j: int| !occurs_at(s@, t@, j) by {
        if 0 <= j && j + t@.len() <= s@.len() {
            assert(j < i);
        }
    }
    false
}

/// Whether `s` ends with `t`.
pub fn ends_with_text(s: &str, t: &str) -> (r: bool)
    ensures
        r == has_suffix(s@, t@),
{
    let sv = chars_of(s);
    let tv = chars_of(t);
    if tv.len() > sv.len() {
        return false;
    }
    matches_at(&sv, &tv, sv.len() - tv.len())
}

/// Whether two strings hold the same characters.
pub(crate) fn same_text(a: &str, b: &str) -> (r: bool)
    ensures
        r == (a@ == b@),
{
    let av = chars_of(a);
    let bv = chars_of(b);
    if av.len() != bv.len() {
        return false;
    }
    let r = matches_at(&av, &bv, 0);
    assert(av@.subrange(0, bv@.len() as int) =~= av@);
    r
}

/// A string built from the given string followed by another.
pub(crate) fn join2(a: &str, b: &str) -> (r: String)
    ensures
        r@ == a@ + b@,
{
    let mut s = String::from_str(a);
    s.append(b);
    s
}

/// Decimal digits of a natural number, most significant first.
pub open spec fn nat_text(n: nat) -> Seq<char>
    decreases n,
{
    if n < 10 {
        seq![digit_char(n)]
    } else {
        nat_text(n / 10) + seq![digit_char(n % 10)]
    }
}

pub open spec fn digit_char(d: nat) -> char {
    if d == 0 { '0' } else if d == 1 { '1' } else if d == 2 { '2' } else if d == 3 { '3' }
    else if d == 4 { '4' } else if d == 5 { '5' } else if d == 6 { '6' } else if d == 7 { '7' }
    else if d == 8 { '8' } else { '9' }
}

fn digit_str(d: usize) -> (r: &'static str)
    requires
        d < 10,
    ensures
        r@ == seq![digit_char(d as nat)],
{
    proof {
        reveal_strlit("0");
        reveal_strlit("1");
        reveal_strlit("2");
        reveal_strlit("3");
        reveal_strlit("4");
        reveal_strlit("5");
        reveal_strlit("6");
        reveal_strlit("7");
        reveal_strlit("8");
        reveal_strlit("9");
    }
    if d == 0 { "0" } else if d == 1 { "1" } else if d == 2 { "2" } else if d == 3 { "3" }
    else if d == 4 { "4" } else if d == 5 { "5" } else if d == 6 { "6" } else if d == 7 { "7" }
    else if d == 8 { "8" } else { "9" }
}

/// The decimal text of a natural number.
pub fn uint_text(n: u128) -> (r: String)
    ensures
        r@ == nat_text(n as nat),
    decreases n,
{
    if n < 10 {
        String::from_str(digit_str(n as usize))
    } else {
        let mut s = uint_text(n / 10);
        s.append(digit_str((n % 10) as usize));
        s
    }
}

/// The decimal text of a count.
pub fn count_text(n: usize) -> (r: String)
    ensures
        r@ == nat_text(n as nat),
{
    uint_text(n as u128)
}

/// `w` decimal digits of `f`, with leading zeros.
pub open spec fn padded(f: nat, w: nat) -> Seq<char>
    decreases w,
{
    if w == 0 {
        seq![]
    } else {
        padded(f / 10, (w - 1) as nat).push(digit_char(f % 10))
    }
}

/// Text without its trailing zeros.
pub open spec fn trim_zeros(s: Seq<char>) -> Seq<char>
    decreases s.len(),
{
    if s.len() > 0 && s.last() == '0' {
        trim_zeros(s.drop_last())
    } else {
        s
    }
}

pub open spec fn fixed_scale() -> nat {
    1_000_000_000_000_000_000
}

/// The decimal text of a fixed-point value (`v / 10^18`): its sign, its
/// whole part, and its fractional part without trailing zeros, if any.
pub open spec fn fixed_text(v: int) -> Seq<char> {
    let m = if v < 0 { -v } else { v };
    let whole = (m / fixed_scale() as int) as nat;
    let frac = (m % fixed_scale() as int) as nat;
    let sign = if v < 0 { seq!['-'] } else { seq![] };
    if frac == 0 {
        sign + nat_text(whole)
    } else {
        sign + nat_text(whole) + seq!['.'] + trim_zeros(padded(frac, 18))
    }
}

fn digit_of(d: u64) -> (r: char)
    requires
        d < 10,
    ensures
        r == digit_char(d as nat),
{
    if d == 0 { '0' } else if d == 1 { '1' } else if d == 2 { '2' } else if d == 3 { '3' }
    else if d == 4 { '4' } else if d == 5 { '5' } else if d == 6 { '6' } else if d == 7 { '7' }
    else if d == 8 { '8' } else { '9' }
}

fn padded_exec(f: u64, w: usize) -> (r: Vec<char>)
    ensures
        r@ == padded(f as nat, w as nat),
    decreases w,
{
    if w == 0 {
        Vec::new()
    } else {
        let mut r = padded_exec(f / 10, w - 1);
        r.push(digit_of(f % 10));
        r
    }
}

/// The decimal text of a fixed-point value.
pub fn fixed_to_text(v: i128) -> (r: String)
    ensures
        r@ == fixed_text(v as int),
{
    let m: u128 = if v < 0 { ((-(v + 1)) as u128) + 1 } else { v as u128 };
    let whole = m / 1_000_000_000_000_000_000u128;
    let frac = (m % 1_000_000_000_000_000_000u128) as u64;
    let mut s = if v < 0 { String::from_str("-") } else { String::new() };
    proof {
        reveal_strlit("-");
    }
    let w = uint_text(whole);
    s.append(w.as_str());
    if frac == 0 {
        assert(s@ =~= fixed_text(v as int));
        return s;
    }
    let mut ds = padded_exec(frac, 18);
    let ghost full = ds@;
    while ds.len() > 0 && ds[ds.len() - 1] == '0'
        invariant
            trim_zeros(ds@) == trim_zeros(full),
        decreases ds@.len(),
    {
        ds.pop();
    }
    let tail = text_of(ds.as_slice());
    s.append(".");
    proof {
        reveal_strlit(".");
    }
    s.append(tail.as_str());
    assert(s@ =~= fixed_text(v as int));
    s
}

} // verus!

verus! {

/// The pieces of `s` between occurrences of `sep` (one piece more than
/// there are separators).
pub open spec fn split_seq(s: Seq<char>, sep: char) -> Seq<Seq<char>>
    decreases s.len(),
{
    if s.len() == 0 {
        seq![Seq::<char>::empty()]
    } else {
        let prev = split_seq(s.drop_last(), sep);
        if s.last() == sep {
            prev.push(Seq::<char>::empty())
        } else {
            prev.update(prev.len() - 1, prev.last().push(s.last()))
        }
    }
}

pub proof fn lemma_split_nonempty(s: Seq<char>, sep: char)
    ensures
        split_seq(s, sep).len() >= 1,
    decreases s.len(),
{
    if s.len() > 0 {
        lemma_split_nonempty(s.drop_last(), sep);
    }
}

pub open spec fn views(v: Seq<Vec<char>>) -> Seq<Seq<char>> {
    v.map_values(|x: Vec<char>| x@)
}

/// Splits `s[lo..hi]` at every `sep`.
pub(crate) fn split_chars(s: &Vec<char>, lo: usize, hi: usize, sep: char) -> (r: Vec<Vec<char>>)
    requires
        lo <= hi <= s@.len(),
    ensures
        views(r@) == split_seq(s@.subrange(lo as int, hi as int), sep),
{
    let mut pieces: Vec<Vec<char>> = Vec::new();
    let mut cur: Vec<char> = Vec::new();
    let mut i: usize = lo;
    while i < hi
        invariant
            lo <= i <= hi <= s@.len(),
            views(pieces@).push(cur@) == split_seq(s@.subrange(lo as int, i as int), sep),
        decreases hi - i,
    {
        let ghost pre = s@.subrange(lo as int, i as int);
        let ghost nxt = s@.subrange(lo as int, i + 1);
        assert(nxt.drop_last() =~= pre);
        proof {
            lemma_split_nonempty(pre, sep);
        }
        let c = s[i];
        if c == sep {
            pieces.push(cur);
            cur = Vec::new();
            assert(views(pieces@).push(cur@) =~= split_seq(pre, sep).push(Seq::<char>::empty()));
        } else {
            let ghost old_pieces = pieces@;
            cur.push(c);
            assert(views(pieces@).push(cur@) =~= split_seq(pre, sep).update(
                split_seq(pre, sep).len() - 1,
                split_seq(pre, sep).last().push(c),
            ));
        }
        i = i + 1;
    }
    pieces.push(cur);
    assert(views(pieces@) =~= split_seq(s@.subrange(lo as int, hi as int), sep));
    pieces
}

} // verus!
