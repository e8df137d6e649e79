//! Numbers as people read them.

use vstd::prelude::*;
use vstd::arithmetic::power2;
use vstd::utf8;
use crate::number;
use crate::number::Real;

verus! {

pub open spec fn digit(d: nat) -> char {
    (48 + d) as char
}

/// A number in decimal.
pub open spec fn decimal(n: nat) -> Seq<char>
    decreases n,
{
    if n < 10 {
        seq![digit(n)]
    } else {
        decimal(n / 10).push(digit(n % 10))
    }
}

fn digit_text(d: u64) -> (r: &'static str)
    requires
        d < 10,
    ensures
        r@ == seq![digit(d as nat)],
{
    proof {
        reveal_strlit("0");
        reveal_strlit("1");
        reveal_strlit("2");
        reveal_strlit("3");
        reveal_strlit("4");
        reveal_strlit("5");
        reveal_strlit("6");
        reveal_strlit("7");
        reveal_strlit("8");
        reveal_strlit("9");
    }
    let r = if d == 0 {
        "0"
    } else if d == 1 {
        "1"
    } else if d == 2 {
        "2"
    } else if d == 3 {
        "3"
    } else if d == 4 {
        "4"
    } else if d == 5 {
        "5"
    } else if d == 6 {
        "6"
    } else if d == 7 {
        "7"
    } else if d == 8 {
        "8"
    } else {
        "9"
    };
    assert(r@ =~= seq![digit(d as nat)]);
    r
}

/// A number in decimal.
pub fn number_text(n: u64) -> (r: String)
    ensures
        r@ == decimal(n as nat),
    decreases n,
{
    if n < 10 {
        digit_text(n).to_owned()
    } else {
        let mut r = number_text(n / 10);
        r.append(digit_text(n % 10));
        assert(r@ =~= decimal((n / 10) as nat).push(digit((n % 10) as nat)));
        r
    }
}

/// A number has no more digits than it has predecessors, and one.
pub proof fn lemma_decimal_len(n: nat)
    ensures
        decimal(n).len() <= n + 1,
    decreases n,
{
    if n >= 10 {
        lemma_decimal_len(n / 10);
    }
}

/// A character takes four bytes at most.
pub proof fn lemma_encoded_len(s: Seq<char>)
    ensures
        utf8::encode_utf8(s).len() <= 4 * s.len(),
    decreases s.len(),
{
    if s.len() > 0 {
        lemma_encoded_len(s.drop_first());
    }
}

/// Three digits, with leading zeroes.
pub open spec fn three_digits(n: nat) -> Seq<char> {
    seq![digit(n / 100), digit(n / 10 % 10), digit(n % 10)]
}

/// The digits in groups of three.
pub open spec fn grouped(n: nat) -> Seq<char>
    decreases n,
{
    if n < 1000 {
        decimal(n)
    } else {
        grouped(n / 1000) + ","@ + three_digits(n % 1000)
    }
}

fn grouped_text(n: u64) -> (r: String)
    ensures
        r@ == grouped(n as nat),
    decreases n,
{
    if n < 1000 {
        number_text(n)
    } else {
        let mut r = grouped_text(n / 1000);
        let rest: u64 = n % 1000;
        r.append(",");
        r.append(digit_text(rest / 100));
        r.append(digit_text(rest / 10 % 10));
        r.append(digit_text(rest % 10));
        assert(r@ =~= grouped((n / 1000) as nat) + ","@ + three_digits((n % 1000) as nat));
        r
    }
}

/// A count with its digits in groups of three.
pub fn thousands(n: usize) -> (r: String)
    ensures
        r@ == grouped(n as nat),
{
    grouped_text(n as u64)
}

// ---------------------------------------------------------------------------
// Sizes of files
// ---------------------------------------------------------------------------

/// What a double-precision number keeps of a whole number: 53 leading bits.
pub open spec fn as_double(n: nat) -> int {
    let e = number::log2(n);
    if e <= 52 {
        n as int
    } else {
        let unit = power2::pow2((e - 52) as nat) as int;
        number::nearest(n as int, unit) * unit
    }
}

/// A count of tenths.
pub open spec fn tenths(q: nat) -> Seq<char> {
    decimal(q / 10) + "."@ + seq![digit(q % 10)]
}

/// A count of hundredths.
pub open spec fn hundredths(q: nat) -> Seq<char> {
    decimal(q / 100) + "."@ + seq![digit(q / 10 % 10), digit(q % 10)]
}

/// A file size: whole bytes, whole kilobytes, tenths of megabytes or hundredths
/// of gigabytes, rounded to nearest, halves to even.
pub open spec fn size_text(bytes: nat) -> Seq<char> {
    let b = as_double(bytes);
    if b < 1024 {
        decimal(bytes) + " B"@
    } else if b < 0x10_0000 {
        decimal(number::nearest(b, 1024) as nat) + " kB"@
    } else if b < 0x4000_0000 {
        tenths(number::nearest(b * 10, 0x10_0000) as nat) + " MB"@
    } else {
        hundredths(number::nearest(b * 100, 0x4000_0000) as nat) + " GB"@
    }
}

fn nearest_of(n: u128, d: u128) -> (r: u128)
    requires
        0 < d <= 0x8000_0000_0000_0000,
    ensures
        r == number::nearest(n as int, d as int),
        r <= n / d + 1,
{
    let q: u128 = n / d;
    let rest: u128 = n % d;
    proof {
        vstd::arithmetic::div_mod::lemma_mod_bound(n as int, d as int);
    }
    if 2 * rest > d || (2 * rest == d && q % 2 == 1) {
        assert(q < u128::MAX) by (nonlinear_arith)
            requires
                q == n / d,
                n % d > 0,
                d > 0,
                n <= u128::MAX,
        {
            vstd::arithmetic::div_mod::lemma_fundamental_div_mod(n as int, d as int);
            if q == u128::MAX {
                assert(d * q >= q);
            }
        }
        q + 1
    } else {
        q
    }
}

fn rounded(n: u64) -> (r: u128)
    ensures
        r == as_double(n as nat),
        r <= 0x1_0000_0000_0000_0000,
{
    let mut e: u32 = 0;
    let mut top: u64 = n;
    proof {
        power2::lemma2_to64();
        assert(top as int * power2::pow2(0) == n);
    }
    while top > 1
        invariant
            number::log2(n as nat) == e + number::log2(top as nat),
            e <= 64 - 1,
            n >= 1 ==> top >= 1,
            top as int * power2::pow2(e as nat) <= n,
        decreases top,
    {
        proof {
            power2::lemma_pow2_unfold(e as nat + 1);
            power2::lemma_pow2_pos(e as nat);
            let p = power2::pow2(e as nat) as int;
            assert((top as int / 2) * (2 * p) <= top as int * p) by (nonlinear_arith)
                requires
                    p >= 1,
                    top >= 0,
            ;
            if e >= 63 {
                number::lemma_pow2_order(63, e as nat);
                power2::lemma2_to64_rest();
                assert(top as int * p >= 2 * 0x8000_0000_0000_0000) by (nonlinear_arith)
                    requires
                        top >= 2,
                        p >= 0x8000_0000_0000_0000,
                ;
            }
        }
        top = top / 2;
        e = e + 1;
    }
    if e <= 52 {
        return n as u128;
    }
    let unit: u64 = number::power(e - 52);
    proof {
        number::lemma_pow2_order((e - 52) as nat, 11);
        power2::lemma2_to64();
        number::lemma_log2(n as nat);
        power2::lemma_pow2_adds((e - 52) as nat, 53);
        assert((e - 52) as nat + 53 == e as nat + 1);
        power2::lemma2_to64_rest();
    }
    let q: u128 = nearest_of(n as u128, unit as u128);
    proof {
        let u = unit as int;
        assert(n as int / u < 0x20_0000_0000_0000) by (nonlinear_arith)
            requires
                n < u * 0x20_0000_0000_0000,
                u > 0,
        {
            vstd::arithmetic::div_mod::lemma_fundamental_div_mod(n as int, u);
            vstd::arithmetic::div_mod::lemma_mod_bound(n as int, u);
        }
        assert(q <= 0x20_0000_0000_0000);
        assert(q * u <= 0x20_0000_0000_0000 * 2048) by (nonlinear_arith)
            requires
                0 <= q <= 0x20_0000_0000_0000,
                0 <= u <= 2048,
        ;
    }
    q * unit as u128
}

/// Bytes as a person reads them.
pub fn human_bytes(bytes: u64) -> (r: String)
    ensures
        r@ == size_text(bytes as nat),
{
    let b: u128 = rounded(bytes);
    if b < 1024 {
        let mut r = number_text(bytes);
        r.append(" B");
        r
    } else if b < 0x10_0000 {
        let q: u64 = nearest_of(b, 1024) as u64;
        let mut r = number_text(q);
        r.append(" kB");
        r
    } else if b < 0x4000_0000 {
        let q: u64 = nearest_of(b * 10, 0x10_0000) as u64;
        let mut r = number_text(q / 10);
        r.append(".");
        r.append(digit_text(q % 10));
        r.append(" MB");
        r
    } else {
        let q: u64 = nearest_of(b * 100, 0x4000_0000) as u64;
        let mut r = number_text(q / 100);
        r.append(".");
        r.append(digit_text(q / 10 % 10));
        r.append(digit_text(q % 10));
        r.append(" GB");
        assert(r@ =~= hundredths(q as nat) + " GB"@);
        r
    }
}

// ---------------------------------------------------------------------------
// Text that the caller supplies
// ---------------------------------------------------------------------------

/// The caller's way to write a number with a fixed count of decimals always
/// answers, gives the same answer to the same question, and keeps to one line.
pub open spec fn steady_text<T: Fn(Real, usize) -> String>(t: T) -> bool {
    &&& forall|x: Real, places: usize| #[trigger] call_requires(t, (x, places))
    &&& forall|x: Real, places: usize, r: String| #[trigger]
        call_ensures(t, (x, places), r) ==> r@ == shown(t, x, places)
    &&& forall|x: Real, places: usize| unbroken(#[trigger] shown(t, x, places))
}

/// All on one line.
pub open spec fn unbroken(t: Seq<char>) -> bool {
    !t.contains('\n')
}

/// What the caller writes for a number.
pub open spec fn shown<T: Fn(Real, usize) -> String>(t: T, x: Real, places: usize) -> Seq<char> {
    (choose|r: String| call_ensures(t, (x, places), r))@
}

/// Append a number as the caller writes it.
pub fn append_fixed<T: Fn(Real, usize) -> String>(
    s: &mut String,
    x: Real,
    places: usize,
    fixed: &T,
)
    requires
        steady_text(*fixed),
    ensures
        final(s)@ == old(s)@ + shown(*fixed, x, places),
{
    let t = fixed(x, places);
    s.append(t.as_str());
}

/// The caller's way to write a number as short as it can be read back always
/// answers, and gives the same answer to the same question.
pub open spec fn steady_plain<P: Fn(Real) -> String>(p: P) -> bool {
    &&& forall|x: Real| #[trigger] call_requires(p, (x,))
    &&& forall|x: Real, r: String| #[trigger] call_ensures(p, (x,), r) ==> r@ == plainly(p, x)
}

/// What the caller writes for a number.
pub open spec fn plainly<P: Fn(Real) -> String>(p: P, x: Real) -> Seq<char> {
    (choose|r: String| call_ensures(p, (x,), r))@
}

// ---------------------------------------------------------------------------
// Names
// ---------------------------------------------------------------------------

/// Two counts as a size.
pub open spec fn size(w: u32, h: u32) -> Seq<char> {
    decimal(w as nat) + "×"@ + decimal(h as nat)
}

/// Append a size.
pub fn append_size(s: &mut String, w: u32, h: u32)
    ensures
        final(s)@ == old(s)@ + size(w, h),
{
    let ghost was = s@;
    s.append(number_text(w as u64).as_str());
    s.append("×");
    s.append(number_text(h as u64).as_str());
    assert(s@ =~= was + size(w, h));
}

/// `s` ends in `t`.
pub open spec fn ends(s: Seq<char>, t: Seq<char>) -> bool {
    t.len() <= s.len() && s.subrange(s.len() - t.len(), s.len() as int) == t
}

/// Whether a text ends in another.
pub fn ends_with(s: &str, t: &str) -> (r: bool)
    ensures
        r == ends(s@, t@),
{
    let n: usize = s.unicode_len();
    let m: usize = t.unicode_len();
    if m > n {
        return false;
    }
    let mut k: usize = 0;
    while k < m
        invariant
            n == s@.len(),
            m == t@.len(),
            k <= m <= n,
            forall|i: int| 0 <= i < k ==> s@[n - m + i] == #[trigger] t@[i],
        decreases m - k,
    {
        if s.get_char(n - m + k) != t.get_char(k) {
            assert(s@.subrange(n - m, n as int)[k as int] != t@[k as int]);
            return false;
        }
        k = k + 1;
    }
    assert(s@.subrange(n - m, n as int) =~= t@);
    true
}

/// A text without the endings `t` that it has, however many.
pub open spec fn trimmed(s: Seq<char>, t: Seq<char>) -> Seq<char>
    decreases s.len(),
{
    if t.len() > 0 && ends(s, t) {
        trimmed(s.take(s.len() - t.len()), t)
    } else {
        s
    }
}

/// Strip an ending, as often as it is there.
pub fn trim_end<'a>(s: &'a str, t: &str) -> (r: &'a str)
    requires
        t@.len() > 0,
    ensures
        r@ == trimmed(s@, t@),
{
    let m: usize = t.unicode_len();
    let mut r: &'a str = s;
    while ends_with(r, t)
        invariant
            m == t@.len(),
            m > 0,
            trimmed(r@, t@) == trimmed(s@, t@),
        decreases r@.len(),
    {
        let n: usize = r.unicode_len();
        let ghost was = r@;
        r = r.substring_char(0, n - m);
        assert(r@ =~= was.take(was.len() - t@.len()));
    }
    r
}

/// The last dot among the first `n` characters, or minus one.
pub open spec fn last_dot(s: Seq<char>, n: int) -> int
    decreases n,
{
    if n <= 0 {
        -1
    } else if s[n - 1] == '.' {
        n - 1
    } else {
        last_dot(s, n - 1)
    }
}

/// A file name without its extension.
pub open spec fn stem(s: Seq<char>) -> Seq<char> {
    let d = last_dot(s, s.len() as int);
    if d < 0 {
        s
    } else {
        s.take(d)
    }
}

/// A file name without its extension.
pub fn stem_of<'a>(s: &'a str) -> (r: &'a str)
    ensures
        r@ == stem(s@),
{
    let mut n: usize = s.unicode_len();
    while n > 0
        invariant
            n <= s@.len(),
            last_dot(s@, s@.len() as int) == last_dot(s@, n as int),
        decreases n,
    {
        if s.get_char(n - 1) == '.' {
            let r = s.substring_char(0, n - 1);
            assert(r@ =~= s@.take(n - 1));
            return r;
        }
        n = n - 1;
    }
    s
}

// ---------------------------------------------------------------------------
// Laws
// ---------------------------------------------------------------------------

/// Anything but a comma.
pub open spec fn no_comma() -> spec_fn(char) -> bool {
    |c: char| c != ','
}

proof fn lemma_split(q: nat, r: nat)
    requires
        q > 0,
        r < 1000,
    ensures
        decimal(1000 * q + r) == decimal(q) + three_digits(r),
{
    let n = 1000 * q + r;
    assert(n / 10 == 100 * q + r / 10 && n % 10 == r % 10);
    assert((n / 10) / 10 == 10 * q + r / 100 && (n / 10) % 10 == r / 10 % 10);
    assert((n / 10 / 10) / 10 == q && (n / 10 / 10) % 10 == r / 100);
    assert(decimal(n) == decimal(n / 10).push(digit(n % 10)));
    assert(decimal(n / 10) == decimal(n / 10 / 10).push(digit(n / 10 % 10)));
    assert(decimal(n / 10 / 10) == decimal(q).push(digit(r / 100)));
    assert(decimal(n) =~= decimal(q) + three_digits(r));
}

proof fn lemma_all_pass(s: Seq<char>)
    requires
        forall|i: int| 0 <= i < s.len() ==> #[trigger] s[i] != ',',
    ensures
        s.filter(no_comma()) == s,
    decreases s.len(),
{
    reveal(Seq::filter);
    if s.len() > 0 {
        lemma_all_pass(s.drop_last());
        assert(s =~= s.drop_last().push(s.last()));
    }
}

proof fn lemma_digits(n: nat)
    ensures
        forall|i: int| 0 <= i < decimal(n).len() ==> '0' <= #[trigger] decimal(n)[i] <= '9',
    decreases n,
{
    if n >= 10 {
        lemma_digits(n / 10);
        let t = decimal(n / 10);
        assert forall|i: int| 0 <= i < decimal(n).len() implies '0' <= #[trigger] decimal(n)[i]
            <= '9' by {
            if i < t.len() {
                assert(decimal(n)[i] == t[i]);
            }
        }
    }
}

/// Grouping adds commas and changes nothing else.
pub proof fn law_grouping_keeps_the_digits(n: nat)
    ensures
        grouped(n).filter(no_comma()) == decimal(n),
    decreases n,
{
    if n < 1000 {
        lemma_digits(n);
        lemma_all_pass(decimal(n));
    } else {
        let (q, r) = (n / 1000, n % 1000);
        law_grouping_keeps_the_digits(q);
        lemma_split(q, r);
        let head = grouped(q);
        let tail = three_digits(r);
        lemma_all_pass(tail);
        reveal_strlit(",");
        let comma = ","@;
        assert(comma =~= seq![',']);
        assert(comma.filter(no_comma()) =~= Seq::<char>::empty()) by {
            reveal(Seq::filter);
            assert(comma.drop_last() =~= Seq::<char>::empty());
            assert(Seq::<char>::empty().filter(no_comma()) =~= Seq::<char>::empty());
        }
        Seq::filter_distributes_over_add(head, comma, no_comma());
        Seq::filter_distributes_over_add(head + comma, tail, no_comma());
        assert(grouped(n).filter(no_comma()) =~= decimal(q) + tail);
    }
}

} // verus!
