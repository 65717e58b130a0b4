//! Byte-level text helpers shared by the codecs: whitespace and quote
//! trimming, decimal digit runs, and hex digits.

use vstd::prelude::*;

verus! {

/// The ASCII bytes that `char::is_whitespace` accepts.
pub open spec fn is_ws_byte(b: u8) -> bool {
    b == 0x20 || b == 0x09 || b == 0x0a || b == 0x0b || b == 0x0c || b == 0x0d
}

pub open spec fn is_digit_byte(b: u8) -> bool {
    0x30 <= b && b <= 0x39
}

pub open spec fn digit_val(b: u8) -> nat
    recommends
        is_digit_byte(b),
{
    (b - 0x30) as nat
}

pub open spec fn all_digits(s: Seq<u8>) -> bool {
    forall|i: int| 0 <= i < s.len() ==> is_digit_byte(#[trigger] s[i])
}

/// Numeric value of a run of decimal digit bytes.
pub open spec fn digits_val(s: Seq<u8>) -> nat
    decreases s.len(),
{
    if s.len() == 0 {
        0
    } else {
        digits_val(s.drop_last()) * 10 + digit_val(s.last())
    }
}

pub open spec fn pow10(n: nat) -> nat
    decreases n,
{
    if n == 0 {
        1
    } else {
        10 * pow10((n - 1) as nat)
    }
}

/// The canonical decimal digit run for a natural number (no leading zeros,
/// except that zero itself prints as "0").
pub open spec fn dec_digits(n: nat) -> Seq<u8>
    decreases n,
{
    if n < 10 {
        seq![(0x30 + n) as u8]
    } else {
        dec_digits(n / 10).push((0x30 + (n % 10)) as u8)
    }
}

pub open spec fn skip_ws_front(s: Seq<u8>) -> Seq<u8>
    decreases s.len(),
{
    if s.len() > 0 && is_ws_byte(s[0]) {
        skip_ws_front(s.drop_first())
    } else {
        s
    }
}

pub open spec fn skip_ws_back(s: Seq<u8>) -> Seq<u8>
    decreases s.len(),
{
    if s.len() > 0 && is_ws_byte(s.last()) {
        skip_ws_back(s.drop_last())
    } else {
        s
    }
}

/// What `str::trim` leaves of an ASCII line.
pub open spec fn trim_ws(s: Seq<u8>) -> Seq<u8> {
    skip_ws_back(skip_ws_front(s))
}

pub open spec fn skip_quotes_front(s: Seq<u8>) -> Seq<u8>
    decreases s.len(),
{
    if s.len() > 0 && s[0] == 0x22 {
        skip_quotes_front(s.drop_first())
    } else {
        s
    }
}

pub open spec fn skip_quotes_back(s: Seq<u8>) -> Seq<u8>
    decreases s.len(),
{
    if s.len() > 0 && s.last() == 0x22 {
        skip_quotes_back(s.drop_last())
    } else {
        s
    }
}

/// What `str::trim_matches('"')` leaves of a part.
pub open spec fn strip_quotes(s: Seq<u8>) -> Seq<u8> {
    skip_quotes_back(skip_quotes_front(s))
}

pub fn byte_is_ws(b: u8) -> (r: bool)
    ensures
        r == is_ws_byte(b),
{
    b == 0x20 || b == 0x09 || b == 0x0a || b == 0x0b || b == 0x0c || b == 0x0d
}

pub fn byte_is_digit(b: u8) -> (r: bool)
    ensures
        r == is_digit_byte(b),
{
    0x30 <= b && b <= 0x39
}

proof fn lemma_skip_ws_front_split(s: Seq<u8>, i: int)
    requires
        0 <= i <= s.len(),
        forall|k: int| 0 <= k < i ==> is_ws_byte(#[trigger] s[k]),
        i == s.len() || !is_ws_byte(s[i]),
    ensures
        skip_ws_front(s) == s.subrange(i, s.len() as int),
    decreases i,
{
    if i == 0 {
        assert(skip_ws_front(s) =~= s.subrange(0, s.len() as int));
    } else {
        let t = s.drop_first();
        assert(forall|k: int| 0 <= k < i - 1 ==> is_ws_byte(#[trigger] t[k]));
        lemma_skip_ws_front_split(t, i - 1);
        assert(t.subrange(i - 1, t.len() as int) =~= s.subrange(i, s.len() as int));
    }
}

proof fn lemma_skip_ws_back_split(s: Seq<u8>, j: int)
    requires
        0 <= j <= s.len(),
        forall|k: int| j <= k < s.len() ==> is_ws_byte(#[trigger] s[k]),
        j == 0 || !is_ws_byte(s[j - 1]),
    ensures
        skip_ws_back(s) == s.subrange(0, j),
    decreases s.len() - j,
{
    if j == s.len() {
        assert(skip_ws_back(s) =~= s.subrange(0, j));
    } else {
        let t = s.drop_last();
        lemma_skip_ws_back_split(t, j);
        assert(t.subrange(0, j) =~= s.subrange(0, j));
    }
}

proof fn lemma_skip_quotes_front_split(s: Seq<u8>, i: int)
    requires
        0 <= i <= s.len(),
        forall|k: int| 0 <= k < i ==> #[trigger] s[k] == 0x22,
        i == s.len() || s[i] != 0x22,
    ensures
        skip_quotes_front(s) == s.subrange(i, s.len() as int),
    decreases i,
{
    if i == 0 {
        assert(skip_quotes_front(s) =~= s.subrange(0, s.len() as int));
    } else {
        let t = s.drop_first();
        assert(forall|k: int| 0 <= k < i - 1 ==> #[trigger] t[k] == 0x22);
        lemma_skip_quotes_front_split(t, i - 1);
        assert(t.subrange(i - 1, t.len() as int) =~= s.subrange(i, s.len() as int));
    }
}

proof fn lemma_skip_quotes_back_split(s: Seq<u8>, j: int)
    requires
        0 <= j <= s.len(),
        forall|k: int| j <= k < s.len() ==> #[trigger] s[k] == 0x22,
        j == 0 || s[j - 1] != 0x22,
    ensures
        skip_quotes_back(s) == s.subrange(0, j),
    decreases s.len() - j,
{
    if j == s.len() {
        assert(skip_quotes_back(s) =~= s.subrange(0, j));
    } else {
        let t = s.drop_last();
        lemma_skip_quotes_back_split(t, j);
        assert(t.subrange(0, j) =~= s.subrange(0, j));
    }
}

/// A sequence with no leading or trailing whitespace byte trims to itself.
pub proof fn lemma_trim_ws_clean(s: Seq<u8>)
    requires
        s.len() > 0 ==> !is_ws_byte(s[0]) && !is_ws_byte(s.last()),
    ensures
        trim_ws(s) == s,
{
    lemma_skip_ws_front_split(s, 0);
    assert(s.subrange(0, s.len() as int) =~= s);
    lemma_skip_ws_back_split(s, s.len() as int);
}

/// A single leading space is all that whitespace trimming removes from a
/// sequence whose own edges are not whitespace.
pub proof fn lemma_trim_ws_space_prefix(s: Seq<u8>)
    requires
        s.len() > 0 ==> !is_ws_byte(s[0]) && !is_ws_byte(s.last()),
    ensures
        trim_ws(seq![0x20u8] + s) == s,
{
    let t = seq![0x20u8] + s;
    assert(t[0] == 0x20);
    if s.len() == 0 {
        lemma_skip_ws_front_split(t, 1);
        assert(t.subrange(1, 1) =~= s);
        lemma_skip_ws_back_split(s, 0);
        assert(s.subrange(0, 0) =~= s);
    } else {
        assert(t[1] == s[0]);
        lemma_skip_ws_front_split(t, 1);
        assert(t.subrange(1, t.len() as int) =~= s);
        lemma_skip_ws_back_split(s, s.len() as int);
        assert(s.subrange(0, s.len() as int) =~= s);
    }
}

/// A sequence with no quote byte at either edge strips to itself.
pub proof fn lemma_strip_quotes_clean(s: Seq<u8>)
    requires
        s.len() > 0 ==> s[0] != 0x22 && s.last() != 0x22,
    ensures
        strip_quotes(s) == s,
{
    lemma_skip_quotes_front_split(s, 0);
    assert(s.subrange(0, s.len() as int) =~= s);
    lemma_skip_quotes_back_split(s, s.len() as int);
}

/// Remove leading and trailing ASCII whitespace, as `str::trim` does.
pub fn trim_slice<'a>(s: &'a [u8]) -> (r: &'a [u8])
    ensures
        r@ == trim_ws(s@),
{
    let n: usize = s.len();
    let mut i: usize = 0;
    while i < n && byte_is_ws(s[i])
        invariant
            0 <= i <= n,
            n == s@.len(),
            forall|k: int| 0 <= k < i ==> is_ws_byte(#[trigger] s@[k]),
        decreases n - i,
    {
        i += 1;
    }
    let mut j: usize = n;
    while j > i && byte_is_ws(s[j - 1])
        invariant
            i <= j <= n,
            n == s@.len(),
            forall|k: int| j <= k < n ==> is_ws_byte(#[trigger] s@[k]),
        decreases j,
    {
        j -= 1;
    }
    proof {
        lemma_skip_ws_front_split(s@, i as int);
        let f = s@.subrange(i as int, n as int);
        if j == i {
            lemma_skip_ws_back_split(f, 0);
            assert(f.subrange(0, 0) =~= s@.subrange(i as int, j as int));
        } else {
            assert(forall|k: int| j - i <= k < f.len() ==> is_ws_byte(#[trigger] f[k]));
            assert(f[j - i - 1] == s@[j - 1]);
            lemma_skip_ws_back_split(f, j - i);
            assert(f.subrange(0, j - i) =~= s@.subrange(i as int, j as int));
        }
    }
    vstd::slice::slice_subrange(s, i, j)
}

/// Remove leading and trailing quote bytes, as `str::trim_matches('"')` does.
pub fn strip_quotes_slice<'a>(s: &'a [u8]) -> (r: &'a [u8])
    ensures
        r@ == strip_quotes(s@),
{
    let n: usize = s.len();
    let mut i: usize = 0;
    while i < n && s[i] == 0x22
        invariant
            0 <= i <= n,
            n == s@.len(),
            forall|k: int| 0 <= k < i ==> #[trigger] s@[k] == 0x22,
        decreases n - i,
    {
        i += 1;
    }
    let mut j: usize = n;
    while j > i && s[j - 1] == 0x22
        invariant
            i <= j <= n,
            n == s@.len(),
            forall|k: int| j <= k < n ==> #[trigger] s@[k] == 0x22,
        decreases j,
    {
        j -= 1;
    }
    proof {
        lemma_skip_quotes_front_split(s@, i as int);
        let f = s@.subrange(i as int, n as int);
        if j == i {
            lemma_skip_quotes_back_split(f, 0);
            assert(f.subrange(0, 0) =~= s@.subrange(i as int, j as int));
        } else {
            assert(forall|k: int| j - i <= k < f.len() ==> #[trigger] f[k] == 0x22);
            assert(f[j - i - 1] == s@[j - 1]);
            lemma_skip_quotes_back_split(f, j - i);
            assert(f.subrange(0, j - i) =~= s@.subrange(i as int, j as int));
        }
    }
    vstd::slice::slice_subrange(s, i, j)
}

/// Splitting a digit run at `j` relates the two halves' values.
pub proof fn lemma_digits_split(s: Seq<u8>, j: int)
    requires
        0 <= j <= s.len(),
    ensures
        digits_val(s) == digits_val(s.subrange(0, j)) * pow10((s.len() - j) as nat) + digits_val(
            s.subrange(j, s.len() as int),
        ),
    decreases s.len() - j,
{
    if j == s.len() {
        assert(s.subrange(0, j) =~= s);
        assert(s.subrange(j, s.len() as int) =~= Seq::<u8>::empty());
        assert(digits_val(s.subrange(j, s.len() as int)) == 0);
        assert(pow10((s.len() - j) as nat) == 1);
        assert(digits_val(s) * 1 == digits_val(s)) by (nonlinear_arith);
    } else {
        let d = s.drop_last();
        lemma_digits_split(d, j);
        assert(d.subrange(0, j) =~= s.subrange(0, j));
        let tail_s = s.subrange(j, s.len() as int);
        let tail_d = d.subrange(j, d.len() as int);
        assert(tail_d =~= tail_s.drop_last());
        assert(tail_s.last() == s.last());
        assert(digits_val(tail_s) == digits_val(tail_d) * 10 + digit_val(s.last()));
        let a = digits_val(s.subrange(0, j));
        let pd = pow10((d.len() - j) as nat);
        let last_v = digit_val(s.last());
        assert(pow10((s.len() - j) as nat) == 10 * pd);
        assert(digits_val(d) == a * pd + digits_val(tail_d));
        assert(digits_val(s) == digits_val(d) * 10 + last_v);
        assert((a * pd + digits_val(tail_d)) * 10 + last_v == a * (10 * pd) + (digits_val(tail_d)
            * 10 + last_v)) by (nonlinear_arith);
        assert(digits_val(s) == a * pow10((s.len() - j) as nat) + digits_val(tail_s));
    }
}

/// A digit run's value is below ten to its length.
pub proof fn lemma_digits_val_bound(s: Seq<u8>)
    requires
        all_digits(s),
    ensures
        digits_val(s) < pow10(s.len() as nat),
    decreases s.len(),
{
    if s.len() > 0 {
        let d = s.drop_last();
        assert(all_digits(d));
        lemma_digits_val_bound(d);
        assert(digit_val(s.last()) <= 9);
        assert(digits_val(d) * 10 + 9 < pow10((s.len() - 1) as nat) * 10) by (nonlinear_arith)
            requires
                digits_val(d) < pow10((s.len() - 1) as nat),
        ;
        assert(pow10(s.len() as nat) == 10 * pow10((s.len() - 1) as nat));
    }
}

/// Appending digits never lowers the value.
proof fn lemma_digits_prefix_le(s: Seq<u8>, j: int)
    requires
        0 <= j <= s.len(),
    ensures
        digits_val(s.subrange(0, j)) <= digits_val(s),
{
    lemma_digits_split(s, j);
    let a = digits_val(s.subrange(0, j));
    let p = pow10((s.len() - j) as nat);
    lemma_pow10_pos((s.len() - j) as nat);
    assert(a * p >= a * 1) by (nonlinear_arith)
        requires
            p >= 1,
            a >= 0,
    ;
}

pub proof fn lemma_pow10_pos(n: nat)
    ensures
        pow10(n) >= 1,
    decreases n,
{
    if n > 0 {
        lemma_pow10_pos((n - 1) as nat);
    }
}

/// Parse a run of decimal digits as a `u64`.
///
/// Returns the value exactly when the input is a nonempty all-digit run whose
/// value fits in a `u64`.
pub fn parse_digits_u64(s: &[u8]) -> (r: Option<u64>)
    ensures
        match r {
            Some(v) => all_digits(s@) && s@.len() > 0 && v as nat == digits_val(s@),
            None => !(all_digits(s@) && s@.len() > 0) || digits_val(s@) > u64::MAX,
        },
{
    let n: usize = s.len();
    if n == 0 {
        return None;
    }
    let mut val: u64 = 0;
    let mut i: usize = 0;
    while i < n
        invariant
            0 <= i <= n,
            n == s@.len(),
            all_digits(s@.subrange(0, i as int)),
            val as nat == digits_val(s@.subrange(0, i as int)),
        decreases n - i,
    {
        let b = s[i];
        if !byte_is_digit(b) {
            assert(!all_digits(s@)) by {
                assert(s@[i as int] == b);
            }
            return None;
        }
        let d: u64 = (b - 0x30) as u64;
        let next = match val.checked_mul(10) {
            Some(m) => m.checked_add(d),
            None => None,
        };
        proof {
            assert(s@.subrange(0, i + 1).drop_last() =~= s@.subrange(0, i as int));
            assert(s@.subrange(0, i + 1).last() == b);
        }
        match next {
            Some(v2) => {
                val = v2;
                assert(val as nat == digits_val(s@.subrange(0, i + 1)));
            },
            None => {
                assert(digits_val(s@.subrange(0, i + 1)) > u64::MAX) by {
                    assert(digits_val(s@.subrange(0, i as int)) * 10 + digit_val(b) > u64::MAX);
                }
                proof {
                    lemma_digits_prefix_le(s@, i + 1);
                }
                return None;
            },
        }
        i += 1;
    }
    assert(s@.subrange(0, n as int) =~= s@);
    Some(val)
}

/// The canonical digit run of `n` evaluates back to `n` and contains only
/// digits.
pub proof fn lemma_dec_digits_val(n: nat)
    ensures
        digits_val(dec_digits(n)) == n,
        all_digits(dec_digits(n)),
        dec_digits(n).len() >= 1,
    decreases n,
{
    if n < 10 {
        let s = dec_digits(n);
        assert(s.drop_last() =~= Seq::<u8>::empty());
        assert(digits_val(Seq::<u8>::empty()) == 0);
        assert(digits_val(s) == digit_val(s.last()));
    } else {
        lemma_dec_digits_val(n / 10);
        let s = dec_digits(n);
        assert(s.drop_last() =~= dec_digits(n / 10));
        assert(digits_val(s) == (n / 10) * 10 + n % 10);
        assert((n / 10) * 10 + n % 10 == n) by (nonlinear_arith)
            requires
                n >= 0,
        ;
    }
}

/// Print `n` as decimal digits.
pub fn u64_to_dec(n: u64) -> (r: Vec<u8>)
    ensures
        r@ == dec_digits(n as nat),
    decreases n,
{
    if n < 10 {
        let mut v: Vec<u8> = Vec::new();
        v.push(0x30 + (n as u8));
        assert(v@ =~= dec_digits(n as nat));
        v
    } else {
        let mut v = u64_to_dec(n / 10);
        v.push(0x30 + ((n % 10) as u8));
        assert(v@ =~= dec_digits(n as nat));
        v
    }
}

pub open spec fn is_hex_byte(b: u8) -> bool {
    is_digit_byte(b) || (0x61 <= b && b <= 0x66) || (0x41 <= b && b <= 0x46)
}

pub open spec fn hex_val(b: u8) -> nat
    recommends
        is_hex_byte(b),
{
    if is_digit_byte(b) {
        (b - 0x30) as nat
    } else if 0x61 <= b && b <= 0x66 {
        (b - 0x61 + 10) as nat
    } else {
        (b - 0x41 + 10) as nat
    }
}

/// The lowercase hex digit for a value below sixteen.
pub open spec fn hex_digit_lower(v: nat) -> u8
    recommends
        v < 16,
{
    if v < 10 {
        (0x30 + v) as u8
    } else {
        (0x61 + (v - 10)) as u8
    }
}

pub fn byte_is_hex(b: u8) -> (r: bool)
    ensures
        r == is_hex_byte(b),
{
    (0x30 <= b && b <= 0x39) || (0x61 <= b && b <= 0x66) || (0x41 <= b && b <= 0x46)
}

pub fn byte_hex_val(b: u8) -> (r: u8)
    requires
        is_hex_byte(b),
    ensures
        r as nat == hex_val(b),
        r < 16,
{
    if 0x30 <= b && b <= 0x39 {
        b - 0x30
    } else if 0x61 <= b && b <= 0x66 {
        b - 0x61 + 10
    } else {
        b - 0x41 + 10
    }
}

pub fn hex_lower_digit(v: u8) -> (r: u8)
    requires
        v < 16,
    ensures
        r == hex_digit_lower(v as nat),
{
    if v < 10 {
        0x30 + v
    } else {
        0x61 + (v - 10)
    }
}

/// Index of the first occurrence of `b` at or after `i`, or the length if
/// there is none.
pub open spec fn find_byte(s: Seq<u8>, b: u8, i: int) -> int
    decreases s.len() - i,
{
    if i >= s.len() {
        s.len() as int
    } else if s[i] == b {
        i
    } else {
        find_byte(s, b, i + 1)
    }
}

pub proof fn lemma_find_byte_at(s: Seq<u8>, b: u8, start: int, i: int)
    requires
        0 <= start <= i <= s.len(),
        forall|k: int| start <= k < i ==> s[k] != b,
        i == s.len() || s[i] == b,
    ensures
        find_byte(s, b, start) == i,
    decreases i - start,
{
    if start < i {
        lemma_find_byte_at(s, b, start + 1, i);
    }
}

pub proof fn lemma_find_byte_props(s: Seq<u8>, b: u8, start: int)
    requires
        0 <= start <= s.len(),
    ensures
        start <= find_byte(s, b, start) <= s.len(),
        forall|k: int| start <= k < find_byte(s, b, start) ==> s[k] != b,
        find_byte(s, b, start) < s.len() ==> s[find_byte(s, b, start)] == b,
    decreases s.len() - start,
{
    if start < s.len() && s[start] != b {
        lemma_find_byte_props(s, b, start + 1);
    }
}

/// Searching within a suffix finds the shifted first occurrence.
pub proof fn lemma_find_byte_shift_generic(s: Seq<u8>, b: u8, start: int)
    requires
        0 <= start <= s.len(),
    ensures
        find_byte(s.subrange(start, s.len() as int), b, 0) == find_byte(s, b, start) - start,
{
    let sub = s.subrange(start, s.len() as int);
    lemma_find_byte_props(s, b, start);
    let k = find_byte(s, b, start);
    assert forall|j: int| 0 <= j < k - start implies sub[j] != b by {
        assert(sub[j] == s[start + j]);
    }
    if k < s.len() {
        assert(sub[k - start] == s[k]);
        lemma_find_byte_at(sub, b, 0, k - start);
    } else {
        lemma_find_byte_at(sub, b, 0, sub.len() as int);
    }
}

pub fn find_byte_from(s: &[u8], b: u8, start: usize) -> (r: usize)
    requires
        start <= s@.len(),
    ensures
        r == find_byte(s@, b, start as int),
        start <= r <= s@.len(),
{
    let n: usize = s.len();
    let mut i: usize = start;
    while i < n && s[i] != b
        invariant
            start <= i <= n,
            n == s@.len(),
            forall|k: int| start <= k < i ==> s@[k] != b,
        decreases n - i,
    {
        i += 1;
    }
    proof {
        lemma_find_byte_at(s@, b, start as int, i as int);
    }
    i
}

/// Whether two byte runs hold the same bytes.
pub fn eq_bytes(a: &[u8], b: &[u8]) -> (r: bool)
    ensures
        r == (a@ == b@),
{
    let n: usize = a.len();
    if n != b.len() {
        return false;
    }
    let mut i: usize = 0;
    while i < n
        invariant
            0 <= i <= n,
            n == a@.len(),
            n == b@.len(),
            forall|k: int| 0 <= k < i ==> a@[k] == b@[k],
        decreases n - i,
    {
        if a[i] != b[i] {
            return false;
        }
        i += 1;
    }
    proof {
        assert(a@ =~= b@);
    }
    true
}

/// Copy a byte slice into an owned vector.
pub fn bytes_of(s: &[u8]) -> (r: Vec<u8>)
    ensures
        r@ == s@,
{
    let mut v: Vec<u8> = Vec::new();
    let n: usize = s.len();
    let mut i: usize = 0;
    while i < n
        invariant
            0 <= i <= n,
            n == s@.len(),
            v@ == s@.subrange(0, i as int),
        decreases n - i,
    {
        v.push(s[i]);
        assert(v@ =~= s@.subrange(0, i + 1));
        i += 1;
    }
    assert(s@.subrange(0, n as int) =~= s@);
    v
}

} // verus!
