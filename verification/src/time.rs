//! Event timestamps.
//!
//! An event's time is kept as the decimal text that appeared on (or will be
//! written to) the event line, together with a precomputed fixed-point
//! magnitude used for ordering. The accepted grammar is an optional sign,
//! one to eighteen integer digits, and optionally a dot followed by one to
//! eighteen fraction digits; values compare by their exact decimal value.

use crate::textutil::{
    all_digits, bytes_of, digits_val, find_byte, find_byte_from, lemma_digits_val_bound,
    lemma_find_byte_props, lemma_pow10_pos, parse_digits_u64, pow10,
};
use vstd::prelude::*;

verus! {

pub open spec fn time_sign(s: Seq<u8>) -> bool {
    s.len() > 0 && s[0] == 0x2d
}

/// The magnitude text after an optional leading sign.
pub open spec fn time_mag_text(s: Seq<u8>) -> Seq<u8> {
    if s.len() > 0 && (s[0] == 0x2d || s[0] == 0x2b) {
        s.drop_first()
    } else {
        s
    }
}

pub open spec fn valid_time_mag(u: Seq<u8>) -> bool {
    let d = find_byte(u, 0x2e, 0);
    if d == u.len() {
        all_digits(u) && 1 <= u.len() <= 18
    } else {
        let ip = u.subrange(0, d);
        let fp = u.subrange(d + 1, u.len() as int);
        all_digits(ip) && 1 <= ip.len() <= 18 && all_digits(fp) && 1 <= fp.len() <= 18
    }
}

/// Whether a byte run is an acceptable time: optional `-`/`+` sign, then
/// digits with at most one dot.
pub open spec fn valid_time(s: Seq<u8>) -> bool {
    valid_time_mag(time_mag_text(s))
}

/// Magnitude scaled by `10^18`.
pub open spec fn time_mag_scaled(u: Seq<u8>) -> nat {
    let d = find_byte(u, 0x2e, 0);
    if d == u.len() {
        digits_val(u) * pow10(18)
    } else {
        let ip = u.subrange(0, d);
        let fp = u.subrange(d + 1, u.len() as int);
        digits_val(ip) * pow10(18) + digits_val(fp) * pow10((18 - fp.len()) as nat)
    }
}

/// The exact decimal value of a time text, scaled by `10^18`.
pub open spec fn time_scaled_val(s: Seq<u8>) -> int {
    if time_sign(s) {
        -(time_mag_scaled(time_mag_text(s)) as int)
    } else {
        time_mag_scaled(time_mag_text(s)) as int
    }
}

proof fn lemma_pow10_concrete()
    ensures
        pow10(18) == 1000000000000000000,
{
    assert(pow10(0) == 1);
    assert(pow10(1) == 10);
    assert(pow10(2) == 100);
    assert(pow10(3) == 1000);
    assert(pow10(4) == 10000);
    assert(pow10(5) == 100000);
    assert(pow10(6) == 1000000);
    assert(pow10(7) == 10000000);
    assert(pow10(8) == 100000000);
    assert(pow10(9) == 1000000000);
    assert(pow10(10) == 10000000000);
    assert(pow10(11) == 100000000000);
    assert(pow10(12) == 1000000000000);
    assert(pow10(13) == 10000000000000);
    assert(pow10(14) == 100000000000000);
    assert(pow10(15) == 1000000000000000);
    assert(pow10(16) == 10000000000000000);
    assert(pow10(17) == 100000000000000000);
    assert(pow10(18) == 1000000000000000000);
}

proof fn lemma_pow10_mono(a: nat, b: nat)
    requires
        a <= b,
    ensures
        pow10(a) <= pow10(b),
    decreases b,
{
    if a < b {
        lemma_pow10_mono(a, (b - 1) as nat);
        lemma_pow10_pos((b - 1) as nat);
    }
}

proof fn lemma_pow10_add(a: nat, b: nat)
    ensures
        pow10(a + b) == pow10(a) * pow10(b),
    decreases a,
{
    if a == 0 {
        assert(pow10(0) == 1);
    } else {
        lemma_pow10_add((a - 1) as nat, b);
        assert(pow10(a + b) == 10 * pow10((a + b - 1) as nat));
        assert(10 * (pow10((a - 1) as nat) * pow10(b)) == (10 * pow10((a - 1) as nat)) * pow10(b))
            by (nonlinear_arith);
    }
}

/// Powers of ten as `u128`, for exponents up to eighteen.
fn pow10_u128(e: usize) -> (r: u128)
    requires
        e <= 18,
    ensures
        r as nat == pow10(e as nat),
    decreases e,
{
    if e == 0 {
        1
    } else {
        let p = pow10_u128(e - 1);
        proof {
            lemma_pow10_mono((e - 1) as nat, 17);
            lemma_pow10_concrete();
            assert(pow10(17) * 10 == pow10(18));
            assert(p as nat * 10 <= pow10(17) * 10) by (nonlinear_arith)
                requires
                    p as nat <= pow10(17),
            ;
        }
        10 * p
    }
}

/// A timestamp: the original decimal text plus its scaled magnitude.
#[derive(Debug)]
pub struct Time {
    text: Vec<u8>,
    neg: bool,
    mag: u128,
}

impl View for Time {
    type V = Seq<u8>;

    closed spec fn view(&self) -> Seq<u8> {
        self.text@
    }
}

impl Time {
    /// The scaled decimal value used for all ordering decisions.
    pub open spec fn value(self) -> int {
        time_scaled_val(self@)
    }

    #[verifier::type_invariant]
    closed spec fn inv(self) -> bool {
        &&& valid_time(self.text@)
        &&& self.neg == time_sign(self.text@)
        &&& self.mag as nat == time_mag_scaled(time_mag_text(self.text@))
    }

    /// Parse a time text; succeeds exactly on the accepted grammar.
    pub fn parse(s: &[u8]) -> (r: Option<Time>)
        ensures
            r is Some <==> valid_time(s@),
            r matches Some(t) ==> t@ == s@,
    {
        let n: usize = s.len();
        let signed = n > 0 && (s[0] == 0x2d || s[0] == 0x2b);
        let start: usize = if signed {
            1
        } else {
            0
        };
        let neg = n > 0 && s[0] == 0x2d;
        let u = vstd::slice::slice_subrange(s, start, n);
        proof {
            if signed {
                assert(u@ =~= time_mag_text(s@));
            } else {
                assert(u@ =~= time_mag_text(s@));
            }
        }
        let ulen: usize = u.len();
        proof {
            lemma_find_byte_props(u@, 0x2e, 0);
        }
        let d = find_byte_from(u, 0x2e, 0);
        if d == ulen {
            if ulen < 1 || ulen > 18 {
                return None;
            }
            proof {
                lemma_pow10_concrete();
                if all_digits(u@) {
                    lemma_digits_val_bound(u@);
                    lemma_pow10_mono(u@.len() as nat, 18);
                }
            }
            match parse_digits_u64(u) {
                Some(v) => {
                    let p18 = pow10_u128(18);
                    proof {
                        assert((v as nat) * (p18 as nat) < pow10(18) * pow10(18))
                            by (nonlinear_arith)
                            requires
                                (v as nat) < pow10(18),
                                p18 as nat == pow10(18),
                        ;
                        assert(pow10(36) < u128::MAX) by {
                            lemma_pow10_add(18, 18);
                            assert(pow10(18) * pow10(18) == 1000000000000000000
                                * 1000000000000000000) by (nonlinear_arith)
                                requires
                                    pow10(18) == 1000000000000000000,
                            ;
                        }
                        lemma_pow10_add(18, 18);
                    }
                    let mag: u128 = (v as u128) * p18;
                    Some(Time { text: bytes_of(s), neg, mag })
                },
                None => None,
            }
        } else {
            let ip = vstd::slice::slice_subrange(u, 0, d);
            let fp = vstd::slice::slice_subrange(u, d + 1, ulen);
            let iplen: usize = ip.len();
            let fplen: usize = fp.len();
            if iplen < 1 || iplen > 18 || fplen < 1 || fplen > 18 {
                return None;
            }
            proof {
                lemma_pow10_concrete();
                if all_digits(ip@) {
                    lemma_digits_val_bound(ip@);
                    lemma_pow10_mono(ip@.len() as nat, 18);
                }
                if all_digits(fp@) {
                    lemma_digits_val_bound(fp@);
                    lemma_pow10_mono(fp@.len() as nat, 18);
                }
            }
            let iv = match parse_digits_u64(ip) {
                Some(v) => v,
                None => {
                    return None;
                },
            };
            let fv = match parse_digits_u64(fp) {
                Some(v) => v,
                None => {
                    return None;
                },
            };
            let p18 = pow10_u128(18);
            let pf = pow10_u128(18 - fplen);
            proof {
                assert((iv as nat) * (p18 as nat) < pow10(18) * pow10(18)) by (nonlinear_arith)
                    requires
                        (iv as nat) < pow10(18),
                        p18 as nat == pow10(18),
                ;
                lemma_pow10_add(18, 18);
                assert(pow10(18) * pow10(18) == 1000000000000000000 * 1000000000000000000)
                    by (nonlinear_arith)
                    requires
                        pow10(18) == 1000000000000000000,
                ;
                lemma_pow10_pos((18 - fp@.len()) as nat);
                assert((fv as nat) * (pf as nat) < pow10(fp@.len() as nat) * pow10(
                    (18 - fp@.len()) as nat,
                )) by (nonlinear_arith)
                    requires
                        (fv as nat) < pow10(fp@.len() as nat),
                        pf as nat == pow10((18 - fp@.len()) as nat),
                        pf as nat >= 1,
                ;
                lemma_pow10_add(fp@.len() as nat, (18 - fp@.len()) as nat);
            }
            let mag: u128 = (iv as u128) * p18 + (fv as u128) * pf;
            Some(Time { text: bytes_of(s), neg, mag })
        }
    }

    /// Strict order by decimal value.
    pub fn lt(&self, other: &Time) -> (r: bool)
        ensures
            r == (self.value() < other.value()),
    {
        proof {
            use_type_invariant(self);
            use_type_invariant(other);
        }
        if self.neg {
            if other.neg {
                other.mag < self.mag
            } else {
                self.mag > 0 || other.mag > 0
            }
        } else {
            if other.neg {
                false
            } else {
                self.mag < other.mag
            }
        }
    }

    /// Equality of decimal values (`1.50` equals `1.5`).
    pub fn eq_value(&self, other: &Time) -> (r: bool)
        ensures
            r == (self.value() == other.value()),
    {
        proof {
            use_type_invariant(self);
            use_type_invariant(other);
        }
        if self.neg == other.neg {
            self.mag == other.mag
        } else {
            self.mag == 0 && other.mag == 0
        }
    }

    /// The time's original text.
    pub fn as_bytes(&self) -> (r: &[u8])
        ensures
            r@ == self@,
    {
        self.text.as_slice()
    }

    /// An owned copy with the same text.
    pub fn duplicate(&self) -> (r: Time)
        ensures
            r@ == self@,
    {
        proof {
            use_type_invariant(self);
        }
        Time { text: bytes_of(self.text.as_slice()), neg: self.neg, mag: self.mag }
    }
}

} // verus!
