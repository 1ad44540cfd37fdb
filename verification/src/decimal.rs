use vstd::prelude::*;

use crate::error::DecodeError;
use crate::text::{chars_of, digit_char, digit_val, is_digit};
use crate::value::{digit_prefix_len, lemma_digit_prefix, lemma_digit_prefix_eq};

verus! {

/// Mathematical image of a [`Decimal`].
pub ghost struct DecModel {
    pub negative: bool,
    pub int_digits: Seq<u8>,
    pub frac_digits: Seq<u8>,
}

/// An exact decimal number, as transmitted in the wire's numeric strings:
/// a sign, the digits before the point, the digits after it.
///
/// Values are kept normalized, so two texts that name the same number
/// (trailing zeros in the fraction, leading zeros, a negative zero) decode
/// to equal records.
#[derive(Clone, Debug, PartialEq, Eq)]
pub struct Decimal {
    pub negative: bool,
    pub int_digits: Vec<u8>,
    pub frac_digits: Vec<u8>,
}

impl View for Decimal {
    type V = DecModel;

    open spec fn view(&self) -> DecModel {
        DecModel {
            negative: self.negative,
            int_digits: self.int_digits@,
            frac_digits: self.frac_digits@,
        }
    }
}

/// Normal form: digits below ten, at least one integer digit, no leading
/// zero before the point (a lone `0` aside), no trailing zero after it,
/// and zero itself never negative.
pub open spec fn dec_wf(m: DecModel) -> bool {
    &&& forall|k: int| 0 <= k < m.int_digits.len() ==> m.int_digits[k] < 10
    &&& forall|k: int| 0 <= k < m.frac_digits.len() ==> m.frac_digits[k] < 10
    &&& m.int_digits.len() >= 1
    &&& (m.int_digits.len() > 1 ==> m.int_digits[0] != 0)
    &&& (m.frac_digits.len() > 0 ==> m.frac_digits.last() != 0)
    &&& ((m.int_digits == seq![0u8] && m.frac_digits.len() == 0) ==> !m.negative)
}

pub open spec fn strip_leading(ds: Seq<u8>) -> Seq<u8>
    decreases ds.len(),
{
    if ds.len() > 1 && ds[0] == 0 {
        strip_leading(ds.drop_first())
    } else {
        ds
    }
}

pub open spec fn strip_trailing(ds: Seq<u8>) -> Seq<u8>
    decreases ds.len(),
{
    if ds.len() > 0 && ds.last() == 0 {
        strip_trailing(ds.drop_last())
    } else {
        ds
    }
}

/// The normalized value with the given sign and raw digit runs.
pub open spec fn norm_dec(neg: bool, ints: Seq<u8>, fracs: Seq<u8>) -> DecModel {
    let i1 = if ints.len() == 0 {
        seq![0u8]
    } else {
        ints
    };
    let i2 = strip_leading(i1);
    let f2 = strip_trailing(fracs);
    let zero = i2 == seq![0u8] && f2.len() == 0;
    DecModel { negative: neg && !zero, int_digits: i2, frac_digits: f2 }
}

pub open spec fn digits_of(s: Seq<char>) -> Seq<u8> {
    Seq::new(s.len(), |k: int| digit_val(s[k]) as u8)
}

/// What parsing a decimal text yields: an optional sign, a run of digits,
/// at most one point, at least one digit in all. Anything else — an empty
/// text, letters, an exponent, a second point — is rejected.
pub open spec fn sp_decimal(s: Seq<char>) -> Option<DecModel> {
    let neg = s.len() > 0 && s[0] == '-';
    let t = if s.len() > 0 && (s[0] == '-' || s[0] == '+') {
        s.drop_first()
    } else {
        s
    };
    let k = digit_prefix_len(t);
    if t.len() == 0 {
        Option::None
    } else if k == t.len() {
        Option::Some(norm_dec(neg, digits_of(t), Seq::empty()))
    } else if t[k] == '.' {
        let fr = t.skip(k + 1);
        if digit_prefix_len(fr) == fr.len() && (k > 0 || fr.len() > 0) {
            Option::Some(norm_dec(neg, digits_of(t.take(k)), digits_of(fr)))
        } else {
            Option::None
        }
    } else {
        Option::None
    }
}

// ---- normalization lemmas --------------------------------------------------

proof fn lemma_strip_leading_props(ds: Seq<u8>)
    requires
        ds.len() >= 1,
        forall|k: int| 0 <= k < ds.len() ==> ds[k] < 10,
    ensures
        strip_leading(ds).len() >= 1,
        strip_leading(ds).len() > 1 ==> strip_leading(ds)[0] != 0,
        forall|k: int| 0 <= k < strip_leading(ds).len() ==> strip_leading(ds)[k] < 10,
    decreases ds.len(),
{
    if ds.len() > 1 && ds[0] == 0 {
        assert(forall|k: int| 0 <= k < ds.drop_first().len() ==> ds.drop_first()[k] == ds[k + 1]);
        lemma_strip_leading_props(ds.drop_first());
    }
}

proof fn lemma_strip_trailing_props(ds: Seq<u8>)
    requires
        forall|k: int| 0 <= k < ds.len() ==> ds[k] < 10,
    ensures
        strip_trailing(ds).len() > 0 ==> strip_trailing(ds).last() != 0,
        forall|k: int| 0 <= k < strip_trailing(ds).len() ==> strip_trailing(ds)[k] < 10,
    decreases ds.len(),
{
    if ds.len() > 0 && ds.last() == 0 {
        assert(forall|k: int| 0 <= k < ds.drop_last().len() ==> ds.drop_last()[k] == ds[k]);
        lemma_strip_trailing_props(ds.drop_last());
    }
}

/// A parsed decimal is in normal form.
pub proof fn lemma_sp_decimal_wf(s: Seq<char>)
    ensures
        sp_decimal(s) matches Option::Some(m) ==> dec_wf(m),
{
    let t = if s.len() > 0 && (s[0] == '-' || s[0] == '+') {
        s.drop_first()
    } else {
        s
    };
    lemma_digit_prefix(t);
    let k = digit_prefix_len(t);
    if t.len() > 0 && k == t.len() {
        lemma_norm_wf(s.len() > 0 && s[0] == '-', digits_of(t), Seq::empty());
    } else if t.len() > 0 && k < t.len() && t[k] == '.' {
        let fr = t.skip(k + 1);
        lemma_digit_prefix(fr);
        if digit_prefix_len(fr) == fr.len() && (k > 0 || fr.len() > 0) {
            assert(forall|j: int| 0 <= j < k ==> is_digit(#[trigger] t.take(k)[j]));
            lemma_norm_wf(s.len() > 0 && s[0] == '-', digits_of(t.take(k)), digits_of(fr));
        }
    }
}

proof fn lemma_norm_wf(neg: bool, ints: Seq<u8>, fracs: Seq<u8>)
    requires
        forall|k: int| 0 <= k < ints.len() ==> ints[k] < 10,
        forall|k: int| 0 <= k < fracs.len() ==> fracs[k] < 10,
    ensures
        dec_wf(norm_dec(neg, ints, fracs)),
{
    let i1 = if ints.len() == 0 {
        seq![0u8]
    } else {
        ints
    };
    assert(forall|k: int| 0 <= k < i1.len() ==> i1[k] < 10);
    lemma_strip_leading_props(i1);
    lemma_strip_trailing_props(fracs);
}

// ---- the trailing-zero law -------------------------------------------------

proof fn lemma_dpl_push(t: Seq<char>, c: char)
    requires
        digit_prefix_len(t) < t.len(),
    ensures
        digit_prefix_len(t.push(c)) == digit_prefix_len(t),
    decreases t.len(),
{
    lemma_digit_prefix(t);
    if t.len() > 0 && is_digit(t[0]) {
        assert(t.push(c)[0] == t[0]);
        assert(t.push(c).drop_first() =~= t.drop_first().push(c));
        lemma_dpl_push(t.drop_first(), c);
    } else {
        assert(t.push(c)[0] == t[0]);
    }
}

/// Trailing zeros in the fraction do not change the parsed value: a text
/// holding a decimal point reads back equal with one more `0` appended.
pub proof fn lemma_decimal_trailing_zero(s: Seq<char>)
    requires
        sp_decimal(s) is Some,
        exists|k: int| 0 <= k < s.len() && s[k] == '.',
    ensures
        sp_decimal(s.push('0')) == sp_decimal(s),
{
    let neg = s.len() > 0 && s[0] == '-';
    let signed = s.len() > 0 && (s[0] == '-' || s[0] == '+');
    let t = if signed {
        s.drop_first()
    } else {
        s
    };
    let k = digit_prefix_len(t);
    lemma_digit_prefix(t);
    let kd = choose|kd: int| 0 <= kd < s.len() && s[kd] == '.';
    assert(t.len() > 0);
    if k == t.len() {
        // every character of t is a digit, yet s holds a point
        if signed {
            assert(s[kd] == if kd == 0 {
                s[0]
            } else {
                t[kd - 1]
            });
            assert(false);
        } else {
            assert(s[kd] == t[kd]);
            assert(false);
        }
    }
    assert(t[k] == '.');
    let s2 = s.push('0');
    assert(s2[0] == s[0]);
    let t2 = if signed {
        s2.drop_first()
    } else {
        s2
    };
    assert(t2 =~= t.push('0'));
    lemma_dpl_push(t, '0');
    assert(digit_prefix_len(t2) == k);
    assert(t2[k] == '.');
    let fr = t.skip(k + 1);
    let fr2 = t2.skip(k + 1);
    assert(fr2 =~= fr.push('0'));
    lemma_digit_prefix(fr);
    assert(digit_prefix_len(fr) == fr.len());
    assert(forall|j: int| 0 <= j < fr.len() ==> is_digit(#[trigger] fr[j]));
    assert(forall|j: int| 0 <= j < fr2.len() ==> is_digit(#[trigger] fr2[j]));
    lemma_digit_prefix_eq(fr2, fr2.len() as int);
    assert(t2.take(k) =~= t.take(k));
    assert(digits_of(fr2) =~= digits_of(fr).push(0u8));
    assert(digits_of(fr).push(0u8).drop_last() =~= digits_of(fr));
    assert(strip_trailing(digits_of(fr2)) == strip_trailing(digits_of(fr)));
    assert(norm_dec(neg, digits_of(t2.take(k)), digits_of(fr2)) == norm_dec(
        neg,
        digits_of(t.take(k)),
        digits_of(fr),
    ));
}

// ---- the executable parser -------------------------------------------------

impl Decimal {
    /// Normal form, as [`dec_wf`] says.
    pub open spec fn wf(&self) -> bool {
        dec_wf(self@)
    }

    /// Parses a decimal text into its normalized value: exactly what
    /// [`sp_decimal`] accepts; everything else is a number-format error.
    pub fn from_text(text: &str) -> (r: Result<Decimal, DecodeError>)
        ensures
            match sp_decimal(text@) {
                Option::Some(m) => r matches Result::Ok(d) && d@ == m && d.wf(),
                Option::None => r matches Result::Err(e) && e == DecodeError::NumberFormat,
            },
    {
        let v = chars_of(text);
        match Self::parse_chars(&v) {
            Option::Some(d) => Result::Ok(d),
            Option::None => Result::Err(DecodeError::NumberFormat),
        }
    }

    /// Parses the characters of a decimal text.
    pub(crate) fn parse_chars(v: &Vec<char>) -> (r: Option<Decimal>)
        ensures
            match sp_decimal(v@) {
                Option::Some(m) => r matches Option::Some(d) && d@ == m && dec_wf(m),
                Option::None => r is None,
            },
    {
        proof {
            lemma_sp_decimal_wf(v@);
        }
        let n = v.len();
        let signed: bool = n > 0 && (v[0] == '-' || v[0] == '+');
        let neg: bool = n > 0 && v[0] == '-';
        let i0: usize = if signed {
            1
        } else {
            0
        };
        let ghost t = if signed {
            v@.drop_first()
        } else {
            v@
        };
        proof {
            assert(t =~= v@.skip(i0 as int));
            lemma_digit_prefix(t);
        }
        if i0 >= n {
            return Option::None;
        }
        // integer digits
        let mut ints: Vec<u8> = Vec::new();
        let mut j: usize = i0;
        let mut go: bool = j < n && crate::scan::is_digit_exec(v[j]);
        while go
            invariant
                i0 <= j <= n,
                n == v@.len(),
                t == v@.skip(i0 as int),
                go == (j < n && is_digit(v@[j as int])),
                forall|q: int| i0 <= q < j ==> is_digit(#[trigger] v@[q]),
                ints@ =~= digits_of(t.take(j - i0)),
            decreases n - j,
        {
            let d: u8 = ((v[j] as u32) - 48) as u8;
            ints.push(d);
            proof {
                assert(t[j - i0] == v@[j as int]);
                assert(ints@ =~= digits_of(t.take(j - i0 + 1)));
            }
            j = j + 1;
            go = j < n && crate::scan::is_digit_exec(v[j]);
        }
        proof {
            if j < n {
                assert(t[j - i0] == v@[j as int]);
            }
            assert(forall|q: int| 0 <= q < j - i0 ==> is_digit(#[trigger] t[q]));
            lemma_digit_prefix_eq(t, j - i0);
        }
        let mut fracs: Vec<u8> = Vec::new();
        if j == n {
            // all digits; fine if there is at least one
            proof {
                assert(t.take(j - i0) =~= t);
                assert(fracs@ =~= Seq::<u8>::empty());
            }
            return Self::build(neg, ints, fracs);
        }
        if v[j] != '.' {
            return Option::None;
        }
        let fstart = j + 1;
        let ghost fr = t.skip(j - i0 + 1);
        proof {
            assert(fr =~= v@.skip(fstart as int));
            lemma_digit_prefix(fr);
        }
        let mut j2: usize = fstart;
        let mut go2: bool = j2 < n && crate::scan::is_digit_exec(v[j2]);
        while go2
            invariant
                fstart <= j2 <= n,
                n == v@.len(),
                fr == v@.skip(fstart as int),
                go2 == (j2 < n && is_digit(v@[j2 as int])),
                forall|q: int| fstart <= q < j2 ==> is_digit(#[trigger] v@[q]),
                fracs@ =~= digits_of(fr.take(j2 - fstart)),
            decreases n - j2,
        {
            let d: u8 = ((v[j2] as u32) - 48) as u8;
            fracs.push(d);
            proof {
                assert(fr[j2 - fstart] == v@[j2 as int]);
                assert(fracs@ =~= digits_of(fr.take(j2 - fstart + 1)));
            }
            j2 = j2 + 1;
            go2 = j2 < n && crate::scan::is_digit_exec(v[j2]);
        }
        proof {
            if j2 < n {
                assert(fr[j2 - fstart] == v@[j2 as int]);
            }
            assert(forall|q: int| 0 <= q < j2 - fstart ==> is_digit(#[trigger] fr[q]));
            lemma_digit_prefix_eq(fr, j2 - fstart);
        }
        if j2 < n {
            // something besides digits after the point
            return Option::None;
        }
        if ints.len() == 0 && fracs.len() == 0 {
            return Option::None;
        }
        proof {
            assert(fr.take(fr.len() as int) =~= fr);
        }
        Self::build(neg, ints, fracs)
    }

    /// Builds the normalized value from raw digit runs.
    fn build(neg: bool, ints: Vec<u8>, fracs: Vec<u8>) -> (r: Option<Decimal>)
        requires
            forall|k: int| 0 <= k < ints@.len() ==> ints@[k] < 10,
            forall|k: int| 0 <= k < fracs@.len() ==> fracs@[k] < 10,
        ensures
            r matches Option::Some(d) && d@ == norm_dec(neg, ints@, fracs@),
    {
        let ghost gints = ints@;
        let ghost gfracs = fracs@;
        let mut i1 = ints;
        if i1.len() == 0 {
            i1.push(0);
        }
        proof {
            if gints.len() == 0 {
                assert(i1@ =~= seq![0u8]);
            }
        }
        // strip leading zeros, keeping at least one digit
        let nn = i1.len();
        proof {
            assert(i1@.skip(0) =~= i1@);
        }
        let mut a: usize = 0;
        let mut goa: bool = a + 1 < i1.len() && i1[a] == 0;
        while goa
            invariant
                a < i1@.len(),
                nn == i1@.len(),
                goa == (a + 1 < i1@.len() && i1@[a as int] == 0),
                forall|k: int| 0 <= k < a ==> i1@[k] == 0,
                strip_leading(i1@) == strip_leading(i1@.skip(a as int)),
            decreases i1@.len() - a,
        {
            proof {
                assert(i1@.skip(a as int)[0] == i1@[a as int]);
                assert(i1@.skip(a as int).drop_first() =~= i1@.skip(a as int + 1));
            }
            a = a + 1;
            goa = a + 1 < i1.len() && i1[a] == 0;
        }
        proof {
            assert(i1@.skip(a as int)[0] == i1@[a as int]);
            assert(strip_leading(i1@.skip(a as int)) == i1@.skip(a as int));
        }
        let mut i2: Vec<u8> = Vec::new();
        let mut p: usize = a;
        while p < i1.len()
            invariant
                a <= p <= i1@.len(),
                i2@ =~= i1@.subrange(a as int, p as int),
            decreases i1@.len() - p,
        {
            i2.push(i1[p]);
            proof {
                assert(i2@ =~= i1@.subrange(a as int, p as int + 1));
            }
            p = p + 1;
        }
        proof {
            assert(i2@ =~= i1@.skip(a as int));
        }
        // strip trailing zeros of the fraction
        let mut b: usize = fracs.len();
        proof {
            assert(gfracs.take(gfracs.len() as int) =~= gfracs);
        }
        let mut gob: bool = b > 0 && fracs[b - 1] == 0;
        while gob
            invariant
                b <= gfracs.len(),
                gfracs == fracs@,
                gob == (b > 0 && gfracs[b as int - 1] == 0),
                forall|k: int| b <= k < gfracs.len() ==> gfracs[k] == 0,
                strip_trailing(gfracs) == strip_trailing(gfracs.take(b as int)),
            decreases b,
        {
            proof {
                assert(gfracs.take(b as int).last() == gfracs[b as int - 1]);
                assert(gfracs.take(b as int).drop_last() =~= gfracs.take(b as int - 1));
            }
            b = b - 1;
            gob = b > 0 && fracs[b - 1] == 0;
        }
        proof {
            if b > 0 {
                assert(gfracs.take(b as int).last() == gfracs[b as int - 1]);
            }
            assert(strip_trailing(gfracs.take(b as int)) == gfracs.take(b as int));
        }
        let mut f2: Vec<u8> = Vec::new();
        let mut q: usize = 0;
        while q < b
            invariant
                q <= b,
                b <= fracs@.len(),
                gfracs == fracs@,
                f2@ =~= gfracs.subrange(0, q as int),
            decreases b - q,
        {
            f2.push(fracs[q]);
            proof {
                assert(f2@ =~= gfracs.subrange(0, q as int + 1));
            }
            q = q + 1;
        }
        proof {
            assert(f2@ =~= gfracs.take(b as int));
        }
        let zero: bool = i2.len() == 1 && i2[0] == 0 && f2.len() == 0;
        proof {
            if zero {
                assert(i2@ =~= seq![0u8]);
            } else {
                assert(!(i2@ == seq![0u8] && f2@.len() == 0)) by {
                    if i2@ == seq![0u8] && f2@.len() == 0 {
                        assert(i2@.len() == 1 && i2@[0] == 0);
                    }
                }
            }
        }
        Option::Some(Decimal { negative: neg && !zero, int_digits: i2, frac_digits: f2 })
    }

    /// The canonical text of the value: sign, integer digits, and the
    /// fraction after a point where one exists.
    pub fn text(&self) -> (r: String)
        requires
            self.wf(),
        ensures
            r@ == dec_text(self@),
    {
        let mut out = String::new();
        if self.negative {
            out.push('-');
        }
        let ghost start = out@;
        let mut k: usize = 0;
        while k < self.int_digits.len()
            invariant
                k <= self.int_digits@.len(),
                forall|q: int| 0 <= q < self.int_digits@.len() ==> self.int_digits@[q] < 10,
                start == if self.negative {
                    seq!['-']
                } else {
                    Seq::<char>::empty()
                },
                out@ =~= start + digit_chars(self.int_digits@.take(k as int)),
            decreases self.int_digits@.len() - k,
        {
            out.push(crate::text::digit_char_exec(self.int_digits[k] as u64));
            proof {
                assert(out@ =~= start + digit_chars(self.int_digits@.take(k as int + 1)));
            }
            k = k + 1;
        }
        proof {
            assert(self.int_digits@.take(self.int_digits@.len() as int) =~= self.int_digits@);
        }
        if self.frac_digits.len() > 0 {
            out.push('.');
            let ghost start2 = out@;
            let mut q: usize = 0;
            while q < self.frac_digits.len()
                invariant
                    q <= self.frac_digits@.len(),
                    forall|t: int| 0 <= t < self.frac_digits@.len() ==> self.frac_digits@[t] < 10,
                    out@ =~= start2 + digit_chars(self.frac_digits@.take(q as int)),
                decreases self.frac_digits@.len() - q,
            {
                out.push(crate::text::digit_char_exec(self.frac_digits[q] as u64));
                proof {
                    assert(out@ =~= start2 + digit_chars(self.frac_digits@.take(q as int + 1)));
                }
                q = q + 1;
            }
            proof {
                assert(self.frac_digits@.take(self.frac_digits@.len() as int) =~= self.frac_digits@);
            }
        }
        proof {
            assert(out@ =~= dec_text(self@));
        }
        out
    }
}

pub open spec fn digit_chars(ds: Seq<u8>) -> Seq<char> {
    Seq::new(ds.len(), |k: int| digit_char(ds[k] as int))
}

/// The canonical rendering of a decimal value.
pub open spec fn dec_text(m: DecModel) -> Seq<char> {
    (if m.negative {
        seq!['-']
    } else {
        Seq::<char>::empty()
    }) + digit_chars(m.int_digits) + (if m.frac_digits.len() > 0 {
        seq!['.'] + digit_chars(m.frac_digits)
    } else {
        Seq::<char>::empty()
    })
}

} // verus!
