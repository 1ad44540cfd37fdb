use vstd::prelude::*;

use crate::error::DecodeError;
use crate::jstring::{esc_seq, jstr_wire, lemma_sp_esc, lemma_sp_string_shrinks, sp_string};
use crate::text::{dec_digits, is_digit, lemma_dec_digits_val, lemma_seq_val_nonneg, seq_val};

verus! {

// ---- whitespace ------------------------------------------------------------

pub open spec fn is_ws(c: char) -> bool {
    c == ' ' || c == '\u{9}' || c == '\u{a}' || c == '\u{d}'
}

/// Drops leading JSON whitespace.
pub open spec fn sp_ws(s: Seq<char>) -> Seq<char>
    decreases s.len(),
{
    if s.len() > 0 && is_ws(s[0]) {
        sp_ws(s.drop_first())
    } else {
        s
    }
}

pub proof fn lemma_sp_ws_shrinks(s: Seq<char>)
    ensures
        sp_ws(s).len() <= s.len(),
    decreases s.len(),
{
    if s.len() > 0 && is_ws(s[0]) {
        lemma_sp_ws_shrinks(s.drop_first());
    }
}

pub proof fn lemma_sp_ws_nop(s: Seq<char>)
    requires
        s.len() == 0 || !is_ws(s[0]),
    ensures
        sp_ws(s) == s,
{
}

// ---- unsigned 64-bit number token ------------------------------------------

/// The length of the leading run of decimal digits.
pub open spec fn digit_prefix_len(s: Seq<char>) -> int
    decreases s.len(),
{
    if s.len() > 0 && is_digit(s[0]) {
        1 + digit_prefix_len(s.drop_first())
    } else {
        0
    }
}

pub proof fn lemma_digit_prefix(s: Seq<char>)
    ensures
        0 <= digit_prefix_len(s) <= s.len(),
        forall|k: int| 0 <= k < digit_prefix_len(s) ==> is_digit(#[trigger] s[k]),
        digit_prefix_len(s) < s.len() ==> !is_digit(s[digit_prefix_len(s)]),
    decreases s.len(),
{
    if s.len() > 0 && is_digit(s[0]) {
        lemma_digit_prefix(s.drop_first());
        assert forall|k: int| 0 <= k < digit_prefix_len(s) implies is_digit(s[k]) by {
            if k >= 1 {
                assert(s[k] == s.drop_first()[k - 1]);
                assert(is_digit(s.drop_first()[k - 1]));
            }
        }
    }
}

pub proof fn lemma_digit_prefix_eq(s: Seq<char>, m: int)
    requires
        0 <= m <= s.len(),
        forall|k: int| 0 <= k < m ==> is_digit(#[trigger] s[k]),
        m < s.len() ==> !is_digit(s[m]),
    ensures
        digit_prefix_len(s) == m,
    decreases s.len(),
{
    if m == 0 {
    } else {
        assert(is_digit(s[0]));
        lemma_digit_prefix_eq(s.drop_first(), m - 1);
    }
}

/// Reads a JSON number token as an unsigned 64-bit integer: a plain run of
/// digits with no leading zero (a single `0` aside), whose value fits.
/// `None` where no digit leads, on a leading zero, or on overflow.
pub open spec fn sp_u64(s: Seq<char>) -> Option<(u64, Seq<char>)> {
    let k = digit_prefix_len(s);
    if k == 0 {
        Option::None
    } else if k > 1 && s[0] == '0' {
        Option::None
    } else if seq_val(s.take(k)) <= u64::MAX {
        Option::Some(((seq_val(s.take(k)) as u64), s.skip(k)))
    } else {
        Option::None
    }
}

pub proof fn lemma_seq_val_mono(s: Seq<char>, a: int, b: int)
    requires
        0 <= a <= b <= s.len(),
        forall|k: int| 0 <= k < s.len() ==> is_digit(#[trigger] s[k]),
    ensures
        seq_val(s.take(a)) <= seq_val(s.take(b)),
    decreases b - a,
{
    if a < b {
        lemma_seq_val_mono(s, a, b - 1);
        assert(s.take(b).drop_last() =~= s.take(b - 1));
        assert(forall|k: int| 0 <= k < s.take(b - 1).len() ==> is_digit(#[trigger] s.take(b - 1)[k]));
        lemma_seq_val_nonneg(s.take(b - 1));
        assert(is_digit(s.take(b).last()));
    }
}

/// Parsing inverts printing for the canonical digits of any `u64`, as long
/// as no further digit follows directly.
pub proof fn lemma_sp_u64_digits(n: u64, rest: Seq<char>)
    requires
        rest.len() == 0 || !is_digit(rest[0]),
    ensures
        sp_u64(dec_digits(n) + rest) == Option::Some((n, rest)),
{
    let ds = dec_digits(n);
    let s = ds + rest;
    lemma_dec_digits_val(n);
    assert(forall|k: int| 0 <= k < ds.len() ==> s[k] == ds[k]);
    if ds.len() < s.len() {
        assert(s[ds.len() as int] == rest[0]);
    }
    lemma_digit_prefix_eq(s, ds.len() as int);
    assert(s.take(ds.len() as int) =~= ds);
    assert(s.skip(ds.len() as int) =~= rest);
    if ds.len() > 1 {
        assert(n >= 10) by {
            if n < 10 {
                assert(ds =~= seq![crate::text::digit_char(n as int)]);
            }
        }
        assert(ds[0] != '0');
    }
}

// ---- literal tokens --------------------------------------------------------

/// Reads the literal `true` or `false`.
pub open spec fn sp_bool(s: Seq<char>) -> Option<(bool, Seq<char>)> {
    if s.len() >= 4 && s[0] == 't' && s[1] == 'r' && s[2] == 'u' && s[3] == 'e' {
        Option::Some((true, s.skip(4)))
    } else if s.len() >= 5 && s[0] == 'f' && s[1] == 'a' && s[2] == 'l' && s[3] == 's' && s[4]
        == 'e' {
        Option::Some((false, s.skip(5)))
    } else {
        Option::None
    }
}

/// Reads the literal `null`.
pub open spec fn sp_null(s: Seq<char>) -> Option<Seq<char>> {
    if s.len() >= 4 && s[0] == 'n' && s[1] == 'u' && s[2] == 'l' && s[3] == 'l' {
        Option::Some(s.skip(4))
    } else {
        Option::None
    }
}

/// A character that can open some JSON value.
pub open spec fn value_start(c: char) -> bool {
    c == '"' || c == '{' || c == '[' || c == 't' || c == 'f' || c == 'n' || c == '-' || is_digit(c)
}

// ---- arrays of strings -----------------------------------------------------

/// Reads the elements of a non-empty JSON array of strings, positioned at
/// the first element; `acc` carries the elements already read. An element
/// of another JSON type is a type mismatch; anything else that breaks the
/// shape is a syntax error.
pub open spec fn sarr_elems(s: Seq<char>, acc: Seq<Seq<char>>) -> Result<
    (Seq<Seq<char>>, Seq<char>),
    DecodeError,
>
    decreases s.len(),
    via sarr_elems_dec
{
    if s.len() == 0 {
        Result::Err(DecodeError::Syntax)
    } else if s[0] == '"' {
        match sp_string(s) {
            Option::None => Result::Err(DecodeError::Syntax),
            Option::Some((x, r)) => {
                let t = sp_ws(r);
                if t.len() == 0 {
                    Result::Err(DecodeError::Syntax)
                } else if t[0] == ']' {
                    Result::Ok((acc.push(x), t.drop_first()))
                } else if t[0] == ',' {
                    sarr_elems(sp_ws(t.drop_first()), acc.push(x))
                } else {
                    Result::Err(DecodeError::Syntax)
                }
            },
        }
    } else if value_start(s[0]) {
        Result::Err(DecodeError::TypeMismatch)
    } else {
        Result::Err(DecodeError::Syntax)
    }
}

#[via_fn]
proof fn sarr_elems_dec(s: Seq<char>, acc: Seq<Seq<char>>) {
    if s.len() > 0 && s[0] == '"' {
        lemma_sp_string_shrinks(s);
        match sp_string(s) {
            Option::Some((x, r)) => {
                lemma_sp_ws_shrinks(r);
                let t = sp_ws(r);
                if t.len() > 0 && t[0] == ',' {
                    lemma_sp_ws_shrinks(t.drop_first());
                }
            },
            Option::None => {},
        }
    }
}

/// Reads a JSON array of strings, opening bracket included.
pub open spec fn sp_str_array(s: Seq<char>) -> Result<(Seq<Seq<char>>, Seq<char>), DecodeError> {
    if s.len() == 0 {
        Result::Err(DecodeError::Syntax)
    } else if s[0] == '[' {
        let t = sp_ws(s.drop_first());
        if t.len() > 0 && t[0] == ']' {
            Result::Ok((Seq::empty(), t.drop_first()))
        } else {
            sarr_elems(t, Seq::empty())
        }
    } else if value_start(s[0]) {
        Result::Err(DecodeError::TypeMismatch)
    } else {
        Result::Err(DecodeError::Syntax)
    }
}

pub proof fn lemma_sarr_elems_shrinks(s: Seq<char>, acc: Seq<Seq<char>>)
    ensures
        sarr_elems(s, acc) matches Result::Ok((xs, rem)) ==> rem.len() < s.len(),
    decreases s.len(),
{
    if s.len() > 0 && s[0] == '"' {
        lemma_sp_string_shrinks(s);
        match sp_string(s) {
            Option::Some((x, r)) => {
                lemma_sp_ws_shrinks(r);
                let t = sp_ws(r);
                if t.len() > 0 && t[0] == ',' {
                    lemma_sp_ws_shrinks(t.drop_first());
                    lemma_sarr_elems_shrinks(sp_ws(t.drop_first()), acc.push(x));
                }
            },
            Option::None => {},
        }
    }
}

pub proof fn lemma_sp_str_array_shrinks(s: Seq<char>)
    ensures
        sp_str_array(s) matches Result::Ok((xs, rem)) ==> rem.len() < s.len(),
{
    if s.len() > 0 && s[0] == '[' {
        lemma_sp_ws_shrinks(s.drop_first());
        lemma_sarr_elems_shrinks(sp_ws(s.drop_first()), Seq::empty());
    }
}

// ---- the wire form of a string array ---------------------------------------

/// The elements of a non-empty string array on the wire: quoted strings
/// joined by commas.
pub open spec fn elems_wire(xs: Seq<Seq<char>>) -> Seq<char>
    decreases xs.len(),
{
    if xs.len() <= 1 {
        jstr_wire(xs[0])
    } else {
        jstr_wire(xs[0]) + seq![','] + elems_wire(xs.drop_first())
    }
}

/// A string array on the wire: `[]`, or the comma-joined elements in
/// brackets, in order.
pub open spec fn arr_wire(xs: Seq<Seq<char>>) -> Seq<char> {
    if xs.len() == 0 {
        seq!['[', ']']
    } else {
        seq!['['] + elems_wire(xs) + seq![']']
    }
}

proof fn lemma_sarr_elems_wire(xs: Seq<Seq<char>>, acc: Seq<Seq<char>>, rest: Seq<char>)
    requires
        xs.len() >= 1,
    ensures
        sarr_elems(elems_wire(xs) + seq![']'] + rest, acc) == Result::<
            (Seq<Seq<char>>, Seq<char>),
            DecodeError,
        >::Ok((acc + xs, rest)),
    decreases xs.len(),
{
    let x0 = xs[0];
    if xs.len() == 1 {
        let s = elems_wire(xs) + seq![']'] + rest;
        assert(s =~= seq!['"'] + (esc_seq(x0) + seq!['"'] + (seq![']'] + rest)));
        assert(s[0] == '"');
        assert(s.drop_first() =~= esc_seq(x0) + seq!['"'] + (seq![']'] + rest));
        lemma_sp_esc(x0, seq![']'] + rest);
        assert(sp_string(s) == Option::Some((x0, seq![']'] + rest)));
        let r = seq![']'] + rest;
        assert(r[0] == ']');
        lemma_sp_ws_nop(r);
        assert(r.drop_first() =~= rest);
        assert(acc.push(x0) =~= acc + xs);
    } else {
        let tail = xs.drop_first();
        let after = seq![','] + (elems_wire(tail) + seq![']'] + rest);
        let s = elems_wire(xs) + seq![']'] + rest;
        assert(s =~= seq!['"'] + (esc_seq(x0) + seq!['"'] + after));
        assert(s[0] == '"');
        assert(s.drop_first() =~= esc_seq(x0) + seq!['"'] + after);
        lemma_sp_esc(x0, after);
        assert(sp_string(s) == Option::Some((x0, after)));
        assert(after[0] == ',');
        lemma_sp_ws_nop(after);
        let nxt = elems_wire(tail) + seq![']'] + rest;
        assert(after.drop_first() =~= nxt);
        assert(nxt[0] == jstr_wire(tail[0])[0]);
        assert(nxt[0] == '"');
        lemma_sp_ws_nop(nxt);
        lemma_sarr_elems_wire(tail, acc.push(x0), rest);
        assert(acc.push(x0) + tail =~= acc + xs);
    }
}

/// Parsing inverts printing for any array of strings, whatever follows.
pub proof fn lemma_sp_str_array_wire(xs: Seq<Seq<char>>, rest: Seq<char>)
    ensures
        sp_str_array(arr_wire(xs) + rest) == Result::<
            (Seq<Seq<char>>, Seq<char>),
            DecodeError,
        >::Ok((xs, rest)),
{
    let s = arr_wire(xs) + rest;
    assert(s[0] == '[');
    if xs.len() == 0 {
        assert(s.drop_first() =~= seq![']'] + rest);
        let t = seq![']'] + rest;
        assert(t[0] == ']');
        lemma_sp_ws_nop(t);
        assert(t.drop_first() =~= rest);
        assert(sp_str_array(s) == Result::<(Seq<Seq<char>>, Seq<char>), DecodeError>::Ok(
            (Seq::empty(), rest),
        ));
        assert(Seq::<Seq<char>>::empty() =~= xs);
    } else {
        let t = elems_wire(xs) + seq![']'] + rest;
        assert(s.drop_first() =~= t);
        assert(t[0] == jstr_wire(xs[0])[0]);
        assert(t[0] == '"');
        lemma_sp_ws_nop(t);
        lemma_sarr_elems_wire(xs, Seq::empty(), rest);
        assert(Seq::<Seq<char>>::empty() + xs =~= xs);
    }
}


// ---- typed field values ----------------------------------------------------

/// Reads a field value that must be a JSON string. Another JSON value
/// there is a type mismatch; anything else is a syntax error.
pub open spec fn sp_string_field(s: Seq<char>) -> Result<(Seq<char>, Seq<char>), DecodeError> {
    if s.len() == 0 {
        Result::Err(DecodeError::Syntax)
    } else if s[0] == '"' {
        match sp_string(s) {
            Option::Some((x, r)) => Result::Ok((x, r)),
            Option::None => Result::Err(DecodeError::Syntax),
        }
    } else if value_start(s[0]) {
        Result::Err(DecodeError::TypeMismatch)
    } else {
        Result::Err(DecodeError::Syntax)
    }
}

/// Reads a field value that must be an unsigned 64-bit integer: a signed,
/// fractional, exponent-bearing or overflowing number is a type mismatch.
pub open spec fn sp_u64_field(s: Seq<char>) -> Result<(u64, Seq<char>), DecodeError> {
    if s.len() == 0 {
        Result::Err(DecodeError::Syntax)
    } else if is_digit(s[0]) {
        match sp_u64(s) {
            Option::Some((x, r)) => {
                if r.len() > 0 && (r[0] == '.' || r[0] == 'e' || r[0] == 'E') {
                    Result::Err(DecodeError::TypeMismatch)
                } else {
                    Result::Ok((x, r))
                }
            },
            Option::None => Result::Err(DecodeError::TypeMismatch),
        }
    } else if value_start(s[0]) {
        Result::Err(DecodeError::TypeMismatch)
    } else {
        Result::Err(DecodeError::Syntax)
    }
}

/// Reads a field value that must be a JSON boolean.
pub open spec fn sp_bool_field(s: Seq<char>) -> Result<(bool, Seq<char>), DecodeError> {
    if s.len() == 0 {
        Result::Err(DecodeError::Syntax)
    } else {
        match sp_bool(s) {
            Option::Some((b, r)) => Result::Ok((b, r)),
            Option::None => {
                if value_start(s[0]) {
                    Result::Err(DecodeError::TypeMismatch)
                } else {
                    Result::Err(DecodeError::Syntax)
                }
            },
        }
    }
}

pub proof fn lemma_sp_u64_shrinks(s: Seq<char>)
    ensures
        sp_u64(s) matches Option::Some((x, rem)) ==> rem.len() < s.len(),
{
    lemma_digit_prefix(s);
}

pub proof fn lemma_sp_string_field_shrinks(s: Seq<char>)
    ensures
        sp_string_field(s) matches Result::Ok((x, rem)) ==> rem.len() < s.len(),
{
    lemma_sp_string_shrinks(s);
}

pub proof fn lemma_sp_u64_field_shrinks(s: Seq<char>)
    ensures
        sp_u64_field(s) matches Result::Ok((x, rem)) ==> rem.len() < s.len(),
{
    lemma_sp_u64_shrinks(s);
}

pub proof fn lemma_sp_bool_field_shrinks(s: Seq<char>)
    ensures
        sp_bool_field(s) matches Result::Ok((x, rem)) ==> rem.len() < s.len(),
{
}


/// Appending one more element extends the joined form by a comma and the
/// element's wire form.
pub proof fn lemma_elems_wire_snoc(xs: Seq<Seq<char>>, x: Seq<char>)
    requires
        xs.len() >= 1,
    ensures
        elems_wire(xs.push(x)) == elems_wire(xs) + seq![','] + jstr_wire(x),
    decreases xs.len(),
{
    if xs.len() == 1 {
        reveal_with_fuel(elems_wire, 3);
        assert(xs.push(x).drop_first() =~= seq![x]);
        assert(xs.push(x)[0] == xs[0]);
        assert(seq![x][0] == x);
        assert(elems_wire(seq![x]) == jstr_wire(x));
        assert(elems_wire(xs.push(x)) == jstr_wire(xs[0]) + seq![','] + elems_wire(seq![x]));
        assert(elems_wire(xs.push(x)) =~= elems_wire(xs) + seq![','] + jstr_wire(x));
    } else {
        assert(xs.push(x).drop_first() =~= xs.drop_first().push(x));
        assert(xs.push(x)[0] == xs[0]);
        lemma_elems_wire_snoc(xs.drop_first(), x);
        assert(elems_wire(xs.push(x)) =~= elems_wire(xs) + seq![','] + jstr_wire(x));
    }
}


/// Order preservation on the wire: appending one more string to an array
/// leaves the existing text in place and inserts only the new element's
/// wire form (after a comma, unless the array was empty) before the
/// closing bracket.
pub proof fn lemma_arr_wire_push(ps: Seq<Seq<char>>, x: Seq<char>)
    ensures
        arr_wire(ps.push(x)) == arr_wire(ps).drop_last() + (if ps.len() == 0 {
            Seq::<char>::empty()
        } else {
            seq![',']
        }) + jstr_wire(x) + seq![']'],
{
    if ps.len() == 0 {
        assert(ps.push(x) =~= seq![x]);
        assert(seq![x][0] == x);
        assert(elems_wire(seq![x]) == jstr_wire(x));
        assert(arr_wire(ps).drop_last() =~= seq!['[']);
        assert(arr_wire(ps.push(x)) =~= arr_wire(ps).drop_last() + Seq::<char>::empty()
            + jstr_wire(x) + seq![']']);
    } else {
        lemma_elems_wire_snoc(ps, x);
        assert(arr_wire(ps).drop_last() =~= seq!['['] + elems_wire(ps));
        assert(arr_wire(ps.push(x)) =~= arr_wire(ps).drop_last() + seq![','] + jstr_wire(x)
            + seq![']']);
    }
}

} // verus!

