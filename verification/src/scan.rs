use vstd::prelude::*;

use crate::error::DecodeError;
use crate::jstring::p_string;
use crate::text::{digit_val, is_digit, seq_val};
use crate::value::{
    digit_prefix_len, is_ws, lemma_digit_prefix, lemma_digit_prefix_eq, lemma_seq_val_mono,
    lemma_sp_ws_nop, sarr_elems, sp_bool, sp_bool_field, sp_null, sp_str_array, sp_string_field,
    sp_u64, sp_u64_field, sp_ws, value_start,
};

verus! {

pub(crate) fn is_digit_exec(c: char) -> (b: bool)
    ensures
        b == is_digit(c),
{
    let u = c as u32;
    48 <= u && u <= 57
}

pub(crate) fn value_start_exec(c: char) -> (b: bool)
    ensures
        b == value_start(c),
{
    c == '"' || c == '{' || c == '[' || c == 't' || c == 'f' || c == 'n' || c == '-'
        || is_digit_exec(c)
}

/// Advances past JSON whitespace.
pub(crate) fn p_ws(v: &Vec<char>, i: usize) -> (j: usize)
    requires
        i <= v@.len(),
    ensures
        i <= j <= v@.len(),
        sp_ws(v@.skip(i as int)) == v@.skip(j as int),
{
    let n = v.len();
    let mut j = i;
    let mut go: bool = j < n && (v[j] == ' ' || v[j] == '\u{9}' || v[j] == '\u{a}' || v[j]
        == '\u{d}');
    while go
        invariant
            i <= j <= n,
            n == v@.len(),
            go == (j < n && is_ws(v@[j as int])),
            sp_ws(v@.skip(i as int)) == sp_ws(v@.skip(j as int)),
        decreases n - j,
    {
        proof {
            assert(v@.skip(j as int)[0] == v@[j as int]);
            assert(v@.skip(j as int).drop_first() =~= v@.skip(j as int + 1));
        }
        j = j + 1;
        go = j < n && (v[j] == ' ' || v[j] == '\u{9}' || v[j] == '\u{a}' || v[j] == '\u{d}');
    }
    proof {
        if j < n {
            assert(v@.skip(j as int)[0] == v@[j as int]);
        }
        lemma_sp_ws_nop(v@.skip(j as int));
    }
    j
}

/// Reads an unsigned 64-bit number token.
pub(crate) fn p_u64(v: &Vec<char>, i: usize) -> (r: Option<(u64, usize)>)
    requires
        i <= v@.len(),
    ensures
        match sp_u64(v@.skip(i as int)) {
            Option::Some((x, rem)) => {
                &&& r matches Option::Some((y, j))
                &&& y == x
                &&& i <= j <= v@.len()
                &&& v@.skip(j as int) == rem
            },
            Option::None => r is None,
        },
{
    let ghost s = v@.skip(i as int);
    proof {
        lemma_digit_prefix(s);
    }
    let ghost k = digit_prefix_len(s);
    let n = v.len();
    if i >= n || !is_digit_exec(v[i]) {
        proof {
            if i < n {
                assert(s[0] == v@[i as int]);
            }
            assert(k == 0);
        }
        return Option::None;
    }
    proof {
        assert(s[0] == v@[i as int]);
    }
    if v[i] == '0' {
        if i + 1 < n && is_digit_exec(v[i + 1]) {
            proof {
                assert(s[1] == v@[i as int + 1]);
                assert(s.drop_first()[0] == s[1]);
                lemma_digit_prefix(s.drop_first());
                assert(k > 1);
            }
            return Option::None;
        }
        proof {
            if i + 1 < n {
                assert(s[1] == v@[i as int + 1]);
            }
            lemma_digit_prefix_eq(s, 1);
            assert(s.take(1).drop_last() =~= Seq::<char>::empty());
            reveal_with_fuel(seq_val, 3);
            assert(s.take(1).last() == s[0]);
            assert(seq_val(s.take(1)) == digit_val(s[0]));
            assert(digit_val(s[0]) == 0);
            assert(s.skip(1) =~= v@.skip(i as int + 1));
        }
        return Option::Some((0, i + 1));
    }
    let mut j = i;
    let mut acc: u64 = 0;
    let mut go: bool = j < n && is_digit_exec(v[j]);
    proof {
        assert(s.take(0) =~= Seq::<char>::empty());
    }
    while go
        invariant
            i <= j <= n,
            n == v@.len(),
            i < v@.len(),
            s == v@.skip(i as int),
            k == digit_prefix_len(s),
            0 <= k <= s.len(),
            forall|t: int| 0 <= t < k ==> is_digit(#[trigger] s[t]),
            k < s.len() ==> !is_digit(s[k]),
            s[0] != '0',
            is_digit(s[0]),
            go == (j < n && is_digit(v@[j as int])),
            j - i <= k,
            acc == seq_val(s.take(j - i)),
        decreases n - j,
    {
        let d32: u32 = (v[j] as u32) - 48;
        let d: u64 = d32 as u64;
        proof {
            assert(s[j - i] == v@[j as int]);
            if j - i == k {
                assert(!is_digit(s[k]));
                assert(false);
            }
            assert(s.take(j - i + 1).drop_last() =~= s.take(j - i));
            assert(s.take(j - i + 1).last() == s[j - i]);
        }
        if acc > (u64::MAX - d) / 10 {
            proof {
                assert(seq_val(s.take(j - i + 1)) == 10 * acc + d);
                assert(10 * acc + d > u64::MAX);
                assert(forall|t: int| 0 <= t < s.take(k).len() ==> is_digit(
                    #[trigger] s.take(k)[t],
                ));
                lemma_seq_val_mono(s.take(k), j - i + 1, k);
                assert(s.take(k).take(j - i + 1) =~= s.take(j - i + 1));
                assert(s.take(k).take(k) =~= s.take(k));
                assert(seq_val(s.take(k)) > u64::MAX);
            }
            return Option::None;
        }
        acc = 10 * acc + d;
        j = j + 1;
        go = j < n && is_digit_exec(v[j]);
    }
    proof {
        if j < n {
            assert(s[j - i] == v@[j as int]);
        }
        assert(forall|t: int| 0 <= t < j - i ==> is_digit(#[trigger] s[t]));
        lemma_digit_prefix_eq(s, j - i);
        assert(k == j - i);
        assert(s.skip(k) =~= v@.skip(j as int));
    }
    Option::Some((acc, j))
}

/// Reads the literal `true` or `false`.
pub(crate) fn p_bool(v: &Vec<char>, i: usize) -> (r: Option<(bool, usize)>)
    requires
        i <= v@.len(),
    ensures
        match sp_bool(v@.skip(i as int)) {
            Option::Some((b, rem)) => {
                &&& r matches Option::Some((b2, j))
                &&& b2 == b
                &&& i <= j <= v@.len()
                &&& v@.skip(j as int) == rem
            },
            Option::None => r is None,
        },
{
    let n = v.len();
    let ghost s = v@.skip(i as int);
    proof {
        assert(forall|t: int| 0 <= t < s.len() ==> s[t] == v@[i + t]);
    }
    if n - i >= 4 && v[i] == 't' && v[i + 1] == 'r' && v[i + 2] == 'u' && v[i + 3] == 'e' {
        proof {
            assert(s.skip(4) =~= v@.skip(i as int + 4));
        }
        Option::Some((true, i + 4))
    } else if n - i >= 5 && v[i] == 'f' && v[i + 1] == 'a' && v[i + 2] == 'l' && v[i + 3] == 's'
        && v[i + 4] == 'e' {
        proof {
            assert(s.skip(5) =~= v@.skip(i as int + 5));
        }
        Option::Some((false, i + 5))
    } else {
        Option::None
    }
}

/// Reads the literal `null`.
pub(crate) fn p_null(v: &Vec<char>, i: usize) -> (r: Option<usize>)
    requires
        i <= v@.len(),
    ensures
        match sp_null(v@.skip(i as int)) {
            Option::Some(rem) => {
                &&& r matches Option::Some(j)
                &&& i <= j <= v@.len()
                &&& v@.skip(j as int) == rem
            },
            Option::None => r is None,
        },
{
    let n = v.len();
    let ghost s = v@.skip(i as int);
    proof {
        assert(forall|t: int| 0 <= t < s.len() ==> s[t] == v@[i + t]);
    }
    if n - i >= 4 && v[i] == 'n' && v[i + 1] == 'u' && v[i + 2] == 'l' && v[i + 3] == 'l' {
        proof {
            assert(s.skip(4) =~= v@.skip(i as int + 4));
        }
        Option::Some(i + 4)
    } else {
        Option::None
    }
}

/// Reads a JSON array of strings.
pub(crate) fn p_str_array(v: &Vec<char>, i: usize) -> (r: Result<(Vec<String>, usize), DecodeError>)
    requires
        i <= v@.len(),
    ensures
        match sp_str_array(v@.skip(i as int)) {
            Result::Ok((xs, rem)) => {
                &&& r matches Result::Ok((ys, j))
                &&& ys.deep_view() == xs
                &&& i <= j <= v@.len()
                &&& v@.skip(j as int) == rem
            },
            Result::Err(e) => r matches Result::Err(e2) && e2 == e,
        },
{
    let n = v.len();
    let ghost s0 = v@.skip(i as int);
    if i >= n {
        return Result::Err(DecodeError::Syntax);
    }
    let c = v[i];
    proof {
        assert(s0[0] == v@[i as int]);
    }
    if c != '[' {
        if value_start_exec(c) {
            return Result::Err(DecodeError::TypeMismatch);
        }
        return Result::Err(DecodeError::Syntax);
    }
    proof {
        assert(s0.drop_first() =~= v@.skip(i as int + 1));
    }
    let mut j = p_ws(v, i + 1);
    let ghost t0 = sp_ws(s0.drop_first());
    proof {
        assert(t0 == v@.skip(j as int));
    }
    if j < n && v[j] == ']' {
        proof {
            assert(t0[0] == v@[j as int]);
            assert(t0.drop_first() =~= v@.skip(j as int + 1));
        }
        let out: Vec<String> = Vec::new();
        proof {
            assert(out.deep_view() =~= Seq::<Seq<char>>::empty());
        }
        return Result::Ok((out, j + 1));
    }
    let mut out: Vec<String> = Vec::new();
    proof {
        if j < n {
            assert(t0[0] == v@[j as int]);
        }
        assert(out.deep_view() =~= Seq::<Seq<char>>::empty());
        assert(sp_str_array(s0) == sarr_elems(t0, Seq::empty()));
    }
    loop
        invariant
            i <= j <= n,
            n == v@.len(),
            s0 == v@.skip(i as int),
            sp_str_array(s0) == sarr_elems(v@.skip(j as int), out.deep_view()),
        decreases n - j,
    {
        let ghost s = v@.skip(j as int);
        let ghost dv0 = out.deep_view();
        if j >= n {
            return Result::Err(DecodeError::Syntax);
        }
        let c1 = v[j];
        proof {
            assert(s[0] == v@[j as int]);
        }
        if c1 != '"' {
            if value_start_exec(c1) {
                proof {
                    assert(s.len() > 0);
                    assert(s[0] != '"');
                    assert(value_start(s[0]));
                    assert(sarr_elems(s, dv0) == Result::<
                        (Seq<Seq<char>>, Seq<char>),
                        DecodeError,
                    >::Err(DecodeError::TypeMismatch));
                }
                return Result::Err(DecodeError::TypeMismatch);
            }
            proof {
                assert(sarr_elems(s, dv0) == Result::<
                    (Seq<Seq<char>>, Seq<char>),
                    DecodeError,
                >::Err(DecodeError::Syntax));
            }
            return Result::Err(DecodeError::Syntax);
        }
        match p_string(v, j) {
            Option::None => {
                proof {
                    assert(sarr_elems(s, dv0) == Result::<
                        (Seq<Seq<char>>, Seq<char>),
                        DecodeError,
                    >::Err(DecodeError::Syntax));
                }
                return Result::Err(DecodeError::Syntax);
            },
            Option::Some((x, j2)) => {
                let j3 = p_ws(v, j2);
                let ghost t = sp_ws(v@.skip(j2 as int));
                proof {
                    assert(t == v@.skip(j3 as int));
                }
                if j3 >= n {
                    return Result::Err(DecodeError::Syntax);
                }
                let c2 = v[j3];
                proof {
                    assert(t[0] == v@[j3 as int]);
                }
                if c2 == ']' {
                    out.push(x);
                    proof {
                        assert(out.deep_view() =~= dv0.push(x@));
                        assert(t.drop_first() =~= v@.skip(j3 as int + 1));
                    }
                    return Result::Ok((out, j3 + 1));
                } else if c2 == ',' {
                    out.push(x);
                    proof {
                        assert(out.deep_view() =~= dv0.push(x@));
                        assert(t.drop_first() =~= v@.skip(j3 as int + 1));
                    }
                    let j4 = p_ws(v, j3 + 1);
                    proof {
                        assert(sp_ws(v@.skip(j3 as int + 1)) == v@.skip(j4 as int));
                        assert(sarr_elems(s, dv0) == sarr_elems(v@.skip(j4 as int), out.deep_view()));
                    }
                    j = j4;
                } else {
                    return Result::Err(DecodeError::Syntax);
                }
            },
        }
    }
}


/// Reads a field value that must be a JSON string.
pub(crate) fn p_string_field(v: &Vec<char>, i: usize) -> (r: Result<(String, usize), DecodeError>)
    requires
        i <= v@.len(),
    ensures
        match sp_string_field(v@.skip(i as int)) {
            Result::Ok((x, rem)) => {
                &&& r matches Result::Ok((sv, j))
                &&& sv@ == x
                &&& i <= j <= v@.len()
                &&& v@.skip(j as int) == rem
            },
            Result::Err(e) => r matches Result::Err(e2) && e2 == e,
        },
{
    let n = v.len();
    let ghost s = v@.skip(i as int);
    if i >= n {
        return Result::Err(DecodeError::Syntax);
    }
    let c = v[i];
    proof {
        assert(s[0] == v@[i as int]);
    }
    if c == '"' {
        match p_string(v, i) {
            Option::Some((x, j)) => Result::Ok((x, j)),
            Option::None => Result::Err(DecodeError::Syntax),
        }
    } else if value_start_exec(c) {
        Result::Err(DecodeError::TypeMismatch)
    } else {
        Result::Err(DecodeError::Syntax)
    }
}

/// Reads a field value that must be an unsigned 64-bit integer.
pub(crate) fn p_u64_field(v: &Vec<char>, i: usize) -> (r: Result<(u64, usize), DecodeError>)
    requires
        i <= v@.len(),
    ensures
        match sp_u64_field(v@.skip(i as int)) {
            Result::Ok((x, rem)) => {
                &&& r matches Result::Ok((y, j))
                &&& y == x
                &&& i <= j <= v@.len()
                &&& v@.skip(j as int) == rem
            },
            Result::Err(e) => r matches Result::Err(e2) && e2 == e,
        },
{
    let n = v.len();
    let ghost s = v@.skip(i as int);
    if i >= n {
        return Result::Err(DecodeError::Syntax);
    }
    let c = v[i];
    proof {
        assert(s[0] == v@[i as int]);
    }
    if is_digit_exec(c) {
        match p_u64(v, i) {
            Option::Some((x, j)) => {
                if j < n && (v[j] == '.' || v[j] == 'e' || v[j] == 'E') {
                    proof {
                        assert(v@.skip(j as int)[0] == v@[j as int]);
                    }
                    Result::Err(DecodeError::TypeMismatch)
                } else {
                    proof {
                        if j < n {
                            assert(v@.skip(j as int)[0] == v@[j as int]);
                        }
                    }
                    Result::Ok((x, j))
                }
            },
            Option::None => Result::Err(DecodeError::TypeMismatch),
        }
    } else if value_start_exec(c) {
        Result::Err(DecodeError::TypeMismatch)
    } else {
        Result::Err(DecodeError::Syntax)
    }
}

/// Reads a field value that must be a JSON boolean.
pub(crate) fn p_bool_field(v: &Vec<char>, i: usize) -> (r: Result<(bool, usize), DecodeError>)
    requires
        i <= v@.len(),
    ensures
        match sp_bool_field(v@.skip(i as int)) {
            Result::Ok((x, rem)) => {
                &&& r matches Result::Ok((y, j))
                &&& y == x
                &&& i <= j <= v@.len()
                &&& v@.skip(j as int) == rem
            },
            Result::Err(e) => r matches Result::Err(e2) && e2 == e,
        },
{
    let n = v.len();
    let ghost s = v@.skip(i as int);
    if i >= n {
        return Result::Err(DecodeError::Syntax);
    }
    let c = v[i];
    proof {
        assert(s[0] == v@[i as int]);
    }
    match p_bool(v, i) {
        Option::Some((b, j)) => Result::Ok((b, j)),
        Option::None => {
            if value_start_exec(c) {
                Result::Err(DecodeError::TypeMismatch)
            } else {
                Result::Err(DecodeError::Syntax)
            }
        },
    }
}

} // verus!

