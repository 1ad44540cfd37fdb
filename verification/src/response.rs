use vstd::prelude::*;

use crate::error::DecodeError;
use crate::jstring::{esc_seq, jstr_wire, lemma_sp_esc, lemma_sp_string_shrinks, push_jstr, sp_string};
use crate::request::{opt_strs_view, wire_tail_id};
use crate::scan::{p_null, p_str_array, p_u64_field, p_ws, value_start_exec};
use crate::text::{chars_of, dec_digits, is_digit, lemma_dec_digits_val, push_dec_digits};
use crate::value::{
    arr_wire, elems_wire, lemma_elems_wire_snoc, lemma_sp_str_array_shrinks,
    lemma_sp_str_array_wire, lemma_sp_u64_digits, lemma_sp_u64_field_shrinks, lemma_sp_ws_nop,
    lemma_sp_ws_shrinks, sp_null, sp_str_array, sp_u64_field, sp_ws, value_start,
};

verus! {

/// Mathematical image of a [`SubscriptionResponse`]. An absent `result`
/// (`None`) is distinct from a present empty list (`Some` of the empty
/// sequence).
pub ghost struct RespModel {
    pub result: Option<Seq<Seq<char>>>,
    pub id: u64,
}

/// The slots of a response object while its members are read.
pub ghost struct RespSlots {
    pub result: Option<Option<Seq<Seq<char>>>>,
    pub id: Option<u64>,
}

pub open spec fn opt_opt_strs_view(o: Option<Option<Vec<String>>>) -> Option<
    Option<Seq<Seq<char>>>,
> {
    match o {
        Option::Some(x) => Option::Some(opt_strs_view(x)),
        Option::None => Option::None,
    }
}

/// The answer to a subscription request, correlated by `id`.
#[derive(Clone, Debug, PartialEq)]
pub struct SubscriptionResponse {
    pub result: Option<Vec<String>>,
    pub id: u64,
}

impl View for SubscriptionResponse {
    type V = RespModel;

    open spec fn view(&self) -> RespModel {
        RespModel { result: opt_strs_view(self.result), id: self.id }
    }
}

// ---- the wire form ---------------------------------------------------------

/// The exact wire text of a response: key order `result`, `id`; an absent
/// result is the literal `null`.
pub open spec fn resp_wire(m: RespModel) -> Seq<char> {
    seq!['{'] + jstr_wire("result"@) + seq![':'] + (match m.result {
        Option::Some(xs) => arr_wire(xs),
        Option::None => "null"@,
    }) + seq![','] + jstr_wire("id"@) + seq![':'] + dec_digits(m.id) + seq!['}']
}

// ---- decoding, specified ---------------------------------------------------

/// Reads a `result` value: `null` is the absent state; an array of strings
/// the present one, even when empty.
pub open spec fn sp_result_field(s: Seq<char>) -> Result<
    (Option<Seq<Seq<char>>>, Seq<char>),
    DecodeError,
> {
    if s.len() == 0 {
        Result::Err(DecodeError::Syntax)
    } else {
        match sp_null(s) {
            Option::Some(r) => Result::Ok((Option::None, r)),
            Option::None => {
                if s[0] == '[' {
                    match sp_str_array(s) {
                        Result::Ok((xs, r)) => Result::Ok((Option::Some(xs), r)),
                        Result::Err(e) => Result::Err(e),
                    }
                } else if value_start(s[0]) {
                    Result::Err(DecodeError::TypeMismatch)
                } else {
                    Result::Err(DecodeError::Syntax)
                }
            },
        }
    }
}

pub open spec fn sresp_finish(sl: RespSlots, rem: Seq<char>) -> Result<
    (RespModel, Seq<char>),
    DecodeError,
> {
    if sl.id is Some {
        Result::Ok(
            (
                RespModel {
                    result: match sl.result {
                        Option::Some(x) => x,
                        Option::None => Option::None,
                    },
                    id: sl.id.unwrap(),
                },
                rem,
            ),
        )
    } else {
        Result::Err(DecodeError::MissingField)
    }
}

pub open spec fn sresp_value(key: Seq<char>, s: Seq<char>, sl: RespSlots) -> Result<
    (RespSlots, Seq<char>),
    DecodeError,
> {
    if key == "result"@ {
        if sl.result is Some {
            Result::Err(DecodeError::DuplicateField)
        } else {
            match sp_result_field(s) {
                Result::Ok((x, r)) => Result::Ok(
                    (RespSlots { result: Option::Some(x), ..sl }, r),
                ),
                Result::Err(e) => Result::Err(e),
            }
        }
    } else if key == "id"@ {
        if sl.id is Some {
            Result::Err(DecodeError::DuplicateField)
        } else {
            match sp_u64_field(s) {
                Result::Ok((x, r)) => Result::Ok((RespSlots { id: Option::Some(x), ..sl }, r)),
                Result::Err(e) => Result::Err(e),
            }
        }
    } else {
        Result::Err(DecodeError::UnknownField)
    }
}

pub proof fn lemma_sresp_value_shrinks(key: Seq<char>, s: Seq<char>, sl: RespSlots)
    ensures
        sresp_value(key, s, sl) matches Result::Ok((sl2, rem)) ==> rem.len() < s.len(),
{
    lemma_sp_str_array_shrinks(s);
    lemma_sp_u64_field_shrinks(s);
}

/// Reads the members of a response object; any order, each key at most
/// once, `result` optional, `id` required.
pub open spec fn sresp_members(s: Seq<char>, sl: RespSlots, first: bool) -> Result<
    (RespModel, Seq<char>),
    DecodeError,
>
    decreases s.len(),
    via sresp_members_dec
{
    if s.len() == 0 {
        Result::Err(DecodeError::Syntax)
    } else if first && s[0] == '}' {
        sresp_finish(sl, s.drop_first())
    } else if s[0] != '"' {
        Result::Err(DecodeError::Syntax)
    } else {
        match sp_string(s) {
            Option::None => Result::Err(DecodeError::Syntax),
            Option::Some((key, r1)) => {
                let r2 = sp_ws(r1);
                if r2.len() == 0 || r2[0] != ':' {
                    Result::Err(DecodeError::Syntax)
                } else {
                    let r3 = sp_ws(r2.drop_first());
                    match sresp_value(key, r3, sl) {
                        Result::Err(e) => Result::Err(e),
                        Result::Ok((sl2, r4)) => {
                            let r5 = sp_ws(r4);
                            if r5.len() == 0 {
                                Result::Err(DecodeError::Syntax)
                            } else if r5[0] == '}' {
                                sresp_finish(sl2, r5.drop_first())
                            } else if r5[0] == ',' {
                                sresp_members(sp_ws(r5.drop_first()), sl2, false)
                            } else {
                                Result::Err(DecodeError::Syntax)
                            }
                        },
                    }
                }
            },
        }
    }
}

#[via_fn]
proof fn sresp_members_dec(s: Seq<char>, sl: RespSlots, first: bool) {
    if s.len() > 0 && !(first && s[0] == '}') && s[0] == '"' {
        lemma_sp_string_shrinks(s);
        match sp_string(s) {
            Option::Some((key, r1)) => {
                lemma_sp_ws_shrinks(r1);
                let r2 = sp_ws(r1);
                if r2.len() > 0 && r2[0] == ':' {
                    lemma_sp_ws_shrinks(r2.drop_first());
                    let r3 = sp_ws(r2.drop_first());
                    lemma_sresp_value_shrinks(key, r3, sl);
                    match sresp_value(key, r3, sl) {
                        Result::Ok((sl2, r4)) => {
                            lemma_sp_ws_shrinks(r4);
                            let r5 = sp_ws(r4);
                            if r5.len() > 0 && r5[0] == ',' {
                                lemma_sp_ws_shrinks(r5.drop_first());
                            }
                        },
                        Result::Err(e) => {},
                    }
                }
            },
            Option::None => {},
        }
    }
}

pub open spec fn sresp_wrap(r: Result<(RespModel, Seq<char>), DecodeError>) -> Result<
    RespModel,
    DecodeError,
> {
    match r {
        Result::Ok((m, rem)) => if sp_ws(rem).len() == 0 {
            Result::Ok(m)
        } else {
            Result::Err(DecodeError::Syntax)
        },
        Result::Err(e) => Result::Err(e),
    }
}

/// What decoding a response from wire text yields, for every input.
pub open spec fn sdec_response(s: Seq<char>) -> Result<RespModel, DecodeError> {
    let t = sp_ws(s);
    if t.len() == 0 || t[0] != '{' {
        Result::Err(DecodeError::Syntax)
    } else {
        sresp_wrap(
            sresp_members(
                sp_ws(t.drop_first()),
                RespSlots { result: Option::None, id: Option::None },
                true,
            ),
        )
    }
}

// ---- the executable codec --------------------------------------------------

impl SubscriptionResponse {
    /// Serializes the response to its exact wire text: keys `result`, `id`
    /// in that order, an absent result as `null`, no whitespace. Never
    /// fails.
    pub fn to_json(&self) -> (r: Result<String, DecodeError>)
        ensures
            r matches Result::Ok(t) && t@ == resp_wire(self@),
    {
        let mut out = String::new();
        out.push('{');
        push_jstr("result", &mut out);
        out.push(':');
        match &self.result {
            Option::None => {
                out.append("null");
            },
            Option::Some(xs) => {
                let ghost base = out@;
                out.push('[');
                let np = xs.len();
                let ghost ps = xs.deep_view();
                let mut k: usize = 0;
                while k < np
                    invariant
                        k <= np,
                        np == xs@.len(),
                        ps == xs.deep_view(),
                        ps.len() == np,
                        out@ == if k == 0 {
                            base + seq!['[']
                        } else {
                            base + seq!['['] + elems_wire(ps.take(k as int))
                        },
                    decreases np - k,
                {
                    if k > 0 {
                        out.push(',');
                    }
                    push_jstr(xs[k].as_str(), &mut out);
                    proof {
                        assert(ps[k as int] == xs@[k as int]@);
                        if k == 0 {
                            assert(ps.take(1) =~= seq![ps[0]]);
                            assert(seq![ps[0]][0] == ps[0]);
                            assert(elems_wire(ps.take(1)) == jstr_wire(ps[0]));
                            assert(out@ =~= base + seq!['['] + elems_wire(ps.take(1)));
                        } else {
                            assert(ps.take(k as int).push(ps[k as int]) =~= ps.take(k as int + 1));
                            lemma_elems_wire_snoc(ps.take(k as int), ps[k as int]);
                            assert(out@ =~= base + seq!['['] + elems_wire(ps.take(k as int + 1)));
                        }
                    }
                    k = k + 1;
                }
                out.push(']');
                proof {
                    if np > 0 {
                        assert(ps.take(np as int) =~= ps);
                    }
                    assert(out@ =~= base + arr_wire(ps));
                }
            },
        }
        out.push(',');
        push_jstr("id", &mut out);
        out.push(':');
        push_dec_digits(self.id, &mut out);
        out.push('}');
        proof {
            assert(out@ =~= resp_wire(self@));
        }
        Result::Ok(out)
    }

    /// Parses a response from wire text: exactly what [`sdec_response`]
    /// says, value and error alike. JSON `null` for `result`, or no
    /// `result` member at all, both give the absent state.
    pub fn from_json(text: &str) -> (r: Result<Self, DecodeError>)
        ensures
            match sdec_response(text@) {
                Result::Ok(m) => r matches Result::Ok(resp) && resp@ == m,
                Result::Err(e) => r matches Result::Err(e2) && e2 == e,
            },
    {
        let v = chars_of(text);
        let n = v.len();
        proof {
            assert(v@.skip(0) =~= v@);
        }
        let i0 = p_ws(&v, 0);
        let ghost t = sp_ws(v@);
        if i0 >= n {
            return Result::Err(DecodeError::Syntax);
        }
        let c0 = v[i0];
        proof {
            assert(t[0] == v@[i0 as int]);
        }
        if c0 != '{' {
            return Result::Err(DecodeError::Syntax);
        }
        proof {
            assert(t.drop_first() =~= v@.skip(i0 as int + 1));
        }
        let mut j = p_ws(&v, i0 + 1);
        let mut rr: Option<Option<Vec<String>>> = Option::None;
        let mut ii: Option<u64> = Option::None;
        let mut first: bool = true;
        let lit_result = String::from_str("result");
        let lit_id = String::from_str("id");
        loop
            invariant
                j <= n,
                n == v@.len(),
                v@ == text@,
                lit_result@ == "result"@,
                lit_id@ == "id"@,
                sdec_response(text@) == sresp_wrap(
                    sresp_members(
                        v@.skip(j as int),
                        RespSlots { result: opt_opt_strs_view(rr), id: ii },
                        first,
                    ),
                ),
            decreases n - j,
        {
            let ghost s = v@.skip(j as int);
            let ghost sl = RespSlots { result: opt_opt_strs_view(rr), id: ii };
            if j >= n {
                return Result::Err(DecodeError::Syntax);
            }
            let c = v[j];
            proof {
                assert(s[0] == v@[j as int]);
            }
            if first && c == '}' {
                proof {
                    assert(s.drop_first() =~= v@.skip(j as int + 1));
                }
                if ii.is_some() {
                    let resp = SubscriptionResponse {
                        result: match rr {
                            Option::Some(x) => x,
                            Option::None => Option::None,
                        },
                        id: ii.unwrap(),
                    };
                    let j2 = p_ws(&v, j + 1);
                    if j2 < n {
                        return Result::Err(DecodeError::Syntax);
                    }
                    proof {
                        assert(v@.skip(j2 as int) =~= Seq::<char>::empty());
                    }
                    return Result::Ok(resp);
                } else {
                    return Result::Err(DecodeError::MissingField);
                }
            }
            if c != '"' {
                return Result::Err(DecodeError::Syntax);
            }
            match crate::jstring::p_string(&v, j) {
                Option::None => {
                    return Result::Err(DecodeError::Syntax);
                },
                Option::Some((key, j1)) => {
                    let j2 = p_ws(&v, j1);
                    let ghost r2 = sp_ws(v@.skip(j1 as int));
                    if j2 >= n {
                        return Result::Err(DecodeError::Syntax);
                    }
                    let cc = v[j2];
                    proof {
                        assert(r2[0] == v@[j2 as int]);
                    }
                    if cc != ':' {
                        return Result::Err(DecodeError::Syntax);
                    }
                    proof {
                        assert(r2.drop_first() =~= v@.skip(j2 as int + 1));
                    }
                    let j3 = p_ws(&v, j2 + 1);
                    let j4: usize;
                    if key == lit_result {
                        if rr.is_some() {
                            return Result::Err(DecodeError::DuplicateField);
                        }
                        match Self::p_result_field(&v, j3) {
                            Result::Ok((x, jj)) => {
                                rr = Option::Some(x);
                                j4 = jj;
                            },
                            Result::Err(e) => {
                                return Result::Err(e);
                            },
                        }
                    } else if key == lit_id {
                        if ii.is_some() {
                            return Result::Err(DecodeError::DuplicateField);
                        }
                        match p_u64_field(&v, j3) {
                            Result::Ok((x, jj)) => {
                                ii = Option::Some(x);
                                j4 = jj;
                            },
                            Result::Err(e) => {
                                return Result::Err(e);
                            },
                        }
                    } else {
                        return Result::Err(DecodeError::UnknownField);
                    }
                    let ghost sl2 = RespSlots { result: opt_opt_strs_view(rr), id: ii };
                    proof {
                        assert(sresp_value(key@, sp_ws(r2.drop_first()), sl) == Result::<
                            (RespSlots, Seq<char>),
                            DecodeError,
                        >::Ok((sl2, v@.skip(j4 as int))));
                    }
                    let j5 = p_ws(&v, j4);
                    let ghost r5 = sp_ws(v@.skip(j4 as int));
                    if j5 >= n {
                        return Result::Err(DecodeError::Syntax);
                    }
                    let c2 = v[j5];
                    proof {
                        assert(r5[0] == v@[j5 as int]);
                    }
                    if c2 == '}' {
                        proof {
                            assert(r5.drop_first() =~= v@.skip(j5 as int + 1));
                        }
                        if ii.is_some() {
                            let resp = SubscriptionResponse {
                                result: match rr {
                                    Option::Some(x) => x,
                                    Option::None => Option::None,
                                },
                                id: ii.unwrap(),
                            };
                            let j6 = p_ws(&v, j5 + 1);
                            if j6 < n {
                                return Result::Err(DecodeError::Syntax);
                            }
                            proof {
                                assert(v@.skip(j6 as int) =~= Seq::<char>::empty());
                            }
                            return Result::Ok(resp);
                        } else {
                            return Result::Err(DecodeError::MissingField);
                        }
                    } else if c2 == ',' {
                        proof {
                            assert(r5.drop_first() =~= v@.skip(j5 as int + 1));
                        }
                        j = p_ws(&v, j5 + 1);
                        first = false;
                    } else {
                        return Result::Err(DecodeError::Syntax);
                    }
                },
            }
        }
    }

    /// Reads a `result` value: `null`, or an array of strings.
    fn p_result_field(v: &Vec<char>, i: usize) -> (r: Result<
        (Option<Vec<String>>, usize),
        DecodeError,
    >)
        requires
            i <= v@.len(),
        ensures
            match sp_result_field(v@.skip(i as int)) {
                Result::Ok((x, rem)) => {
                    &&& r matches Result::Ok((y, j))
                    &&& opt_strs_view(y) == x
                    &&& i <= j <= v@.len()
                    &&& v@.skip(j as int) == rem
                },
                Result::Err(e) => r matches Result::Err(e2) && e2 == e,
            },
    {
        let n = v.len();
        let ghost s = v@.skip(i as int);
        if i >= n {
            return Result::Err(DecodeError::Syntax);
        }
        let c = v[i];
        proof {
            assert(s[0] == v@[i as int]);
        }
        match p_null(v, i) {
            Option::Some(j) => Result::Ok((Option::None, j)),
            Option::None => {
                if c == '[' {
                    match p_str_array(v, i) {
                        Result::Ok((xs, j)) => Result::Ok((Option::Some(xs), j)),
                        Result::Err(e) => Result::Err(e),
                    }
                } else if value_start_exec(c) {
                    Result::Err(DecodeError::TypeMismatch)
                } else {
                    Result::Err(DecodeError::Syntax)
                }
            },
        }
    }
}


// ---- the round trip --------------------------------------------------------

/// The wire text from the `result` member on.
pub open spec fn wire_tail_result(resv: Option<Seq<Seq<char>>>, idv: u64) -> Seq<char> {
    jstr_wire("result"@) + seq![':'] + (match resv {
        Option::Some(xs) => arr_wire(xs),
        Option::None => "null"@,
    }) + seq![','] + wire_tail_id(idv)
}

proof fn lemma_resp_keys_differ()
    ensures
        "id"@ != "result"@,
        "null"@ =~= seq!['n', 'u', 'l', 'l'],
{
    reveal_strlit("id");
    reveal_strlit("result");
    reveal_strlit("null");
    assert("id"@.len() == 2);
    assert("result"@.len() == 6);
    assert("null"@[0] == 'n' && "null"@[1] == 'u' && "null"@[2] == 'l' && "null"@[3] == 'l');
    assert("null"@.len() == 4);
}

#[verifier::rlimit(60)]
proof fn lemma_resp_rt_id(idv: u64, sl: RespSlots)
    requires
        sl.id is None,
    ensures
        sresp_members(wire_tail_id(idv), sl, false) == sresp_finish(
            RespSlots { id: Option::Some(idv), ..sl },
            Seq::<char>::empty(),
        ),
{
    let a = wire_tail_id(idv);
    let b = seq![':'] + dec_digits(idv) + seq!['}'];
    assert(a =~= seq!['"'] + (esc_seq("id"@) + seq!['"'] + b));
    assert(a[0] == '"');
    assert(a.drop_first() =~= esc_seq("id"@) + seq!['"'] + b);
    lemma_sp_esc("id"@, b);
    assert(sp_string(a) == Option::Some(("id"@, b)));
    assert(b[0] == ':');
    lemma_sp_ws_nop(b);
    let c = dec_digits(idv) + seq!['}'];
    assert(b.drop_first() =~= c);
    lemma_resp_keys_differ();
    lemma_dec_digits_val(idv);
    assert(c[0] == dec_digits(idv)[0]);
    assert(is_digit(c[0]));
    lemma_sp_ws_nop(c);
    lemma_sp_u64_digits(idv, seq!['}']);
    let d = seq!['}'];
    assert(!is_digit('}'));
    assert(d[0] == '}');
    assert(sp_u64_field(c) == Result::<(u64, Seq<char>), DecodeError>::Ok((idv, d)));
    let sl2 = RespSlots { id: Option::Some(idv), ..sl };
    assert(sresp_value("id"@, c, sl) == Result::<(RespSlots, Seq<char>), DecodeError>::Ok(
        (sl2, d),
    ));
    lemma_sp_ws_nop(d);
    assert(d.drop_first() =~= Seq::<char>::empty());
}

#[verifier::rlimit(60)]
proof fn lemma_resp_rt_result(resv: Option<Seq<Seq<char>>>, idv: u64, sl: RespSlots)
    requires
        sl.result is None,
    ensures
        sresp_members(wire_tail_result(resv, idv), sl, true) == sresp_members(
            wire_tail_id(idv),
            RespSlots { result: Option::Some(resv), ..sl },
            false,
        ),
{
    let a = wire_tail_result(resv, idv);
    let d = seq![','] + wire_tail_id(idv);
    let vw = match resv {
        Option::Some(xs) => arr_wire(xs),
        Option::None => "null"@,
    };
    let b = seq![':'] + (vw + d);
    assert(a =~= seq!['"'] + (esc_seq("result"@) + seq!['"'] + b));
    assert(a[0] == '"');
    assert(a.drop_first() =~= esc_seq("result"@) + seq!['"'] + b);
    lemma_sp_esc("result"@, b);
    assert(sp_string(a) == Option::Some(("result"@, b)));
    assert(b[0] == ':');
    lemma_sp_ws_nop(b);
    let c = vw + d;
    assert(b.drop_first() =~= c);
    lemma_resp_keys_differ();
    match resv {
        Option::None => {
            assert(c =~= seq!['n', 'u', 'l', 'l'] + d);
            assert(c[0] == 'n' && c[1] == 'u' && c[2] == 'l' && c[3] == 'l');
            lemma_sp_ws_nop(c);
            assert(c.skip(4) =~= d);
            assert(sp_result_field(c) == Result::<
                (Option<Seq<Seq<char>>>, Seq<char>),
                DecodeError,
            >::Ok((Option::None, d)));
        },
        Option::Some(xs) => {
            assert(c[0] == arr_wire(xs)[0]);
            assert(c[0] == '[');
            lemma_sp_ws_nop(c);
            assert(sp_null(c) is None);
            lemma_sp_str_array_wire(xs, d);
            assert(sp_result_field(c) == Result::<
                (Option<Seq<Seq<char>>>, Seq<char>),
                DecodeError,
            >::Ok((Option::Some(xs), d)));
        },
    }
    let sl2 = RespSlots { result: Option::Some(resv), ..sl };
    assert(sresp_value("result"@, c, sl) == Result::<(RespSlots, Seq<char>), DecodeError>::Ok(
        (sl2, d),
    ));
    assert(d[0] == ',');
    lemma_sp_ws_nop(d);
    assert(d.drop_first() =~= wire_tail_id(idv));
    assert(wire_tail_id(idv)[0] == jstr_wire("id"@)[0]);
    assert(wire_tail_id(idv)[0] == '"');
    lemma_sp_ws_nop(wire_tail_id(idv));
}

/// Encoding then decoding gives the response back, absent and present
/// (even empty) results alike.
#[verifier::rlimit(60)]
pub proof fn lemma_response_round_trip(m: RespModel)
    ensures
        sdec_response(resp_wire(m)) == Result::<RespModel, DecodeError>::Ok(m),
{
    let w = resp_wire(m);
    let sl0 = RespSlots { result: Option::None, id: Option::None };
    let a1 = wire_tail_result(m.result, m.id);
    assert(w =~= seq!['{'] + a1);
    assert(w[0] == '{');
    lemma_sp_ws_nop(w);
    assert(w.drop_first() =~= a1);
    assert(a1[0] == jstr_wire("result"@)[0]);
    assert(a1[0] == '"');
    lemma_sp_ws_nop(a1);
    lemma_resp_rt_result(m.result, m.id, sl0);
    let sl1 = RespSlots { result: Option::Some(m.result), ..sl0 };
    lemma_resp_rt_id(m.id, sl1);
    let sl2 = RespSlots { id: Option::Some(m.id), ..sl1 };
    assert(sresp_finish(sl2, Seq::<char>::empty()) == Result::<
        (RespModel, Seq<char>),
        DecodeError,
    >::Ok((m, Seq::<char>::empty())));
    lemma_sp_ws_nop(Seq::<char>::empty());
    assert(sdec_response(w) == Result::<RespModel, DecodeError>::Ok(m));
}

} // verus!
