use vstd::prelude::*;

use crate::error::DecodeError;
use crate::jstring::{esc_seq, jstr_wire, lemma_sp_esc, lemma_sp_string_shrinks, push_jstr, sp_string};
use crate::scan::{p_str_array, p_string_field, p_u64_field, p_ws};
use crate::text::{chars_of, dec_digits, is_digit, lemma_dec_digits_val, push_dec_digits};
use crate::value::{
    arr_wire, elems_wire, lemma_elems_wire_snoc, lemma_sp_str_array_shrinks,
    lemma_sp_str_array_wire, lemma_sp_string_field_shrinks, lemma_sp_u64_digits,
    lemma_sp_u64_field_shrinks, lemma_sp_ws_nop, lemma_sp_ws_shrinks, sp_str_array,
    sp_string_field, sp_u64_field, sp_ws,
};

verus! {

/// Mathematical image of a [`SubscriptionRequest`]: the field values as
/// sequences of characters and a plain integer.
pub ghost struct ReqModel {
    pub method: Seq<char>,
    pub params: Seq<Seq<char>>,
    pub id: u64,
}

/// The slots of a request object while its members are read.
pub ghost struct ReqSlots {
    pub method: Option<Seq<char>>,
    pub params: Option<Seq<Seq<char>>>,
    pub id: Option<u64>,
}

pub open spec fn opt_str_view(o: Option<String>) -> Option<Seq<char>> {
    match o {
        Option::Some(x) => Option::Some(x@),
        Option::None => Option::None,
    }
}

pub open spec fn opt_strs_view(o: Option<Vec<String>>) -> Option<Seq<Seq<char>>> {
    match o {
        Option::Some(x) => Option::Some(x.deep_view()),
        Option::None => Option::None,
    }
}

/// A request to subscribe to a set of streams.
///
/// `params` is append-only while the request is assembled; its order is
/// significant, since it becomes the wire array verbatim.
#[derive(Clone, Debug, PartialEq)]
pub struct SubscriptionRequest {
    pub method: String,
    pub params: Vec<String>,
    pub id: u64,
}

impl View for SubscriptionRequest {
    type V = ReqModel;

    open spec fn view(&self) -> ReqModel {
        ReqModel { method: self.method@, params: self.params.deep_view(), id: self.id }
    }
}

// ---- the wire form ---------------------------------------------------------

/// The wire text from the `id` member on: `"id":<digits>}`.
pub open spec fn wire_tail_id(idv: u64) -> Seq<char> {
    jstr_wire("id"@) + seq![':'] + dec_digits(idv) + seq!['}']
}

/// The wire text from the `params` member on.
pub open spec fn wire_tail_params(ps: Seq<Seq<char>>, idv: u64) -> Seq<char> {
    jstr_wire("params"@) + seq![':'] + arr_wire(ps) + seq![','] + wire_tail_id(idv)
}

/// The wire text from the `method` member on.
pub open spec fn wire_tail_method(m: ReqModel) -> Seq<char> {
    jstr_wire("method"@) + seq![':'] + jstr_wire(m.method) + seq![','] + wire_tail_params(
        m.params,
        m.id,
    )
}

/// The exact wire text of a request: fixed key order `method`, `params`,
/// `id`; no whitespace; strings escaped as [`esc_seq`] says.
pub open spec fn req_wire(m: ReqModel) -> Seq<char> {
    seq!['{'] + wire_tail_method(m)
}

// ---- decoding, specified ---------------------------------------------------

pub open spec fn sreq_finish(sl: ReqSlots, rem: Seq<char>) -> Result<
    (ReqModel, Seq<char>),
    DecodeError,
> {
    if sl.method is Some && sl.params is Some && sl.id is Some {
        Result::Ok(
            (
                ReqModel {
                    method: sl.method.unwrap(),
                    params: sl.params.unwrap(),
                    id: sl.id.unwrap(),
                },
                rem,
            ),
        )
    } else {
        Result::Err(DecodeError::MissingField)
    }
}

/// Reads one member's value, `s` positioned at the value. A key read twice
/// is a duplicate; a key outside the schema is unknown.
pub open spec fn sreq_value(key: Seq<char>, s: Seq<char>, sl: ReqSlots) -> Result<
    (ReqSlots, Seq<char>),
    DecodeError,
> {
    if key == "method"@ {
        if sl.method is Some {
            Result::Err(DecodeError::DuplicateField)
        } else {
            match sp_string_field(s) {
                Result::Ok((x, r)) => Result::Ok(
                    (ReqSlots { method: Option::Some(x), ..sl }, r),
                ),
                Result::Err(e) => Result::Err(e),
            }
        }
    } else if key == "params"@ {
        if sl.params is Some {
            Result::Err(DecodeError::DuplicateField)
        } else {
            match sp_str_array(s) {
                Result::Ok((x, r)) => Result::Ok(
                    (ReqSlots { params: Option::Some(x), ..sl }, r),
                ),
                Result::Err(e) => Result::Err(e),
            }
        }
    } else if key == "id"@ {
        if sl.id is Some {
            Result::Err(DecodeError::DuplicateField)
        } else {
            match sp_u64_field(s) {
                Result::Ok((x, r)) => Result::Ok((ReqSlots { id: Option::Some(x), ..sl }, r)),
                Result::Err(e) => Result::Err(e),
            }
        }
    } else {
        Result::Err(DecodeError::UnknownField)
    }
}

pub proof fn lemma_sreq_value_shrinks(key: Seq<char>, s: Seq<char>, sl: ReqSlots)
    ensures
        sreq_value(key, s, sl) matches Result::Ok((sl2, rem)) ==> rem.len() < s.len(),
{
    lemma_sp_string_field_shrinks(s);
    lemma_sp_str_array_shrinks(s);
    lemma_sp_u64_field_shrinks(s);
}

/// Reads the members of a request object, `s` positioned after `{` (or
/// after a comma), whitespace already skipped. Members may come in any
/// order; each key at most once.
pub open spec fn sreq_members(s: Seq<char>, sl: ReqSlots, first: bool) -> Result<
    (ReqModel, Seq<char>),
    DecodeError,
>
    decreases s.len(),
    via sreq_members_dec
{
    if s.len() == 0 {
        Result::Err(DecodeError::Syntax)
    } else if first && s[0] == '}' {
        sreq_finish(sl, s.drop_first())
    } else if s[0] != '"' {
        Result::Err(DecodeError::Syntax)
    } else {
        match sp_string(s) {
            Option::None => Result::Err(DecodeError::Syntax),
            Option::Some((key, r1)) => {
                let r2 = sp_ws(r1);
                if r2.len() == 0 || r2[0] != ':' {
                    Result::Err(DecodeError::Syntax)
                } else {
                    let r3 = sp_ws(r2.drop_first());
                    match sreq_value(key, r3, sl) {
                        Result::Err(e) => Result::Err(e),
                        Result::Ok((sl2, r4)) => {
                            let r5 = sp_ws(r4);
                            if r5.len() == 0 {
                                Result::Err(DecodeError::Syntax)
                            } else if r5[0] == '}' {
                                sreq_finish(sl2, r5.drop_first())
                            } else if r5[0] == ',' {
                                sreq_members(sp_ws(r5.drop_first()), sl2, false)
                            } else {
                                Result::Err(DecodeError::Syntax)
                            }
                        },
                    }
                }
            },
        }
    }
}

#[via_fn]
proof fn sreq_members_dec(s: Seq<char>, sl: ReqSlots, first: bool) {
    if s.len() > 0 && !(first && s[0] == '}') && s[0] == '"' {
        lemma_sp_string_shrinks(s);
        match sp_string(s) {
            Option::Some((key, r1)) => {
                lemma_sp_ws_shrinks(r1);
                let r2 = sp_ws(r1);
                if r2.len() > 0 && r2[0] == ':' {
                    lemma_sp_ws_shrinks(r2.drop_first());
                    let r3 = sp_ws(r2.drop_first());
                    lemma_sreq_value_shrinks(key, r3, sl);
                    match sreq_value(key, r3, sl) {
                        Result::Ok((sl2, r4)) => {
                            lemma_sp_ws_shrinks(r4);
                            let r5 = sp_ws(r4);
                            if r5.len() > 0 && r5[0] == ',' {
                                lemma_sp_ws_shrinks(r5.drop_first());
                            }
                        },
                        Result::Err(e) => {},
                    }
                }
            },
            Option::None => {},
        }
    }
}

pub open spec fn sreq_wrap(r: Result<(ReqModel, Seq<char>), DecodeError>) -> Result<
    ReqModel,
    DecodeError,
> {
    match r {
        Result::Ok((m, rem)) => if sp_ws(rem).len() == 0 {
            Result::Ok(m)
        } else {
            Result::Err(DecodeError::Syntax)
        },
        Result::Err(e) => Result::Err(e),
    }
}

/// What decoding a request from wire text yields, for every input: the
/// model on the accepted grammar, and which error otherwise.
pub open spec fn sdec_request(s: Seq<char>) -> Result<ReqModel, DecodeError> {
    let t = sp_ws(s);
    if t.len() == 0 || t[0] != '{' {
        Result::Err(DecodeError::Syntax)
    } else {
        sreq_wrap(
            sreq_members(
                sp_ws(t.drop_first()),
                ReqSlots { method: Option::None, params: Option::None, id: Option::None },
                true,
            ),
        )
    }
}

// ---- the executable codec --------------------------------------------------

impl SubscriptionRequest {
    /// A fresh request: method `"SUBSCRIBE"`, no streams yet, the given
    /// correlation id.
    pub fn new(id: u64) -> (r: Self)
        ensures
            r@.method == "SUBSCRIBE"@,
            r@.params == Seq::<Seq<char>>::empty(),
            r@.id == id,
    {
        let r = SubscriptionRequest {
            method: String::from_str("SUBSCRIBE"),
            params: Vec::new(),
            id,
        };
        proof {
            assert(r@.params =~= Seq::<Seq<char>>::empty());
        }
        r
    }

    /// Appends one stream name. Earlier entries and their order are kept;
    /// nothing is deduplicated or validated here.
    pub fn add_stream(&mut self, stream: &str)
        ensures
            final(self)@.method == old(self)@.method,
            final(self)@.id == old(self)@.id,
            final(self)@.params == old(self)@.params.push(stream@),
    {
        let ghost before = self.params.deep_view();
        self.params.push(String::from_str(stream));
        proof {
            assert(self.params.deep_view() =~= before.push(stream@));
        }
    }

    /// Serializes the request to its exact wire text: keys `method`,
    /// `params`, `id` in that order, no whitespace. Never fails.
    pub fn to_json(&self) -> (r: Result<String, DecodeError>)
        ensures
            r matches Result::Ok(t) && t@ == req_wire(self@),
    {
        let mut out = String::new();
        out.push('{');
        push_jstr("method", &mut out);
        out.push(':');
        push_jstr(self.method.as_str(), &mut out);
        out.push(',');
        push_jstr("params", &mut out);
        out.push(':');
        let ghost base = out@;
        out.push('[');
        let np = self.params.len();
        let ghost ps = self.params.deep_view();
        let mut k: usize = 0;
        while k < np
            invariant
                k <= np,
                np == self.params@.len(),
                ps == self.params.deep_view(),
                ps.len() == np,
                out@ == if k == 0 {
                    base + seq!['[']
                } else {
                    base + seq!['['] + elems_wire(ps.take(k as int))
                },
            decreases np - k,
        {
            if k > 0 {
                out.push(',');
            }
            push_jstr(self.params[k].as_str(), &mut out);
            proof {
                assert(ps[k as int] == self.params@[k as int]@);
                if k == 0 {
                    assert(ps.take(1) =~= seq![ps[0]]);
                    assert(seq![ps[0]][0] == ps[0]);
                    assert(elems_wire(ps.take(1)) == jstr_wire(ps[0]));
                    assert(out@ =~= base + seq!['['] + elems_wire(ps.take(1)));
                } else {
                    assert(ps.take(k as int).push(ps[k as int]) =~= ps.take(k as int + 1));
                    lemma_elems_wire_snoc(ps.take(k as int), ps[k as int]);
                    assert(out@ =~= base + seq!['['] + elems_wire(ps.take(k as int + 1)));
                }
            }
            k = k + 1;
        }
        out.push(']');
        proof {
            if np > 0 {
                assert(ps.take(np as int) =~= ps);
            }
            assert(out@ =~= base + arr_wire(ps));
        }
        out.push(',');
        push_jstr("id", &mut out);
        out.push(':');
        push_dec_digits(self.id, &mut out);
        out.push('}');
        proof {
            assert(out@ =~= req_wire(self@));
        }
        Result::Ok(out)
    }

    /// Parses a request from wire text: exactly what [`sdec_request`] says,
    /// value and error alike.
    pub fn from_json(text: &str) -> (r: Result<Self, DecodeError>)
        ensures
            match sdec_request(text@) {
                Result::Ok(m) => r matches Result::Ok(req) && req@ == m,
                Result::Err(e) => r matches Result::Err(e2) && e2 == e,
            },
    {
        let v = chars_of(text);
        let n = v.len();
        proof {
            assert(v@.skip(0) =~= v@);
        }
        let i0 = p_ws(&v, 0);
        let ghost t = sp_ws(v@);
        if i0 >= n {
            return Result::Err(DecodeError::Syntax);
        }
        let c0 = v[i0];
        proof {
            assert(t[0] == v@[i0 as int]);
        }
        if c0 != '{' {
            return Result::Err(DecodeError::Syntax);
        }
        proof {
            assert(t.drop_first() =~= v@.skip(i0 as int + 1));
        }
        let mut j = p_ws(&v, i0 + 1);
        let mut mm: Option<String> = Option::None;
        let mut pp: Option<Vec<String>> = Option::None;
        let mut ii: Option<u64> = Option::None;
        let mut first: bool = true;
        let lit_method = String::from_str("method");
        let lit_params = String::from_str("params");
        let lit_id = String::from_str("id");
        loop
            invariant
                j <= n,
                n == v@.len(),
                v@ == text@,
                lit_method@ == "method"@,
                lit_params@ == "params"@,
                lit_id@ == "id"@,
                sdec_request(text@) == sreq_wrap(
                    sreq_members(
                        v@.skip(j as int),
                        ReqSlots {
                            method: opt_str_view(mm),
                            params: opt_strs_view(pp),
                            id: ii,
                        },
                        first,
                    ),
                ),
            decreases n - j,
        {
            let ghost s = v@.skip(j as int);
            let ghost sl = ReqSlots { method: opt_str_view(mm), params: opt_strs_view(pp), id: ii };
            if j >= n {
                return Result::Err(DecodeError::Syntax);
            }
            let c = v[j];
            proof {
                assert(s[0] == v@[j as int]);
            }
            if first && c == '}' {
                proof {
                    assert(s.drop_first() =~= v@.skip(j as int + 1));
                }
                if mm.is_some() && pp.is_some() && ii.is_some() {
                    let req = SubscriptionRequest {
                        method: mm.unwrap(),
                        params: pp.unwrap(),
                        id: ii.unwrap(),
                    };
                    let j2 = p_ws(&v, j + 1);
                    if j2 < n {
                        return Result::Err(DecodeError::Syntax);
                    }
                    proof {
                        assert(v@.skip(j2 as int) =~= Seq::<char>::empty());
                    }
                    return Result::Ok(req);
                } else {
                    return Result::Err(DecodeError::MissingField);
                }
            }
            if c != '"' {
                return Result::Err(DecodeError::Syntax);
            }
            match crate::jstring::p_string(&v, j) {
                Option::None => {
                    return Result::Err(DecodeError::Syntax);
                },
                Option::Some((key, j1)) => {
                    let j2 = p_ws(&v, j1);
                    let ghost r2 = sp_ws(v@.skip(j1 as int));
                    if j2 >= n {
                        return Result::Err(DecodeError::Syntax);
                    }
                    let cc = v[j2];
                    proof {
                        assert(r2[0] == v@[j2 as int]);
                    }
                    if cc != ':' {
                        return Result::Err(DecodeError::Syntax);
                    }
                    proof {
                        assert(r2.drop_first() =~= v@.skip(j2 as int + 1));
                    }
                    let j3 = p_ws(&v, j2 + 1);
                    let j4: usize;
                    if key == lit_method {
                        if mm.is_some() {
                            return Result::Err(DecodeError::DuplicateField);
                        }
                        match p_string_field(&v, j3) {
                            Result::Ok((x, jj)) => {
                                mm = Option::Some(x);
                                j4 = jj;
                            },
                            Result::Err(e) => {
                                return Result::Err(e);
                            },
                        }
                    } else if key == lit_params {
                        if pp.is_some() {
                            return Result::Err(DecodeError::DuplicateField);
                        }
                        match p_str_array(&v, j3) {
                            Result::Ok((xs, jj)) => {
                                pp = Option::Some(xs);
                                j4 = jj;
                            },
                            Result::Err(e) => {
                                return Result::Err(e);
                            },
                        }
                    } else if key == lit_id {
                        if ii.is_some() {
                            return Result::Err(DecodeError::DuplicateField);
                        }
                        match p_u64_field(&v, j3) {
                            Result::Ok((x, jj)) => {
                                ii = Option::Some(x);
                                j4 = jj;
                            },
                            Result::Err(e) => {
                                return Result::Err(e);
                            },
                        }
                    } else {
                        return Result::Err(DecodeError::UnknownField);
                    }
                    let ghost sl2 = ReqSlots {
                        method: opt_str_view(mm),
                        params: opt_strs_view(pp),
                        id: ii,
                    };
                    proof {
                        assert(sreq_value(key@, sp_ws(r2.drop_first()), sl) == Result::<
                            (ReqSlots, Seq<char>),
                            DecodeError,
                        >::Ok((sl2, v@.skip(j4 as int))));
                    }
                    let j5 = p_ws(&v, j4);
                    let ghost r5 = sp_ws(v@.skip(j4 as int));
                    if j5 >= n {
                        return Result::Err(DecodeError::Syntax);
                    }
                    let c2 = v[j5];
                    proof {
                        assert(r5[0] == v@[j5 as int]);
                    }
                    if c2 == '}' {
                        proof {
                            assert(r5.drop_first() =~= v@.skip(j5 as int + 1));
                        }
                        if mm.is_some() && pp.is_some() && ii.is_some() {
                            let req = SubscriptionRequest {
                                method: mm.unwrap(),
                                params: pp.unwrap(),
                                id: ii.unwrap(),
                            };
                            let j6 = p_ws(&v, j5 + 1);
                            if j6 < n {
                                return Result::Err(DecodeError::Syntax);
                            }
                            proof {
                                assert(v@.skip(j6 as int) =~= Seq::<char>::empty());
                            }
                            return Result::Ok(req);
                        } else {
                            return Result::Err(DecodeError::MissingField);
                        }
                    } else if c2 == ',' {
                        proof {
                            assert(r5.drop_first() =~= v@.skip(j5 as int + 1));
                        }
                        j = p_ws(&v, j5 + 1);
                        first = false;
                    } else {
                        return Result::Err(DecodeError::Syntax);
                    }
                },
            }
        }
    }
}

// ---- the round trip --------------------------------------------------------

proof fn lemma_req_keys_differ()
    ensures
        "params"@ != "method"@,
        "id"@ != "method"@,
        "id"@ != "params"@,
{
    reveal_strlit("params");
    reveal_strlit("method");
    reveal_strlit("id");
    assert("params"@[0] == 'p');
    assert("method"@[0] == 'm');
    assert("id"@.len() == 2);
    assert("method"@.len() == 6);
    assert("params"@.len() == 6);
}

#[verifier::rlimit(60)]
proof fn lemma_rt_id(idv: u64, sl: ReqSlots)
    requires
        sl.id is None,
    ensures
        sreq_members(wire_tail_id(idv), sl, false) == sreq_finish(
            ReqSlots { id: Option::Some(idv), ..sl },
            Seq::<char>::empty(),
        ),
{
    let a = wire_tail_id(idv);
    let b = seq![':'] + dec_digits(idv) + seq!['}'];
    assert(a =~= seq!['"'] + (esc_seq("id"@) + seq!['"'] + b));
    assert(a[0] == '"');
    assert(a.drop_first() =~= esc_seq("id"@) + seq!['"'] + b);
    lemma_sp_esc("id"@, b);
    assert(sp_string(a) == Option::Some(("id"@, b)));
    assert(b[0] == ':');
    lemma_sp_ws_nop(b);
    let c = dec_digits(idv) + seq!['}'];
    assert(b.drop_first() =~= c);
    lemma_req_keys_differ();
    lemma_dec_digits_val(idv);
    assert(c[0] == dec_digits(idv)[0]);
    assert(is_digit(c[0]));
    lemma_sp_ws_nop(c);
    lemma_sp_u64_digits(idv, seq!['}']);
    let d = seq!['}'];
    assert(!is_digit('}'));
    assert(d[0] == '}');
    assert(sp_u64_field(c) == Result::<(u64, Seq<char>), DecodeError>::Ok((idv, d)));
    let sl2 = ReqSlots { id: Option::Some(idv), ..sl };
    assert(sreq_value("id"@, c, sl) == Result::<(ReqSlots, Seq<char>), DecodeError>::Ok((sl2, d)));
    lemma_sp_ws_nop(d);
    assert(d.drop_first() =~= Seq::<char>::empty());
}

#[verifier::rlimit(60)]
proof fn lemma_rt_params(ps: Seq<Seq<char>>, idv: u64, sl: ReqSlots)
    requires
        sl.params is None,
    ensures
        sreq_members(wire_tail_params(ps, idv), sl, false) == sreq_members(
            wire_tail_id(idv),
            ReqSlots { params: Option::Some(ps), ..sl },
            false,
        ),
{
    let a = wire_tail_params(ps, idv);
    let d = seq![','] + wire_tail_id(idv);
    let b = seq![':'] + (arr_wire(ps) + d);
    assert(a =~= seq!['"'] + (esc_seq("params"@) + seq!['"'] + b));
    assert(a[0] == '"');
    assert(a.drop_first() =~= esc_seq("params"@) + seq!['"'] + b);
    lemma_sp_esc("params"@, b);
    assert(sp_string(a) == Option::Some(("params"@, b)));
    assert(b[0] == ':');
    lemma_sp_ws_nop(b);
    let c = arr_wire(ps) + d;
    assert(b.drop_first() =~= c);
    lemma_req_keys_differ();
    assert(c[0] == arr_wire(ps)[0]);
    assert(c[0] == '[');
    lemma_sp_ws_nop(c);
    lemma_sp_str_array_wire(ps, d);
    let sl2 = ReqSlots { params: Option::Some(ps), ..sl };
    assert(sreq_value("params"@, c, sl) == Result::<(ReqSlots, Seq<char>), DecodeError>::Ok(
        (sl2, d),
    ));
    assert(d[0] == ',');
    lemma_sp_ws_nop(d);
    assert(d.drop_first() =~= wire_tail_id(idv));
    assert(wire_tail_id(idv)[0] == jstr_wire("id"@)[0]);
    assert(wire_tail_id(idv)[0] == '"');
    lemma_sp_ws_nop(wire_tail_id(idv));
}

#[verifier::rlimit(60)]
proof fn lemma_rt_method(m: ReqModel, sl: ReqSlots)
    requires
        sl.method is None,
    ensures
        sreq_members(wire_tail_method(m), sl, true) == sreq_members(
            wire_tail_params(m.params, m.id),
            ReqSlots { method: Option::Some(m.method), ..sl },
            false,
        ),
{
    let a = wire_tail_method(m);
    let d = seq![','] + wire_tail_params(m.params, m.id);
    let b = seq![':'] + (jstr_wire(m.method) + d);
    assert(a =~= seq!['"'] + (esc_seq("method"@) + seq!['"'] + b));
    assert(a[0] == '"');
    assert(a.drop_first() =~= esc_seq("method"@) + seq!['"'] + b);
    lemma_sp_esc("method"@, b);
    assert(sp_string(a) == Option::Some(("method"@, b)));
    assert(b[0] == ':');
    lemma_sp_ws_nop(b);
    let c = jstr_wire(m.method) + d;
    assert(b.drop_first() =~= c);
    assert(c[0] == '"');
    lemma_sp_ws_nop(c);
    assert(c.drop_first() =~= esc_seq(m.method) + seq!['"'] + d);
    lemma_sp_esc(m.method, d);
    assert(sp_string_field(c) == Result::<(Seq<char>, Seq<char>), DecodeError>::Ok(
        (m.method, d),
    ));
    let sl2 = ReqSlots { method: Option::Some(m.method), ..sl };
    assert(sreq_value("method"@, c, sl) == Result::<(ReqSlots, Seq<char>), DecodeError>::Ok(
        (sl2, d),
    ));
    assert(d[0] == ',');
    lemma_sp_ws_nop(d);
    assert(d.drop_first() =~= wire_tail_params(m.params, m.id));
    assert(wire_tail_params(m.params, m.id)[0] == jstr_wire("params"@)[0]);
    assert(wire_tail_params(m.params, m.id)[0] == '"');
    lemma_sp_ws_nop(wire_tail_params(m.params, m.id));
}

/// Encoding then decoding gives the request back, whatever its method,
/// stream names and id.
#[verifier::rlimit(60)]
pub proof fn lemma_request_round_trip(m: ReqModel)
    ensures
        sdec_request(req_wire(m)) == Result::<ReqModel, DecodeError>::Ok(m),
{
    let w = req_wire(m);
    let sl0 = ReqSlots { method: Option::None, params: Option::None, id: Option::None };
    let a1 = wire_tail_method(m);
    assert(w =~= seq!['{'] + a1);
    assert(w[0] == '{');
    lemma_sp_ws_nop(w);
    assert(w.drop_first() =~= a1);
    assert(a1[0] == jstr_wire("method"@)[0]);
    assert(a1[0] == '"');
    lemma_sp_ws_nop(a1);
    lemma_rt_method(m, sl0);
    let sl1 = ReqSlots { method: Option::Some(m.method), ..sl0 };
    lemma_rt_params(m.params, m.id, sl1);
    let sl2 = ReqSlots { params: Option::Some(m.params), ..sl1 };
    lemma_rt_id(m.id, sl2);
    let sl3 = ReqSlots { id: Option::Some(m.id), ..sl2 };
    assert(sreq_finish(sl3, Seq::<char>::empty()) == Result::<
        (ReqModel, Seq<char>),
        DecodeError,
    >::Ok((m, Seq::<char>::empty())));
    lemma_sp_ws_nop(Seq::<char>::empty());
    assert(sdec_request(w) == Result::<ReqModel, DecodeError>::Ok(m));
}

} // verus!
