use vstd::prelude::*;

use crate::decimal::{sp_decimal, DecModel, Decimal};
use crate::error::DecodeError;
use crate::jstring::{lemma_sp_string_shrinks, sp_string};
use crate::request::opt_str_view;
use crate::scan::{p_bool_field, p_string_field, p_u64_field, p_ws};
use crate::text::chars_of;
use crate::value::{
    lemma_sp_string_field_shrinks, lemma_sp_u64_field_shrinks, lemma_sp_bool_field_shrinks,
    lemma_sp_ws_shrinks, sp_bool_field, sp_string_field, sp_u64_field, sp_ws,
};

verus! {

/// Mathematical image of a [`Trade`].
pub ghost struct TradeModel {
    pub event_type: Seq<char>,
    pub event_time: u64,
    pub symbol: Seq<char>,
    pub trade_id: u64,
    pub price: DecModel,
    pub quantity: DecModel,
    pub trade_time: u64,
    pub is_buyer_market_maker: bool,
    pub ignore: bool,
}

/// One executed trade tick, decoded from the single-letter wire keys
/// `e`, `E`, `s`, `t`, `p`, `q`, `T`, `m`, `M`.
///
/// `price` and `quantity` travel as decimal strings on the wire and are
/// held as exact [`Decimal`] values in memory, never as text.
#[derive(Clone, Debug, PartialEq)]
pub struct Trade {
    pub event_type: String,
    pub event_time: u64,
    pub symbol: String,
    pub trade_id: u64,
    pub price: Decimal,
    pub quantity: Decimal,
    pub trade_time: u64,
    pub is_buyer_market_maker: bool,
    pub ignore: bool,
}

impl View for Trade {
    type V = TradeModel;

    open spec fn view(&self) -> TradeModel {
        TradeModel {
            event_type: self.event_type@,
            event_time: self.event_time,
            symbol: self.symbol@,
            trade_id: self.trade_id,
            price: self.price@,
            quantity: self.quantity@,
            trade_time: self.trade_time,
            is_buyer_market_maker: self.is_buyer_market_maker,
            ignore: self.ignore,
        }
    }
}

/// The slots of a trade object while its members are read.
pub ghost struct TradeSlots {
    pub event_type: Option<Seq<char>>,
    pub event_time: Option<u64>,
    pub symbol: Option<Seq<char>>,
    pub trade_id: Option<u64>,
    pub price: Option<DecModel>,
    pub quantity: Option<DecModel>,
    pub trade_time: Option<u64>,
    pub is_buyer_market_maker: Option<bool>,
    pub ignore: Option<bool>,
}

pub open spec fn opt_dec_view(o: Option<Decimal>) -> Option<DecModel> {
    match o {
        Option::Some(x) => Option::Some(x@),
        Option::None => Option::None,
    }
}

// ---- decoding, specified ---------------------------------------------------

/// Reads a field value that must be a decimal-in-a-string: a JSON string
/// whose content parses as [`sp_decimal`]; content that does not is a
/// number-format error.
pub open spec fn sp_dec_field(s: Seq<char>) -> Result<(DecModel, Seq<char>), DecodeError> {
    match sp_string_field(s) {
        Result::Err(e) => Result::Err(e),
        Result::Ok((x, r)) => match sp_decimal(x) {
            Option::Some(d) => Result::Ok((d, r)),
            Option::None => Result::Err(DecodeError::NumberFormat),
        },
    }
}

pub open spec fn sp_trade_finish(sl: TradeSlots, rem: Seq<char>) -> Result<
    (TradeModel, Seq<char>),
    DecodeError,
> {
    if sl.event_type is Some && sl.event_time is Some && sl.symbol is Some && sl.trade_id is Some
        && sl.price is Some && sl.quantity is Some && sl.trade_time is Some
        && sl.is_buyer_market_maker is Some && sl.ignore is Some {
        Result::Ok(
            (
                TradeModel {
                    event_type: sl.event_type.unwrap(),
                    event_time: sl.event_time.unwrap(),
                    symbol: sl.symbol.unwrap(),
                    trade_id: sl.trade_id.unwrap(),
                    price: sl.price.unwrap(),
                    quantity: sl.quantity.unwrap(),
                    trade_time: sl.trade_time.unwrap(),
                    is_buyer_market_maker: sl.is_buyer_market_maker.unwrap(),
                    ignore: sl.ignore.unwrap(),
                },
                rem,
            ),
        )
    } else {
        Result::Err(DecodeError::MissingField)
    }
}

pub open spec fn sp_trade_value(key: Seq<char>, s: Seq<char>, sl: TradeSlots) -> Result<
    (TradeSlots, Seq<char>),
    DecodeError,
> {
    if key == "e"@ {
        if sl.event_type is Some {
            Result::Err(DecodeError::DuplicateField)
        } else {
            match sp_string_field(s) {
                Result::Ok((x, r)) => Result::Ok(
                    (TradeSlots { event_type: Option::Some(x), ..sl }, r),
                ),
                Result::Err(e) => Result::Err(e),
            }
        }
    } else if key == "E"@ {
        if sl.event_time is Some {
            Result::Err(DecodeError::DuplicateField)
        } else {
            match sp_u64_field(s) {
                Result::Ok((x, r)) => Result::Ok(
                    (TradeSlots { event_time: Option::Some(x), ..sl }, r),
                ),
                Result::Err(e) => Result::Err(e),
            }
        }
    } else if key == "s"@ {
        if sl.symbol is Some {
            Result::Err(DecodeError::DuplicateField)
        } else {
            match sp_string_field(s) {
                Result::Ok((x, r)) => Result::Ok(
                    (TradeSlots { symbol: Option::Some(x), ..sl }, r),
                ),
                Result::Err(e) => Result::Err(e),
            }
        }
    } else if key == "t"@ {
        if sl.trade_id is Some {
            Result::Err(DecodeError::DuplicateField)
        } else {
            match sp_u64_field(s) {
                Result::Ok((x, r)) => Result::Ok(
                    (TradeSlots { trade_id: Option::Some(x), ..sl }, r),
                ),
                Result::Err(e) => Result::Err(e),
            }
        }
    } else if key == "p"@ {
        if sl.price is Some {
            Result::Err(DecodeError::DuplicateField)
        } else {
            match sp_dec_field(s) {
                Result::Ok((x, r)) => Result::Ok(
                    (TradeSlots { price: Option::Some(x), ..sl }, r),
                ),
                Result::Err(e) => Result::Err(e),
            }
        }
    } else if key == "q"@ {
        if sl.quantity is Some {
            Result::Err(DecodeError::DuplicateField)
        } else {
            match sp_dec_field(s) {
                Result::Ok((x, r)) => Result::Ok(
                    (TradeSlots { quantity: Option::Some(x), ..sl }, r),
                ),
                Result::Err(e) => Result::Err(e),
            }
        }
    } else if key == "T"@ {
        if sl.trade_time is Some {
            Result::Err(DecodeError::DuplicateField)
        } else {
            match sp_u64_field(s) {
                Result::Ok((x, r)) => Result::Ok(
                    (TradeSlots { trade_time: Option::Some(x), ..sl }, r),
                ),
                Result::Err(e) => Result::Err(e),
            }
        }
    } else if key == "m"@ {
        if sl.is_buyer_market_maker is Some {
            Result::Err(DecodeError::DuplicateField)
        } else {
            match sp_bool_field(s) {
                Result::Ok((x, r)) => Result::Ok(
                    (TradeSlots { is_buyer_market_maker: Option::Some(x), ..sl }, r),
                ),
                Result::Err(e) => Result::Err(e),
            }
        }
    } else if key == "M"@ {
        if sl.ignore is Some {
            Result::Err(DecodeError::DuplicateField)
        } else {
            match sp_bool_field(s) {
                Result::Ok((x, r)) => Result::Ok(
                    (TradeSlots { ignore: Option::Some(x), ..sl }, r),
                ),
                Result::Err(e) => Result::Err(e),
            }
        }
    } else {
        Result::Err(DecodeError::UnknownField)
    }
}

pub proof fn lemma_sp_trade_value_shrinks(key: Seq<char>, s: Seq<char>, sl: TradeSlots)
    ensures
        sp_trade_value(key, s, sl) matches Result::Ok((sl2, rem)) ==> rem.len() < s.len(),
{
    lemma_sp_string_field_shrinks(s);
    lemma_sp_u64_field_shrinks(s);
    lemma_sp_bool_field_shrinks(s);
}

/// Reads the members of a trade object; any order, each key at most once,
/// all nine required.
pub open spec fn sp_trade_members(s: Seq<char>, sl: TradeSlots, first: bool) -> Result<
    (TradeModel, Seq<char>),
    DecodeError,
>
    decreases s.len(),
    via sp_trade_members_dec
{
    if s.len() == 0 {
        Result::Err(DecodeError::Syntax)
    } else if first && s[0] == '}' {
        sp_trade_finish(sl, s.drop_first())
    } else if s[0] != '"' {
        Result::Err(DecodeError::Syntax)
    } else {
        match sp_string(s) {
            Option::None => Result::Err(DecodeError::Syntax),
            Option::Some((key, r1)) => {
                let r2 = sp_ws(r1);
                if r2.len() == 0 || r2[0] != ':' {
                    Result::Err(DecodeError::Syntax)
                } else {
                    let r3 = sp_ws(r2.drop_first());
                    match sp_trade_value(key, r3, sl) {
                        Result::Err(e) => Result::Err(e),
                        Result::Ok((sl2, r4)) => {
                            let r5 = sp_ws(r4);
                            if r5.len() == 0 {
                                Result::Err(DecodeError::Syntax)
                            } else if r5[0] == '}' {
                                sp_trade_finish(sl2, r5.drop_first())
                            } else if r5[0] == ',' {
                                sp_trade_members(sp_ws(r5.drop_first()), sl2, false)
                            } else {
                                Result::Err(DecodeError::Syntax)
                            }
                        },
                    }
                }
            },
        }
    }
}

#[via_fn]
proof fn sp_trade_members_dec(s: Seq<char>, sl: TradeSlots, first: bool) {
    if s.len() > 0 && !(first && s[0] == '}') && s[0] == '"' {
        lemma_sp_string_shrinks(s);
        match sp_string(s) {
            Option::Some((key, r1)) => {
                lemma_sp_ws_shrinks(r1);
                let r2 = sp_ws(r1);
                if r2.len() > 0 && r2[0] == ':' {
                    lemma_sp_ws_shrinks(r2.drop_first());
                    let r3 = sp_ws(r2.drop_first());
                    lemma_sp_trade_value_shrinks(key, r3, sl);
                    match sp_trade_value(key, r3, sl) {
                        Result::Ok((sl2, r4)) => {
                            lemma_sp_ws_shrinks(r4);
                            let r5 = sp_ws(r4);
                            if r5.len() > 0 && r5[0] == ',' {
                                lemma_sp_ws_shrinks(r5.drop_first());
                            }
                        },
                        Result::Err(e) => {},
                    }
                }
            },
            Option::None => {},
        }
    }
}

pub open spec fn sp_trade_wrap(r: Result<(TradeModel, Seq<char>), DecodeError>) -> Result<
    TradeModel,
    DecodeError,
> {
    match r {
        Result::Ok((m, rem)) => if sp_ws(rem).len() == 0 {
            Result::Ok(m)
        } else {
            Result::Err(DecodeError::Syntax)
        },
        Result::Err(e) => Result::Err(e),
    }
}

/// What decoding a trade from wire text yields, for every input.
pub open spec fn sdec_trade(s: Seq<char>) -> Result<TradeModel, DecodeError> {
    let t = sp_ws(s);
    if t.len() == 0 || t[0] != '{' {
        Result::Err(DecodeError::Syntax)
    } else {
        sp_trade_wrap(
            sp_trade_members(
                sp_ws(t.drop_first()),
                TradeSlots {
                    event_type: Option::None,
                    event_time: Option::None,
                    symbol: Option::None,
                    trade_id: Option::None,
                    price: Option::None,
                    quantity: Option::None,
                    trade_time: Option::None,
                    is_buyer_market_maker: Option::None,
                    ignore: Option::None,
                },
                true,
            ),
        )
    }
}

// ---- the executable codec --------------------------------------------------

/// The member slots of a trade object while it is read.
struct Fields {
    e: Option<String>,
    et: Option<u64>,
    s: Option<String>,
    t: Option<u64>,
    p: Option<Decimal>,
    q: Option<Decimal>,
    tt: Option<u64>,
    m: Option<bool>,
    mm: Option<bool>,
}

spec fn fields_view(f: Fields) -> TradeSlots {
    TradeSlots {
        event_type: opt_str_view(f.e),
        event_time: f.et,
        symbol: opt_str_view(f.s),
        trade_id: f.t,
        price: opt_dec_view(f.p),
        quantity: opt_dec_view(f.q),
        trade_time: f.tt,
        is_buyer_market_maker: f.m,
        ignore: f.mm,
    }
}

/// Reads the value of the member named `key` into its slot.
#[verifier::rlimit(100)]
fn apply_member(v: &Vec<char>, i: usize, key: &String, f: Fields) -> (r: Result<
    (Fields, usize),
    DecodeError,
>)
    requires
        i <= v@.len(),
    ensures
        match sp_trade_value(key@, v@.skip(i as int), fields_view(f)) {
            Result::Ok((sl2, rem)) => {
                &&& r matches Result::Ok((f2, j))
                &&& fields_view(f2) == sl2
                &&& i <= j <= v@.len()
                &&& v@.skip(j as int) == rem
            },
            Result::Err(e) => r matches Result::Err(e2) && e2 == e,
        },
{
    let mut f = f;
    if *key == String::from_str("e") {
        if f.e.is_some() {
            return Result::Err(DecodeError::DuplicateField);
        }
        match p_string_field(v, i) {
            Result::Ok((x, j)) => {
                f.e = Option::Some(x);
                Result::Ok((f, j))
            },
            Result::Err(e) => Result::Err(e),
        }
    } else if *key == String::from_str("E") {
        if f.et.is_some() {
            return Result::Err(DecodeError::DuplicateField);
        }
        match p_u64_field(v, i) {
            Result::Ok((x, j)) => {
                f.et = Option::Some(x);
                Result::Ok((f, j))
            },
            Result::Err(e) => Result::Err(e),
        }
    } else if *key == String::from_str("s") {
        if f.s.is_some() {
            return Result::Err(DecodeError::DuplicateField);
        }
        match p_string_field(v, i) {
            Result::Ok((x, j)) => {
                f.s = Option::Some(x);
                Result::Ok((f, j))
            },
            Result::Err(e) => Result::Err(e),
        }
    } else if *key == String::from_str("t") {
        if f.t.is_some() {
            return Result::Err(DecodeError::DuplicateField);
        }
        match p_u64_field(v, i) {
            Result::Ok((x, j)) => {
                f.t = Option::Some(x);
                Result::Ok((f, j))
            },
            Result::Err(e) => Result::Err(e),
        }
    } else if *key == String::from_str("p") {
        if f.p.is_some() {
            return Result::Err(DecodeError::DuplicateField);
        }
        match Trade::p_dec_field(v, i) {
            Result::Ok((x, j)) => {
                f.p = Option::Some(x);
                Result::Ok((f, j))
            },
            Result::Err(e) => Result::Err(e),
        }
    } else if *key == String::from_str("q") {
        if f.q.is_some() {
            return Result::Err(DecodeError::DuplicateField);
        }
        match Trade::p_dec_field(v, i) {
            Result::Ok((x, j)) => {
                f.q = Option::Some(x);
                Result::Ok((f, j))
            },
            Result::Err(e) => Result::Err(e),
        }
    } else if *key == String::from_str("T") {
        if f.tt.is_some() {
            return Result::Err(DecodeError::DuplicateField);
        }
        match p_u64_field(v, i) {
            Result::Ok((x, j)) => {
                f.tt = Option::Some(x);
                Result::Ok((f, j))
            },
            Result::Err(e) => Result::Err(e),
        }
    } else if *key == String::from_str("m") {
        if f.m.is_some() {
            return Result::Err(DecodeError::DuplicateField);
        }
        match p_bool_field(v, i) {
            Result::Ok((x, j)) => {
                f.m = Option::Some(x);
                Result::Ok((f, j))
            },
            Result::Err(e) => Result::Err(e),
        }
    } else if *key == String::from_str("M") {
        if f.mm.is_some() {
            return Result::Err(DecodeError::DuplicateField);
        }
        match p_bool_field(v, i) {
            Result::Ok((x, j)) => {
                f.mm = Option::Some(x);
                Result::Ok((f, j))
            },
            Result::Err(e) => Result::Err(e),
        }
    } else {
        Result::Err(DecodeError::UnknownField)
    }
}

/// Builds the record once the object is closed; `None` where a member is
/// missing.
fn finish_fields(f: Fields) -> (r: Option<Trade>)
    ensures
        match sp_trade_finish(fields_view(f), Seq::<char>::empty()) {
            Result::Ok((m, rem)) => r matches Option::Some(tr) && tr@ == m,
            Result::Err(e) => r is None,
        },
{
    if f.e.is_some() && f.et.is_some() && f.s.is_some() && f.t.is_some() && f.p.is_some()
        && f.q.is_some() && f.tt.is_some() && f.m.is_some() && f.mm.is_some() {
        Option::Some(
            Trade {
                event_type: f.e.unwrap(),
                event_time: f.et.unwrap(),
                symbol: f.s.unwrap(),
                trade_id: f.t.unwrap(),
                price: f.p.unwrap(),
                quantity: f.q.unwrap(),
                trade_time: f.tt.unwrap(),
                is_buyer_market_maker: f.m.unwrap(),
                ignore: f.mm.unwrap(),
            },
        )
    } else {
        Option::None
    }
}

impl Trade {
    /// Parses a trade from wire text: exactly what [`sdec_trade`] says,
    /// value and error alike. `p` and `q` must be decimal strings; a
    /// string there that is no decimal is a number-format error.
    #[verifier::rlimit(100)]
    #[verifier::spinoff_prover]
    pub fn from_json(text: &str) -> (r: Result<Self, DecodeError>)
        ensures
            match sdec_trade(text@) {
                Result::Ok(m) => r matches Result::Ok(tr) && tr@ == m,
                Result::Err(e) => r matches Result::Err(e2) && e2 == e,
            },
    {
        let v = chars_of(text);
        let n = v.len();
        proof {
            assert(v@.skip(0) =~= v@);
        }
        let i0 = p_ws(&v, 0);
        let ghost t = sp_ws(v@);
        if i0 >= n {
            return Result::Err(DecodeError::Syntax);
        }
        let c0 = v[i0];
        proof {
            assert(t[0] == v@[i0 as int]);
        }
        if c0 != '{' {
            return Result::Err(DecodeError::Syntax);
        }
        proof {
            assert(t.drop_first() =~= v@.skip(i0 as int + 1));
        }
        let mut j = p_ws(&v, i0 + 1);
        let mut fields = Fields {
            e: Option::None,
            et: Option::None,
            s: Option::None,
            t: Option::None,
            p: Option::None,
            q: Option::None,
            tt: Option::None,
            m: Option::None,
            mm: Option::None,
        };
        let mut first: bool = true;
        loop
            invariant
                j <= n,
                n == v@.len(),
                v@ == text@,
                sdec_trade(text@) == sp_trade_wrap(
                    sp_trade_members(v@.skip(j as int), fields_view(fields), first),
                ),
            decreases n - j,
        {
            let ghost s = v@.skip(j as int);
            let ghost sl = fields_view(fields);
            if j >= n {
                return Result::Err(DecodeError::Syntax);
            }
            let c = v[j];
            proof {
                assert(s[0] == v@[j as int]);
            }
            if first && c == '}' {
                proof {
                    assert(s.drop_first() =~= v@.skip(j as int + 1));
                }
                match finish_fields(fields) {
                    Option::None => {
                        return Result::Err(DecodeError::MissingField);
                    },
                    Option::Some(tr) => {
                        let j2 = p_ws(&v, j + 1);
                        if j2 < n {
                            return Result::Err(DecodeError::Syntax);
                        }
                        proof {
                            assert(v@.skip(j2 as int) =~= Seq::<char>::empty());
                        }
                        return Result::Ok(tr);
                    },
                }
            }
            if c != '"' {
                return Result::Err(DecodeError::Syntax);
            }
            match crate::jstring::p_string(&v, j) {
                Option::None => {
                    return Result::Err(DecodeError::Syntax);
                },
                Option::Some((key, j1)) => {
                    let j2 = p_ws(&v, j1);
                    let ghost r2 = sp_ws(v@.skip(j1 as int));
                    if j2 >= n {
                        return Result::Err(DecodeError::Syntax);
                    }
                    let cc = v[j2];
                    proof {
                        assert(r2[0] == v@[j2 as int]);
                    }
                    if cc != ':' {
                        return Result::Err(DecodeError::Syntax);
                    }
                    proof {
                        assert(r2.drop_first() =~= v@.skip(j2 as int + 1));
                    }
                    let j3 = p_ws(&v, j2 + 1);
                    let j4: usize;
                    match apply_member(&v, j3, &key, fields) {
                        Result::Ok((f2, jj)) => {
                            fields = f2;
                            j4 = jj;
                        },
                        Result::Err(e) => {
                            return Result::Err(e);
                        },
                    }
                    let j5 = p_ws(&v, j4);
                    let ghost r5 = sp_ws(v@.skip(j4 as int));
                    if j5 >= n {
                        return Result::Err(DecodeError::Syntax);
                    }
                    let c2 = v[j5];
                    proof {
                        assert(r5[0] == v@[j5 as int]);
                    }
                    if c2 == '}' {
                        proof {
                            assert(r5.drop_first() =~= v@.skip(j5 as int + 1));
                        }
                        match finish_fields(fields) {
                            Option::None => {
                                return Result::Err(DecodeError::MissingField);
                            },
                            Option::Some(tr) => {
                                let j6 = p_ws(&v, j5 + 1);
                                if j6 < n {
                                    return Result::Err(DecodeError::Syntax);
                                }
                                proof {
                                    assert(v@.skip(j6 as int) =~= Seq::<char>::empty());
                                }
                                return Result::Ok(tr);
                            },
                        }
                    } else if c2 == ',' {
                        proof {
                            assert(r5.drop_first() =~= v@.skip(j5 as int + 1));
                        }
                        j = p_ws(&v, j5 + 1);
                        first = false;
                    } else {
                        return Result::Err(DecodeError::Syntax);
                    }
                },
            }
        }
    }

    /// Reads a decimal-in-a-string field value.
    fn p_dec_field(v: &Vec<char>, i: usize) -> (r: Result<(Decimal, usize), DecodeError>)
        requires
            i <= v@.len(),
        ensures
            match sp_dec_field(v@.skip(i as int)) {
                Result::Ok((d, rem)) => {
                    &&& r matches Result::Ok((dd, j))
                    &&& dd@ == d
                    &&& i <= j <= v@.len()
                    &&& v@.skip(j as int) == rem
                },
                Result::Err(e) => r matches Result::Err(e2) && e2 == e,
            },
    {
        match p_string_field(v, i) {
            Result::Err(e) => Result::Err(e),
            Result::Ok((x, j)) => {
                let cs = chars_of(x.as_str());
                match Decimal::parse_chars(&cs) {
                    Option::Some(d) => Result::Ok((d, j)),
                    Option::None => Result::Err(DecodeError::NumberFormat),
                }
            },
        }
    }
}

} // verus!
