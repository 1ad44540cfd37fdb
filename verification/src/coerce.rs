use vstd::prelude::*;

use crate::error::DecodeError;
use crate::jstring::{p_string, sp_string};
use crate::scan::{p_bool, p_ws, value_start_exec};
use crate::text::chars_of;
use crate::value::{sp_bool, sp_ws, value_start};

verus! {

/// What the string-or-boolean coercion yields for one JSON value: the
/// string's content, or a boolean's textual form (`true` / `false`).
/// Every other JSON type — number, object, array, null — is refused with
/// the dedicated error.
pub open spec fn sp_string_or_bool(s: Seq<char>) -> Result<Seq<char>, DecodeError> {
    let t = sp_ws(s);
    if t.len() == 0 {
        Result::Err(DecodeError::Syntax)
    } else if t[0] == '"' {
        match sp_string(t) {
            Option::Some((x, r)) => if sp_ws(r).len() == 0 {
                Result::Ok(x)
            } else {
                Result::Err(DecodeError::Syntax)
            },
            Option::None => Result::Err(DecodeError::Syntax),
        }
    } else {
        match sp_bool(t) {
            Option::Some((b, r)) => if sp_ws(r).len() == 0 {
                Result::Ok(
                    if b {
                        "true"@
                    } else {
                        "false"@
                    },
                )
            } else {
                Result::Err(DecodeError::Syntax)
            },
            Option::None => if value_start(t[0]) {
                Result::Err(DecodeError::StringOrBool)
            } else {
                Result::Err(DecodeError::Syntax)
            },
        }
    }
}

/// The reusable string-or-boolean decode strategy: reads one JSON value
/// from `text` and coerces it to a string as [`sp_string_or_bool`] says.
pub fn decode_string_or_bool(text: &str) -> (r: Result<String, DecodeError>)
    ensures
        match sp_string_or_bool(text@) {
            Result::Ok(x) => r matches Result::Ok(sv) && sv@ == x,
            Result::Err(e) => r matches Result::Err(e2) && e2 == e,
        },
{
    let v = chars_of(text);
    let n = v.len();
    proof {
        assert(v@.skip(0) =~= v@);
    }
    let i0 = p_ws(&v, 0);
    let ghost t = sp_ws(v@);
    if i0 >= n {
        return Result::Err(DecodeError::Syntax);
    }
    let c = v[i0];
    proof {
        assert(t[0] == v@[i0 as int]);
    }
    if c == '"' {
        match p_string(&v, i0) {
            Option::Some((x, j)) => {
                let j2 = p_ws(&v, j);
                if j2 < n {
                    Result::Err(DecodeError::Syntax)
                } else {
                    proof {
                        assert(v@.skip(j2 as int) =~= Seq::<char>::empty());
                    }
                    Result::Ok(x)
                }
            },
            Option::None => Result::Err(DecodeError::Syntax),
        }
    } else {
        match p_bool(&v, i0) {
            Option::Some((b, j)) => {
                let j2 = p_ws(&v, j);
                if j2 < n {
                    Result::Err(DecodeError::Syntax)
                } else {
                    proof {
                        assert(v@.skip(j2 as int) =~= Seq::<char>::empty());
                    }
                    if b {
                        Result::Ok(String::from_str("true"))
                    } else {
                        Result::Ok(String::from_str("false"))
                    }
                }
            },
            Option::None => {
                if value_start_exec(c) {
                    Result::Err(DecodeError::StringOrBool)
                } else {
                    Result::Err(DecodeError::Syntax)
                }
            },
        }
    }
}

} // verus!
