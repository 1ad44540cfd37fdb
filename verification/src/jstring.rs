use vstd::prelude::*;

use crate::text::{
    char_from_u32, char_of, chars_of, hex_char, hex_char_exec, hex_val, is_hex, lemma_char_of,
    lemma_hex_char_val,
};

verus! {

// ---- escaping (encode direction) ------------------------------------------

/// How one character appears inside an encoded JSON string: quote and
/// backslash get a backslash escape, the five named control characters
/// their short escape, any other control character a `\u00xx` escape, and
/// every other character stands as itself.
pub open spec fn esc_char(c: char) -> Seq<char> {
    if c == '"' { seq!['\\', '"'] }
    else if c == '\\' { seq!['\\', '\\'] }
    else if c == '\u{8}' { seq!['\\', 'b'] }
    else if c == '\u{9}' { seq!['\\', 't'] }
    else if c == '\u{a}' { seq!['\\', 'n'] }
    else if c == '\u{c}' { seq!['\\', 'f'] }
    else if c == '\u{d}' { seq!['\\', 'r'] }
    else if (c as u32) < 32 {
        seq!['\\', 'u', '0', '0', hex_char((c as u32) as int / 16), hex_char((c as u32) as int % 16)]
    }
    else { seq![c] }
}

/// The escaped form of a whole string (without the surrounding quotes).
pub open spec fn esc_seq(s: Seq<char>) -> Seq<char>
    decreases s.len(),
{
    if s.len() == 0 {
        Seq::empty()
    } else {
        esc_char(s[0]) + esc_seq(s.drop_first())
    }
}

/// The full wire form of a string value: quotes around the escaped body.
pub open spec fn jstr_wire(s: Seq<char>) -> Seq<char> {
    seq!['"'] + esc_seq(s) + seq!['"']
}

pub proof fn lemma_esc_seq_snoc(s: Seq<char>, c: char)
    ensures
        esc_seq(s.push(c)) == esc_seq(s) + esc_char(c),
    decreases s.len(),
{
    if s.len() == 0 {
        assert(s.push(c).drop_first() =~= Seq::<char>::empty());
        assert(s.push(c)[0] == c);
        reveal_with_fuel(esc_seq, 3);
        assert(esc_seq(s.push(c)) =~= esc_seq(s) + esc_char(c));
    } else {
        assert(s.push(c).drop_first() =~= s.drop_first().push(c));
        lemma_esc_seq_snoc(s.drop_first(), c);
        assert(esc_seq(s.push(c)) =~= esc_seq(s) + esc_char(c));
    }
}

/// Appends the escaped form of `t` to `out`.
pub(crate) fn push_escaped(t: &Vec<char>, out: &mut String)
    ensures
        final(out)@ == old(out)@ + esc_seq(t@),
{
    let mut k: usize = 0;
    while k < t.len()
        invariant
            k <= t@.len(),
            out@ == old(out)@ + esc_seq(t@.take(k as int)),
        decreases t@.len() - k,
    {
        let c = t[k];
        if c == '"' {
            out.push('\\');
            out.push('"');
        } else if c == '\\' {
            out.push('\\');
            out.push('\\');
        } else if c == '\u{8}' {
            out.push('\\');
            out.push('b');
        } else if c == '\u{9}' {
            out.push('\\');
            out.push('t');
        } else if c == '\u{a}' {
            out.push('\\');
            out.push('n');
        } else if c == '\u{c}' {
            out.push('\\');
            out.push('f');
        } else if c == '\u{d}' {
            out.push('\\');
            out.push('r');
        } else if (c as u32) < 32 {
            out.push('\\');
            out.push('u');
            out.push('0');
            out.push('0');
            out.push(hex_char_exec((c as u32) / 16));
            out.push(hex_char_exec((c as u32) % 16));
        } else {
            out.push(c);
        }
        proof {
            lemma_esc_seq_snoc(t@.take(k as int), c);
            assert(t@.take(k as int).push(c) =~= t@.take(k as int + 1));
            assert(out@ =~= old(out)@ + esc_seq(t@.take(k as int + 1)));
        }
        k = k + 1;
    }
    proof {
        assert(t@.take(t@.len() as int) =~= t@);
    }
}

// ---- parsing (decode direction) -------------------------------------------

/// The character a short backslash escape stands for, if the letter is one
/// of the eight recognized ones.
pub open spec fn simple_unescape(e: char) -> Option<char> {
    if e == '"' { Option::Some('"') }
    else if e == '\\' { Option::Some('\\') }
    else if e == '/' { Option::Some('/') }
    else if e == 'b' { Option::Some('\u{8}') }
    else if e == 't' { Option::Some('\u{9}') }
    else if e == 'n' { Option::Some('\u{a}') }
    else if e == 'f' { Option::Some('\u{c}') }
    else if e == 'r' { Option::Some('\u{d}') }
    else { Option::None }
}

pub open spec fn prepend_parse(c: char, r: Option<(Seq<char>, Seq<char>)>) -> Option<
    (Seq<char>, Seq<char>),
> {
    match r {
        Option::Some((v, rem)) => Option::Some((seq![c] + v, rem)),
        Option::None => Option::None,
    }
}

/// Reads the body of a JSON string, the opening quote already consumed:
/// the decoded content and what follows the closing quote. `None` on an
/// unterminated string, a bad escape, a `\u` escape naming a surrogate, or
/// a raw control character.
pub open spec fn sp_string_body(s: Seq<char>) -> Option<(Seq<char>, Seq<char>)>
    decreases s.len(),
{
    if s.len() == 0 {
        Option::None
    } else if s[0] == '"' {
        Option::Some((Seq::empty(), s.drop_first()))
    } else if s[0] == '\\' {
        if s.len() < 2 {
            Option::None
        } else if s[1] == 'u' {
            if s.len() >= 6 && is_hex(s[2]) && is_hex(s[3]) && is_hex(s[4]) && is_hex(s[5]) {
                let v: int = 4096 * hex_val(s[2]) + 256 * hex_val(s[3]) + 16 * hex_val(s[4])
                    + hex_val(s[5]);
                if 0xD800 <= v && v < 0xE000 {
                    Option::None
                } else {
                    prepend_parse(char_of(v as u32), sp_string_body(s.skip(6)))
                }
            } else {
                Option::None
            }
        } else {
            match simple_unescape(s[1]) {
                Option::Some(c) => prepend_parse(c, sp_string_body(s.skip(2))),
                Option::None => Option::None,
            }
        }
    } else if (s[0] as u32) < 32 {
        Option::None
    } else {
        prepend_parse(s[0], sp_string_body(s.drop_first()))
    }
}

/// Reads a JSON string value, opening quote included.
pub open spec fn sp_string(s: Seq<char>) -> Option<(Seq<char>, Seq<char>)> {
    if s.len() > 0 && s[0] == '"' {
        sp_string_body(s.drop_first())
    } else {
        Option::None
    }
}

pub proof fn lemma_sp_string_body_shrinks(s: Seq<char>)
    ensures
        sp_string_body(s) matches Option::Some((v, rem)) ==> rem.len() < s.len(),
    decreases s.len(),
{
    if s.len() == 0 {
    } else if s[0] == '"' {
    } else if s[0] == '\\' {
        if s.len() >= 2 {
            if s[1] == 'u' {
                if s.len() >= 6 {
                    lemma_sp_string_body_shrinks(s.skip(6));
                }
            } else {
                lemma_sp_string_body_shrinks(s.skip(2));
            }
        }
    } else {
        lemma_sp_string_body_shrinks(s.drop_first());
    }
}

pub proof fn lemma_sp_string_shrinks(s: Seq<char>)
    ensures
        sp_string(s) matches Option::Some((v, rem)) ==> rem.len() < s.len() - 1,
{
    if s.len() > 0 && s[0] == '"' {
        lemma_sp_string_body_shrinks(s.drop_first());
    }
}

/// Parsing inverts escaping: the escaped form of any string, followed by
/// the closing quote and anything else, reads back as exactly that string.
pub proof fn lemma_sp_esc(t: Seq<char>, rest: Seq<char>)
    ensures
        sp_string_body(esc_seq(t) + seq!['"'] + rest) == Option::Some((t, rest)),
    decreases t.len(),
{
    let s = esc_seq(t) + seq!['"'] + rest;
    if t.len() == 0 {
        assert(esc_seq(t) =~= Seq::<char>::empty());
        assert(s[0] == '"');
        assert(s.drop_first() =~= rest);
    } else {
        let c = t[0];
        let t1 = t.drop_first();
        let e = esc_char(c);
        let s1 = esc_seq(t1) + seq!['"'] + rest;
        assert(esc_seq(t) == e + esc_seq(t1));
        assert(s =~= e + s1);
        lemma_sp_esc(t1, rest);
        assert(seq![c] + t1 =~= t);
        if c == '"' || c == '\\' {
            assert(s[0] == '\\');
            assert(s[1] == c);
            assert(simple_unescape(c) == Option::Some(c));
            assert(s.skip(2) =~= s1);
        } else if c == '\u{8}' || c == '\u{9}' || c == '\u{a}' || c == '\u{c}' || c == '\u{d}' {
            assert(s[0] == '\\');
            assert(simple_unescape(s[1]) == Option::Some(c));
            assert(s.skip(2) =~= s1);
        } else if (c as u32) < 32 {
            let hi: int = (c as u32) as int / 16;
            let lo: int = (c as u32) as int % 16;
            assert(s[0] == '\\');
            assert(s[1] == 'u');
            assert(s[2] == '0');
            assert(s[3] == '0');
            assert(s[4] == hex_char(hi));
            assert(s[5] == hex_char(lo));
            lemma_hex_char_val(hi);
            lemma_hex_char_val(lo);
            assert(is_hex('0') && hex_val('0') == 0);
            let v: int = 4096 * hex_val(s[2]) + 256 * hex_val(s[3]) + 16 * hex_val(s[4]) + hex_val(
                s[5],
            );
            assert(v == 16 * hi + lo);
            assert(v == (c as u32) as int);
            lemma_char_of(c);
            assert(char_of(v as u32) == c);
            assert(s.skip(6) =~= s1);
        } else {
            assert(s[0] == c);
            assert(s.drop_first() =~= s1);
        }
    }
}

// ---- executable parser -----------------------------------------------------

fn hex_digit_of(c: char) -> (r: Option<u32>)
    ensures
        r matches Option::Some(d) ==> is_hex(c) && d == hex_val(c) && d < 16,
        r is None ==> !is_hex(c),
{
    let u = c as u32;
    if 48 <= u && u <= 57 {
        Option::Some(u - 48)
    } else if 97 <= u && u <= 102 {
        Option::Some(u - 87)
    } else if 65 <= u && u <= 70 {
        Option::Some(u - 55)
    } else {
        Option::None
    }
}

fn simple_unescape_exec(e: char) -> (r: Option<char>)
    ensures
        r == simple_unescape(e),
{
    if e == '"' { Option::Some('"') }
    else if e == '\\' { Option::Some('\\') }
    else if e == '/' { Option::Some('/') }
    else if e == 'b' { Option::Some('\u{8}') }
    else if e == 't' { Option::Some('\u{9}') }
    else if e == 'n' { Option::Some('\u{a}') }
    else if e == 'f' { Option::Some('\u{c}') }
    else if e == 'r' { Option::Some('\u{d}') }
    else { Option::None }
}

pub(crate) fn p_string_body(v: &Vec<char>, i: usize, out: &mut String) -> (r: Option<usize>)
    requires
        i <= v@.len(),
    ensures
        match sp_string_body(v@.skip(i as int)) {
            Option::Some((t, rem)) => {
                &&& r matches Option::Some(j)
                &&& i <= j <= v@.len()
                &&& final(out)@ == old(out)@ + t
                &&& v@.skip(j as int) == rem
            },
            Option::None => r is None,
        },
    decreases v@.len() - i,
{
    let n = v.len();
    let ghost s = v@.skip(i as int);
    if i >= n {
        return Option::None;
    }
    let c = v[i];
    proof {
        assert(s[0] == v@[i as int]);
    }
    if c == '"' {
        proof {
            assert(s.drop_first() =~= v@.skip(i as int + 1));
            assert(old(out)@ + Seq::<char>::empty() =~= old(out)@);
        }
        return Option::Some(i + 1);
    }
    if c == '\\' {
        if i + 1 >= n {
            return Option::None;
        }
        let e = v[i + 1];
        proof {
            assert(s[1] == v@[i as int + 1]);
        }
        if e == 'u' {
            if n - i < 6 {
                return Option::None;
            }
            proof {
                assert(s.len() >= 6);
                assert(s[2] == v@[i as int + 2]);
                assert(s[3] == v@[i as int + 3]);
                assert(s[4] == v@[i as int + 4]);
                assert(s[5] == v@[i as int + 5]);
            }
            let d2 = hex_digit_of(v[i + 2]);
            let d3 = hex_digit_of(v[i + 3]);
            let d4 = hex_digit_of(v[i + 4]);
            let d5 = hex_digit_of(v[i + 5]);
            if d2.is_none() || d3.is_none() || d4.is_none() || d5.is_none() {
                return Option::None;
            }
            let val: u32 = 4096 * d2.unwrap() + 256 * d3.unwrap() + 16 * d4.unwrap()
                + d5.unwrap();
            if 0xD800 <= val && val < 0xE000 {
                return Option::None;
            }
            match char_from_u32(val) {
                Option::Some(ch) => {
                    proof {
                        lemma_char_of(ch);
                    }
                    out.push(ch);
                    let r = p_string_body(v, i + 6, out);
                    proof {
                        assert(s.skip(6) =~= v@.skip(i as int + 6));
                    }
                    match r {
                        Option::Some(j) => {
                            proof {
                                let (t1, rem) = sp_string_body(v@.skip(
                                    i as int + 6,
                                )).unwrap();
                                assert(out@ =~= old(out)@ + (seq![ch] + t1));
                            }
                            return Option::Some(j);
                        },
                        Option::None => {
                            return Option::None;
                        },
                    }
                },
                Option::None => {
                    proof {
                        assert(false);
                    }
                    return Option::None;
                },
            }
        } else {
            match simple_unescape_exec(e) {
                Option::Some(ch) => {
                    out.push(ch);
                    let r = p_string_body(v, i + 2, out);
                    proof {
                        assert(s.skip(2) =~= v@.skip(i as int + 2));
                    }
                    match r {
                        Option::Some(j) => {
                            proof {
                                let (t1, rem) = sp_string_body(v@.skip(
                                    i as int + 2,
                                )).unwrap();
                                assert(out@ =~= old(out)@ + (seq![ch] + t1));
                            }
                            return Option::Some(j);
                        },
                        Option::None => {
                            return Option::None;
                        },
                    }
                },
                Option::None => {
                    return Option::None;
                },
            }
        }
    }
    if (c as u32) < 32 {
        return Option::None;
    }
    out.push(c);
    let r = p_string_body(v, i + 1, out);
    proof {
        assert(s.drop_first() =~= v@.skip(i as int + 1));
    }
    match r {
        Option::Some(j) => {
            proof {
                let (t1, rem) = sp_string_body(v@.skip(i as int + 1)).unwrap();
                assert(out@ =~= old(out)@ + (seq![c] + t1));
            }
            Option::Some(j)
        },
        Option::None => Option::None,
    }
}

/// Reads a JSON string value at position `i` of `v`: the decoded string
/// and the position after the closing quote.
pub(crate) fn p_string(v: &Vec<char>, i: usize) -> (r: Option<(String, usize)>)
    requires
        i <= v@.len(),
    ensures
        match sp_string(v@.skip(i as int)) {
            Option::Some((t, rem)) => {
                &&& r matches Option::Some((sv, j))
                &&& i < j <= v@.len()
                &&& sv@ == t
                &&& v@.skip(j as int) == rem
            },
            Option::None => r is None,
        },
{
    if i < v.len() && v[i] == '"' {
        proof {
            assert(v@.skip(i as int)[0] == v@[i as int]);
            assert(v@.skip(i as int).drop_first() =~= v@.skip(i as int + 1));
        }
        let mut out = String::new();
        match p_string_body(v, i + 1, &mut out) {
            Option::Some(j) => Option::Some((out, j)),
            Option::None => Option::None,
        }
    } else {
        proof {
            if i < v@.len() {
                assert(v@.skip(i as int)[0] == v@[i as int]);
            }
        }
        Option::None
    }
}


/// Appends the full wire form of a string value to `out`: quotes around
/// the escaped characters.
pub(crate) fn push_jstr(sv: &str, out: &mut String)
    ensures
        final(out)@ == old(out)@ + jstr_wire(sv@),
{
    let cs = chars_of(sv);
    out.push('"');
    push_escaped(&cs, out);
    out.push('"');
    proof {
        assert(out@ =~= old(out)@ + jstr_wire(sv@));
    }
}

} // verus!
