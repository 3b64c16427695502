//! Rendering payloads as text, for the message hook of a transaction.
//!
//! The spec functions here say exactly which characters a rendering has:
//! decimal digits for integers, a bracketed comma-separated list for integer
//! sequences, and plain quoting (no escapes) for text in debug form.

use vstd::prelude::*;

use crate::value::Value;
use crate::value::ValueModel;

verus! {

/// The character of one decimal digit.
pub open spec fn digit_char(d: int) -> char
    recommends
        0 <= d < 10,
{
    ((d + 48) as u8) as char
}

/// The decimal digits of `n`, most significant first.
pub open spec fn dec_digits(n: nat) -> Seq<char>
    decreases n,
{
    if n < 10 {
        seq![digit_char(n as int)]
    } else {
        dec_digits(n / 10) + seq![digit_char((n % 10) as int)]
    }
}

/// The decimal rendering of an integer, with a leading minus when negative.
pub open spec fn dec_int(n: int) -> Seq<char> {
    if n < 0 {
        seq!['-'] + dec_digits((-n) as nat)
    } else {
        dec_digits(n as nat)
    }
}

/// The renderings of the elements, joined by a comma and a space.
pub open spec fn joined(s: Seq<int>) -> Seq<char>
    decreases s.len(),
{
    if s.len() == 0 {
        Seq::<char>::empty()
    } else if s.len() == 1 {
        dec_int(s[0])
    } else {
        joined(s.drop_last()) + seq![',', ' '] + dec_int(s.last())
    }
}

/// A bracketed, comma-separated list of the elements.
pub open spec fn list_text(s: Seq<int>) -> Seq<char> {
    seq!['['] + joined(s) + seq![']']
}

/// How a payload shows itself: an integer as its decimal digits, a list
/// bracketed, text as itself.
pub open spec fn display_model(v: ValueModel) -> Seq<char> {
    match v {
        ValueModel::Int(n) => dec_int(n),
        ValueModel::Ints(s) => list_text(s),
        ValueModel::Text(t) => t,
    }
}

/// How a payload shows itself for inspection: as in display, except that
/// text is wrapped in double quotes (plainly, without escaping).
pub open spec fn debug_model(v: ValueModel) -> Seq<char> {
    match v {
        ValueModel::Int(n) => dec_int(n),
        ValueModel::Ints(s) => list_text(s),
        ValueModel::Text(t) => seq!['"'] + t + seq!['"'],
    }
}

/// The one-character string of a decimal digit.
fn digit_str(d: u8) -> (r: &'static str)
    requires
        d < 10,
    ensures
        r@ == seq![digit_char(d as int)],
{
    let r: &'static str = match d {
        0 => "0",
        1 => "1",
        2 => "2",
        3 => "3",
        4 => "4",
        5 => "5",
        6 => "6",
        7 => "7",
        8 => "8",
        _ => "9",
    };
    proof {
        reveal_strlit("0");
        reveal_strlit("1");
        reveal_strlit("2");
        reveal_strlit("3");
        reveal_strlit("4");
        reveal_strlit("5");
        reveal_strlit("6");
        reveal_strlit("7");
        reveal_strlit("8");
        reveal_strlit("9");
        assert(r@ =~= seq![digit_char(d as int)]);
    }
    r
}

/// Renders an unsigned integer in decimal, one recursion per digit.
pub fn render_u64(n: u64) -> (s: String)
    ensures
        s@ == dec_digits(n as nat),
    decreases n,
{
    if n < 10 {
        String::from_str(digit_str(n as u8))
    } else {
        let mut s = render_u64(n / 10);
        s.append(digit_str((n % 10) as u8));
        s
    }
}

/// Renders a signed integer in decimal.
pub fn render_i64(n: i64) -> (s: String)
    ensures
        s@ == dec_int(n as int),
{
    if n >= 0 {
        render_u64(n as u64)
    } else {
        let stepped: i64 = n + 1;
        let magnitude: u64 = ((-stepped) as u64) + 1;
        proof {
            assert(magnitude == -(n as int));
        }
        let mut s = String::from_str("-");
        let digits = render_u64(magnitude);
        s.append(digits.as_str());
        proof {
            reveal_strlit("-");
            assert(s@ =~= dec_int(n as int));
        }
        s
    }
}

/// Renders a payload as it displays itself.
pub fn render_display(v: &Value) -> (s: String)
    ensures
        s@ == display_model(v@),
{
    match v {
        Value::Int(n) => render_i64(*n),
        Value::Text(t) => t.clone(),
        Value::Ints(items) => render_list(items),
    }
}

/// Renders a payload for inspection.
pub fn render_debug(v: &Value) -> (s: String)
    ensures
        s@ == debug_model(v@),
{
    match v {
        Value::Int(n) => render_i64(*n),
        Value::Ints(items) => render_list(items),
        Value::Text(t) => {
            let mut s = String::from_str("\"");
            s.append(t.as_str());
            s.append("\"");
            proof {
                reveal_strlit("\"");
                assert(s@ =~= debug_model(v@));
            }
            s
        },
    }
}

/// Renders a bracketed, comma-separated list of integers.
fn render_list(items: &Vec<i64>) -> (s: String)
    ensures
        s@ == list_text(items@.map_values(|x: i64| x as int)),
{
    let ghost model = items@.map_values(|x: i64| x as int);
    let mut s = String::from_str("[");
    proof {
        reveal_strlit("[");
        assert(s@ =~= seq!['['] + joined(model.take(0)));
    }
    let mut j: usize = 0;
    while j < items.len()
        invariant
            0 <= j <= items@.len(),
            model == items@.map_values(|x: i64| x as int),
            model.len() == items@.len(),
            s@ == seq!['['] + joined(model.take(j as int)),
        decreases items@.len() - j,
    {
        if j > 0 {
            s.append(", ");
        }
        let part = render_i64(items[j]);
        s.append(part.as_str());
        proof {
            reveal_strlit(", ");
            let p = model.take(j as int);
            let p2 = model.take(j as int + 1);
            assert(p2.drop_last() =~= p);
            assert(p2.last() == model[j as int]);
            if j == 0 {
                assert(joined(p2) == dec_int(model[0]));
            } else {
                assert(joined(p2) == joined(p) + seq![',', ' '] + dec_int(model[j as int]));
            }
            assert(s@ =~= seq!['['] + joined(p2));
        }
        j = j + 1;
    }
    s.append("]");
    proof {
        reveal_strlit("]");
        assert(model.take(model.len() as int) =~= model);
        assert(s@ =~= list_text(model));
    }
    s
}

} // verus!
