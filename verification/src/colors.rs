//! The color table: turns a comma-separated attribute list into a terminal
//! escape sequence.

use vstd::prelude::*;
use vstd::string::{StrSliceExecFns, StringExecFns};
use crate::text::{
    dec_of, has_prefix, hex_body, hex_u8_valid, hex_value, join_char, parse_hex_u8, push_char,
    split_all, split_char, starts_with_str, str_eq, u64_to_dec,
};

verus! {

/// Whether one attribute is known: a named attribute or foreground color,
/// or `0x` followed by a palette index.
pub open spec fn color_attr_valid(a: Seq<char>) -> bool {
    ||| a == "reset"@
    ||| a == "bold"@
    ||| a == "default"@
    ||| a == "black"@
    ||| a == "red"@
    ||| a == "green"@
    ||| a == "yellow"@
    ||| a == "blue"@
    ||| a == "magenta"@
    ||| a == "cyan"@
    ||| a == "white"@
    ||| (has_prefix(a, "0x"@) && hex_u8_valid(a.skip(2)))
}

/// The numeric code of one attribute; the empty sequence for an unknown one.
pub open spec fn color_attr_code(a: Seq<char>) -> Seq<char> {
    if a == "reset"@ {
        "0"@
    } else if a == "bold"@ {
        "1"@
    } else if a == "default"@ {
        "39"@
    } else if a == "black"@ {
        "30"@
    } else if a == "red"@ {
        "31"@
    } else if a == "green"@ {
        "32"@
    } else if a == "yellow"@ {
        "33"@
    } else if a == "blue"@ {
        "34"@
    } else if a == "magenta"@ {
        "35"@
    } else if a == "cyan"@ {
        "36"@
    } else if a == "white"@ {
        "37"@
    } else if has_prefix(a, "0x"@) && hex_u8_valid(a.skip(2)) {
        "38;5;"@ + dec_of(hex_value(hex_body(a.skip(2))))
    } else {
        Seq::empty()
    }
}

/// The escape sequence an attribute list stands for, when every attribute is
/// known: the codes joined by `;` between `ESC [` and `m`.
pub open spec fn color_escape_of(s: Seq<char>) -> Option<Seq<char>> {
    let attrs = split_all(s, ',');
    if forall|i: int| 0 <= i < attrs.len() ==> color_attr_valid(#[trigger] attrs[i]) {
        Some(
            seq!['\u{1b}', '['] + join_char(
                attrs.map_values(|a: Seq<char>| color_attr_code(a)),
                ';',
            ) + seq!['m'],
        )
    } else {
        Option::None
    }
}

/// The code of one attribute.
fn attr_code(a: &str) -> (r: Option<String>)
    ensures
        r is Some <==> color_attr_valid(a@),
        r matches Some(c) ==> c@ == color_attr_code(a@),
{
    if str_eq(a, "reset") {
        Some("0".to_owned())
    } else if str_eq(a, "bold") {
        Some("1".to_owned())
    } else if str_eq(a, "default") {
        Some("39".to_owned())
    } else if str_eq(a, "black") {
        Some("30".to_owned())
    } else if str_eq(a, "red") {
        Some("31".to_owned())
    } else if str_eq(a, "green") {
        Some("32".to_owned())
    } else if str_eq(a, "yellow") {
        Some("33".to_owned())
    } else if str_eq(a, "blue") {
        Some("34".to_owned())
    } else if str_eq(a, "magenta") {
        Some("35".to_owned())
    } else if str_eq(a, "cyan") {
        Some("36".to_owned())
    } else if str_eq(a, "white") {
        Some("37".to_owned())
    } else if starts_with_str(a, "0x") {
        proof {
            reveal_strlit("0x");
        }
        let alen = a.unicode_len();
        let suffix = a.substring_char(2, alen);
        proof {
            assert(suffix@ == a@.skip(2));
        }
        match parse_hex_u8(suffix) {
            Some(b) => {
                let mut s = "38;5;".to_owned();
                let d = u64_to_dec(b as u64);
                s.append(d.as_str());
                Some(s)
            },
            Option::None => Option::None,
        }
    } else {
        Option::None
    }
}

/// Parses an attribute list into its escape sequence; an unknown attribute
/// makes the whole list invalid.
#[verifier::loop_isolation(false)]
pub fn color_escape(s: &str) -> (r: Option<String>)
    ensures
        r is Some <==> color_escape_of(s@) is Some,
        r matches Some(v) ==> color_escape_of(s@) == Some(v@),
{
    let attrs = split_char(s, ',');
    let ghost adv = attrs.deep_view();
    let mut codes: Vec<String> = Vec::new();
    let mut i: usize = 0;
    while i < attrs.len()
        invariant
            0 <= i <= adv.len(),
            adv == split_all(s@, ','),
            codes.deep_view().len() == i,
            forall|j: int| 0 <= j < i ==> color_attr_valid(#[trigger] adv[j]),
            forall|j: int| 0 <= j < i ==> codes.deep_view()[j] == color_attr_code(#[trigger] adv[j]),
        decreases adv.len() - i,
    {
        proof {
            assert(adv[i as int] == attrs@[i as int]@);
        }
        match attr_code(attrs[i].as_str()) {
            Some(c) => {
                codes.push(c);
            },
            Option::None => {
                proof {
                    assert(!color_attr_valid(adv[i as int]));
                }
                return Option::None;
            },
        }
        i += 1;
    }
    let mut out = String::new();
    push_char(&mut out, '\u{1b}');
    push_char(&mut out, '[');
    let joined = crate::text::join_char_exec(&codes, ';');
    out.append(joined.as_str());
    push_char(&mut out, 'm');
    proof {
        assert(codes.deep_view() =~= adv.map_values(|a: Seq<char>| color_attr_code(a)));
        assert(out@ =~= seq!['\u{1b}', '['] + join_char(
            adv.map_values(|a: Seq<char>| color_attr_code(a)),
            ';',
        ) + seq!['m']);
    }
    Some(out)
}

} // verus!
