//! A CPU name made safe to stand inside a JSON string.

use vstd::prelude::*;
use vstd::string::{StrSliceExecFns, StringExecFns};
use crate::text::chars_of;

verus! {

broadcast use vstd::string::group_string_axioms;

/// The lower-case hexadecimal digit for `d` (`d < 16`).
pub open spec fn hex_digit(d: nat) -> char {
    seq!['0', '1', '2', '3', '4', '5', '6', '7', '8', '9', 'a', 'b', 'c', 'd', 'e', 'f'][d as int]
}

/// `c` is a JSON control character: below U+0020, so a JSON string cannot hold
/// it unescaped.
pub open spec fn is_control(c: char) -> bool {
    (c as u32) < 0x20
}

/// What stands for `c` in the JSON-safe text: a double quote becomes a single
/// quote, a backslash is escaped as `\\`, a control character as `\u00XX`, and
/// anything else stays.
pub open spec fn escape_char(c: char) -> Seq<char> {
    if c == '"' {
        seq!['\'']
    } else if c == '\\' {
        seq!['\\', '\\']
    } else if is_control(c) {
        seq!['\\', 'u', '0', '0', hex_digit((c as u32 / 16) as nat), hex_digit((c as u32 % 16) as nat)]
    } else {
        seq![c]
    }
}

/// `s` with each character replaced by what stands for it.
pub open spec fn json_safe_spec(s: Seq<char>) -> Seq<char>
    decreases s.len(),
{
    if s.len() == 0 {
        Seq::empty()
    } else {
        escape_char(s[0]) + json_safe_spec(s.drop_first())
    }
}

/// A character that may follow a backslash on its own in a JSON string.
pub open spec fn is_short_escape(c: char) -> bool {
    c == '"' || c == '\\' || c == '/' || c == 'b' || c == 'f' || c == 'n' || c == 'r' || c == 't'
}

/// A hexadecimal digit, of either case.
pub open spec fn is_hex(c: char) -> bool {
    ('0' <= c <= '9') || ('a' <= c <= 'f') || ('A' <= c <= 'F')
}

/// `t` can stand between the quotes of a JSON string (RFC 8259): no bare
/// double quote, no control character, and every backslash starts a short
/// escape or a `\u` with four hexadecimal digits.
pub open spec fn is_json_string_body(t: Seq<char>) -> bool
    decreases t.len(),
{
    if t.len() == 0 {
        true
    } else if t[0] == '"' || is_control(t[0]) {
        false
    } else if t[0] == '\\' {
        if t.len() >= 2 && is_short_escape(t[1]) {
            is_json_string_body(t.skip(2))
        } else if t.len() >= 6 && t[1] == 'u' && is_hex(t[2]) && is_hex(t[3]) && is_hex(t[4])
            && is_hex(t[5]) {
            is_json_string_body(t.skip(6))
        } else {
            false
        }
    } else {
        is_json_string_body(t.drop_first())
    }
}

/// Escaping a concatenation escapes each part.
pub proof fn lemma_json_safe_append(a: Seq<char>, b: Seq<char>)
    ensures
        json_safe_spec(a + b) == json_safe_spec(a) + json_safe_spec(b),
    decreases a.len(),
{
    if a.len() == 0 {
        assert(a + b =~= b);
        assert(json_safe_spec(a) =~= Seq::<char>::empty());
        assert(json_safe_spec(a) + json_safe_spec(b) =~= json_safe_spec(b));
    } else {
        lemma_json_safe_append(a.drop_first(), b);
        assert((a + b).drop_first() =~= a.drop_first() + b);
        assert(json_safe_spec(a + b) =~= json_safe_spec(a) + json_safe_spec(b));
    }
}

/// Characters that need no escape stand for themselves.
proof fn lemma_json_safe_plain(s: Seq<char>)
    requires
        forall|k: int| 0 <= k < s.len() ==> !(#[trigger] needs_escape(s[k])),
    ensures
        json_safe_spec(s) == s,
    decreases s.len(),
{
    if s.len() > 0 {
        lemma_json_safe_plain(s.drop_first());
        assert(!needs_escape(s[0]));
        assert(json_safe_spec(s) =~= s);
    }
}

/// `c` does not stand for itself in the JSON-safe text.
pub open spec fn needs_escape(c: char) -> bool {
    c == '"' || c == '\\' || is_control(c)
}

/// The JSON-safe text of any string can stand inside a JSON string.
pub proof fn lemma_json_safe_is_json_string_body(s: Seq<char>)
    ensures
        is_json_string_body(json_safe_spec(s)),
    decreases s.len(),
{
    if s.len() > 0 {
        lemma_json_safe_is_json_string_body(s.drop_first());
        let rest = json_safe_spec(s.drop_first());
        let e = escape_char(s[0]);
        let t = e + rest;
        assert(json_safe_spec(s) == t);
        if s[0] == '"' {
            assert(t.drop_first() =~= rest);
        } else if s[0] == '\\' {
            assert(t.skip(2) =~= rest);
        } else if is_control(s[0]) {
            let u = s[0] as u32;
            assert(u / 16 < 2 && u % 16 < 16);
            assert(is_hex(hex_digit((u / 16) as nat)));
            assert(is_hex(hex_digit((u % 16) as nat)));
            assert(t.skip(6) =~= rest);
        } else {
            assert(t.drop_first() =~= rest);
        }
    }
}

/// The value of a hexadecimal digit.
pub open spec fn hex_value(c: char) -> nat {
    if '0' <= c <= '9' {
        (c as u32 - '0' as u32) as nat
    } else if 'a' <= c <= 'f' {
        (c as u32 - 'a' as u32 + 10) as nat
    } else {
        (c as u32 - 'A' as u32 + 10) as nat
    }
}

/// The character a short escape stands for.
pub open spec fn short_escape_value(c: char) -> char {
    if c == 'b' {
        '\u{8}'
    } else if c == 'f' {
        '\u{c}'
    } else if c == 'n' {
        '\n'
    } else if c == 'r' {
        '\r'
    } else if c == 't' {
        '\t'
    } else {
        c
    }
}

/// The characters a JSON string body stands for, reading its escapes (a
/// `\u` escape is read as the character with that code).
pub open spec fn json_unescape(t: Seq<char>) -> Seq<char>
    decreases t.len(),
{
    if t.len() == 0 {
        Seq::empty()
    } else if t[0] == '\\' && t.len() >= 2 && is_short_escape(t[1]) {
        seq![short_escape_value(t[1])] + json_unescape(t.skip(2))
    } else if t[0] == '\\' && t.len() >= 6 && t[1] == 'u' {
        let code = 4096 * hex_value(t[2]) + 256 * hex_value(t[3]) + 16 * hex_value(t[4])
            + hex_value(t[5]);
        seq![(code as u32) as char] + json_unescape(t.skip(6))
    } else {
        seq![t[0]] + json_unescape(t.drop_first())
    }
}

/// `c` with a double quote turned into a single one.
pub open spec fn unquote_char(c: char) -> char {
    if c == '"' {
        '\''
    } else {
        c
    }
}

/// Reading the JSON-safe text back gives the original text with each double
/// quote replaced by a single quote, and nothing else changed.
pub proof fn lemma_json_safe_reads_back(s: Seq<char>)
    ensures
        json_unescape(json_safe_spec(s)) == s.map_values(|c: char| unquote_char(c)),
    decreases s.len(),
{
    let f = |c: char| unquote_char(c);
    if s.len() == 0 {
        assert(json_safe_spec(s) =~= Seq::<char>::empty());
        assert(s.map_values(f) =~= Seq::<char>::empty());
    } else {
        lemma_json_safe_reads_back(s.drop_first());
        let rest = json_safe_spec(s.drop_first());
        let e = escape_char(s[0]);
        let t = e + rest;
        assert(json_safe_spec(s) == t);
        assert(s.map_values(f) =~= seq![f(s[0])] + s.drop_first().map_values(f));
        if s[0] == '"' {
            assert(t.drop_first() =~= rest);
        } else if s[0] == '\\' {
            assert(t.skip(2) =~= rest);
        } else if is_control(s[0]) {
            let u = s[0] as u32;
            let hi = hex_digit((u / 16) as nat);
            let lo = hex_digit((u % 16) as nat);
            assert(hex_value(hi) == u / 16);
            assert(hex_value(lo) == u % 16);
            assert(t.skip(6) =~= rest);
            assert(4096 * hex_value(t[2]) + 256 * hex_value(t[3]) + 16 * hex_value(t[4])
                + hex_value(t[5]) == u);
            vstd::utf8::char_u32_cast(s[0], u);
        } else {
            assert(t.drop_first() =~= rest);
        }
        assert(json_unescape(t) =~= s.map_values(f));
    }
}

fn hex_digit_str(d: u32) -> (r: &'static str)
    requires
        d < 16,
    ensures
        r@ == seq![hex_digit(d as nat)],
{
    if d == 0 {
        proof {
            reveal_strlit("0");
        }
        assert("0"@ =~= seq!['0']);
        "0"
    } else if d == 1 {
        proof {
            reveal_strlit("1");
        }
        assert("1"@ =~= seq!['1']);
        "1"
    } else if d == 2 {
        proof {
            reveal_strlit("2");
        }
        assert("2"@ =~= seq!['2']);
        "2"
    } else if d == 3 {
        proof {
            reveal_strlit("3");
        }
        assert("3"@ =~= seq!['3']);
        "3"
    } else if d == 4 {
        proof {
            reveal_strlit("4");
        }
        assert("4"@ =~= seq!['4']);
        "4"
    } else if d == 5 {
        proof {
            reveal_strlit("5");
        }
        assert("5"@ =~= seq!['5']);
        "5"
    } else if d == 6 {
        proof {
            reveal_strlit("6");
        }
        assert("6"@ =~= seq!['6']);
        "6"
    } else if d == 7 {
        proof {
            reveal_strlit("7");
        }
        assert("7"@ =~= seq!['7']);
        "7"
    } else if d == 8 {
        proof {
            reveal_strlit("8");
        }
        assert("8"@ =~= seq!['8']);
        "8"
    } else if d == 9 {
        proof {
            reveal_strlit("9");
        }
        assert("9"@ =~= seq!['9']);
        "9"
    } else if d == 10 {
        proof {
            reveal_strlit("a");
        }
        assert("a"@ =~= seq!['a']);
        "a"
    } else if d == 11 {
        proof {
            reveal_strlit("b");
        }
        assert("b"@ =~= seq!['b']);
        "b"
    } else if d == 12 {
        proof {
            reveal_strlit("c");
        }
        assert("c"@ =~= seq!['c']);
        "c"
    } else if d == 13 {
        proof {
            reveal_strlit("d");
        }
        assert("d"@ =~= seq!['d']);
        "d"
    } else if d == 14 {
        proof {
            reveal_strlit("e");
        }
        assert("e"@ =~= seq!['e']);
        "e"
    } else {
        proof {
            reveal_strlit("f");
        }
        assert("f"@ =~= seq!['f']);
        "f"
    }
}

fn escape_str(c: char) -> (r: &'static str)
    requires
        c == '"' || c == '\\',
    ensures
        r@ == escape_char(c),
{
    if c == '"' {
        proof {
            reveal_strlit("'");
        }
        assert("'"@ =~= seq!['\'']);
        "'"
    } else {
        proof {
            reveal_strlit("\\\\");
        }
        assert("\\\\"@ =~= seq!['\\', '\\']);
        "\\\\"
    }
}

/// `s` made safe to stand inside a JSON string: a double quote becomes a
/// single quote, and backslashes and control characters are escaped.
pub fn json_safe(s: &str) -> (r: String)
    ensures
        r@ == json_safe_spec(s@),
        is_json_string_body(r@),
{
    let v = chars_of(s);
    let prefix = "\\u00";
    proof {
        reveal_strlit("\\u00");
    }
    assert(prefix@ =~= seq!['\\', 'u', '0', '0']);
    let mut r = String::new();
    let mut run: usize = 0;
    let mut i: usize = 0;
    assert(json_safe_spec(s@.take(0)) =~= r@);
    while i < v.len()
        invariant
            v@ == s@,
            prefix@ == seq!['\\', 'u', '0', '0'],
            run <= i <= v@.len(),
            r@ == json_safe_spec(s@.take(run as int)),
            forall|k: int| run <= k < i ==> !(#[trigger] needs_escape(s@[k])),
        decreases v.len() - i,
    {
        let c = v[i];
        let code = c as u32;
        if c == '"' || c == '\\' || code < 0x20 {
            let piece = s.substring_char(run, i);
            r.append(piece);
            if code < 0x20 {
                r.append(prefix);
                r.append(hex_digit_str(code / 16));
                r.append(hex_digit_str(code % 16));
            } else {
                r.append(escape_str(c));
            }
            proof {
                let mid = s@.subrange(run as int, i as int);
                lemma_json_safe_plain(mid);
                assert(s@.take(i + 1) =~= s@.take(run as int) + mid + seq![c]);
                lemma_json_safe_append(s@.take(run as int) + mid, seq![c]);
                lemma_json_safe_append(s@.take(run as int), mid);
                let one = seq![c];
                assert(one.drop_first() =~= Seq::<char>::empty());
                assert(json_safe_spec(one.drop_first()) == Seq::<char>::empty());
                assert(json_safe_spec(one) == escape_char(one[0]) + json_safe_spec(
                    one.drop_first(),
                ));
                assert(json_safe_spec(one) =~= escape_char(c));
                assert(r@ =~= json_safe_spec(s@.take(i + 1)));
            }
            run = i + 1;
        }
        i = i + 1;
    }
    let piece = s.substring_char(run, v.len());
    r.append(piece);
    proof {
        let mid = s@.subrange(run as int, s@.len() as int);
        lemma_json_safe_plain(mid);
        assert(s@ =~= s@.take(run as int) + mid);
        lemma_json_safe_append(s@.take(run as int), mid);
        lemma_json_safe_is_json_string_body(s@);
    }
    r
}

} // verus!
