//! Wire framing: the JSON text of every outbound event is built here, and a
//! message body submitted through it decodes back to the value submitted.
//!
//! Text is escaped the way JSON string literals ask: quote, backslash and the
//! named control characters get a two-character escape, every other control
//! character a lowercase `\u00..` escape, and everything else stands as
//! itself. `unescape_text` inverts exactly that encoding.

use vstd::prelude::*;

verus! {

/// The hexadecimal digit for `n`, lowercase.
pub open spec fn hex_digit(n: int) -> char {
    if n == 0 {
        '0'
    } else if n == 1 {
        '1'
    } else if n == 2 {
        '2'
    } else if n == 3 {
        '3'
    } else if n == 4 {
        '4'
    } else if n == 5 {
        '5'
    } else if n == 6 {
        '6'
    } else if n == 7 {
        '7'
    } else if n == 8 {
        '8'
    } else if n == 9 {
        '9'
    } else if n == 10 {
        'a'
    } else if n == 11 {
        'b'
    } else if n == 12 {
        'c'
    } else if n == 13 {
        'd'
    } else if n == 14 {
        'e'
    } else {
        'f'
    }
}

/// The value of a lowercase hexadecimal digit, or -1.
pub open spec fn hex_value(c: char) -> int {
    if c == '0' {
        0
    } else if c == '1' {
        1
    } else if c == '2' {
        2
    } else if c == '3' {
        3
    } else if c == '4' {
        4
    } else if c == '5' {
        5
    } else if c == '6' {
        6
    } else if c == '7' {
        7
    } else if c == '8' {
        8
    } else if c == '9' {
        9
    } else if c == 'a' {
        10
    } else if c == 'b' {
        11
    } else if c == 'c' {
        12
    } else if c == 'd' {
        13
    } else if c == 'e' {
        14
    } else if c == 'f' {
        15
    } else {
        -1
    }
}

/// How one character is written inside a JSON string literal.
pub open spec fn escape_char(c: char) -> Seq<char> {
    if c == '"' {
        seq!['\\', '"']
    } else if c == '\\' {
        seq!['\\', '\\']
    } else if c == '\n' {
        seq!['\\', 'n']
    } else if c == '\r' {
        seq!['\\', 'r']
    } else if c == '\t' {
        seq!['\\', 't']
    } else if (c as u32) < 0x20 {
        seq!['\\', 'u', '0', '0', hex_digit((c as u32) as int / 16), hex_digit((c as u32) as int % 16)]
    } else {
        seq![c]
    }
}

/// How a text is written inside a JSON string literal.
pub open spec fn escape_text(s: Seq<char>) -> Seq<char>
    decreases s.len(),
{
    if s.len() == 0 {
        Seq::<char>::empty()
    } else {
        escape_char(s[0]) + escape_text(s.drop_first())
    }
}

/// `Some(head + tail)` when the tail decoded, `None` otherwise.
pub open spec fn prepend_decoded(head: Seq<char>, tail: Option<Seq<char>>) -> Option<Seq<char>> {
    match tail {
        Some(t) => Some(head + t),
        None => None,
    }
}

/// The text a JSON string literal's inside stands for: the inverse of
/// `escape_text`. Unescaped quotes and control characters are refused, as is
/// any escape that `escape_text` does not produce.
pub open spec fn unescape_text(s: Seq<char>) -> Option<Seq<char>>
    decreases s.len(),
{
    if s.len() == 0 {
        Some(Seq::<char>::empty())
    } else if s[0] == '\\' {
        if s.len() < 2 {
            None
        } else if s[1] == '"' {
            prepend_decoded(seq!['"'], unescape_text(s.skip(2)))
        } else if s[1] == '\\' {
            prepend_decoded(seq!['\\'], unescape_text(s.skip(2)))
        } else if s[1] == 'n' {
            prepend_decoded(seq!['\n'], unescape_text(s.skip(2)))
        } else if s[1] == 'r' {
            prepend_decoded(seq!['\r'], unescape_text(s.skip(2)))
        } else if s[1] == 't' {
            prepend_decoded(seq!['\t'], unescape_text(s.skip(2)))
        } else if s[1] == 'u' {
            if s.len() < 6 {
                None
            } else if s[2] == '0' && s[3] == '0' && hex_value(s[4]) >= 0 && hex_value(s[5]) >= 0 {
                prepend_decoded(
                    seq![(hex_value(s[4]) * 16 + hex_value(s[5])) as char],
                    unescape_text(s.skip(6)),
                )
            } else {
                None
            }
        } else {
            None
        }
    } else if s[0] == '"' || (s[0] as u32) < 0x20 {
        None
    } else {
        prepend_decoded(seq![s[0]], unescape_text(s.drop_first()))
    }
}

/// Escaping distributes over concatenation.
pub proof fn lemma_escape_append(a: Seq<char>, b: Seq<char>)
    ensures
        escape_text(a + b) == escape_text(a) + escape_text(b),
    decreases a.len(),
{
    if a.len() == 0 {
        assert(a + b =~= b);
        assert(escape_text(a) + escape_text(b) =~= escape_text(b));
    } else {
        assert((a + b)[0] == a[0]);
        assert((a + b).drop_first() =~= a.drop_first() + b);
        lemma_escape_append(a.drop_first(), b);
        assert(escape_char(a[0]) + (escape_text(a.drop_first()) + escape_text(b)) =~= (escape_char(
            a[0],
        ) + escape_text(a.drop_first())) + escape_text(b));
    }
}

/// Law: decoding inverts encoding — a text written through `escape_text` and
/// read back through `unescape_text` is returned unchanged.
pub proof fn lemma_unescape_escape(s: Seq<char>)
    ensures
        unescape_text(escape_text(s)) == Some(s),
    decreases s.len(),
{
    if s.len() == 0 {
    } else {
        let c = s[0];
        let rest = s.drop_first();
        lemma_unescape_escape(rest);
        let e = escape_char(c);
        let t = escape_text(rest);
        let w = e + t;
        assert(escape_text(s) == w);
        assert(seq![c] + rest =~= s);
        if c == '"' || c == '\\' || c == '\n' || c == '\r' || c == '\t' {
            assert(w[0] == '\\');
            assert(w[1] == e[1]);
            assert(w.skip(2) =~= t);
        } else if (c as u32) < 0x20 {
            let v = (c as u32) as int;
            assert(0 <= v < 0x20);
            assert(0 <= v / 16 < 2 && 0 <= v % 16 < 16) by (nonlinear_arith)
                requires
                    0 <= v < 0x20,
            ;
            assert(w[0] == '\\' && w[1] == 'u' && w[2] == '0' && w[3] == '0');
            assert(w[4] == hex_digit(v / 16) && w[5] == hex_digit(v % 16));
            assert(hex_value(hex_digit(v / 16)) == v / 16);
            assert(hex_value(hex_digit(v % 16)) == v % 16);
            assert((v / 16) * 16 + v % 16 == v) by (nonlinear_arith);
            vstd::utf8::char_u32_cast(c, c as u32);
            assert(((v / 16) * 16 + v % 16) as char == c);
            assert(w.skip(6) =~= t);
        } else {
            assert(w[0] == c);
            assert(w.drop_first() =~= t);
        }
    }
}

/// The digit character for `n`.
pub open spec fn dec_digit(n: int) -> char {
    if n == 0 {
        '0'
    } else if n == 1 {
        '1'
    } else if n == 2 {
        '2'
    } else if n == 3 {
        '3'
    } else if n == 4 {
        '4'
    } else if n == 5 {
        '5'
    } else if n == 6 {
        '6'
    } else if n == 7 {
        '7'
    } else if n == 8 {
        '8'
    } else {
        '9'
    }
}

/// The decimal digits of `n`, most significant first.
pub open spec fn dec_rep(n: nat) -> Seq<char>
    decreases n,
{
    if n < 10 {
        seq![dec_digit(n as int)]
    } else {
        dec_rep(n / 10) + seq![dec_digit((n % 10) as int)]
    }
}

/// The JSON string literal for `s`, quotes included.
pub open spec fn json_string(s: Seq<char>) -> Seq<char> {
    seq!['"'] + escape_text(s) + seq!['"']
}

/// The JSON text of a boolean.
pub open spec fn json_bool(b: bool) -> Seq<char> {
    if b {
        "true"@
    } else {
        "false"@
    }
}

/// The digit character for `n`.
fn dec_digit_char(n: u64) -> (r: char)
    requires
        n < 10,
    ensures
        r == dec_digit(n as int),
{
    if n == 0 {
        '0'
    } else if n == 1 {
        '1'
    } else if n == 2 {
        '2'
    } else if n == 3 {
        '3'
    } else if n == 4 {
        '4'
    } else if n == 5 {
        '5'
    } else if n == 6 {
        '6'
    } else if n == 7 {
        '7'
    } else if n == 8 {
        '8'
    } else {
        '9'
    }
}

/// The hexadecimal digit character for `n`, lowercase.
fn hex_digit_char(n: u32) -> (r: char)
    requires
        n < 16,
    ensures
        r == hex_digit(n as int),
{
    if n == 0 {
        '0'
    } else if n == 1 {
        '1'
    } else if n == 2 {
        '2'
    } else if n == 3 {
        '3'
    } else if n == 4 {
        '4'
    } else if n == 5 {
        '5'
    } else if n == 6 {
        '6'
    } else if n == 7 {
        '7'
    } else if n == 8 {
        '8'
    } else if n == 9 {
        '9'
    } else if n == 10 {
        'a'
    } else if n == 11 {
        'b'
    } else if n == 12 {
        'c'
    } else if n == 13 {
        'd'
    } else if n == 14 {
        'e'
    } else {
        'f'
    }
}

/// Appends the decimal digits of `n`.
pub fn push_u64(out: &mut Vec<char>, n: u64)
    ensures
        final(out)@ == old(out)@ + dec_rep(n as nat),
    decreases n,
{
    if n < 10 {
        out.push(dec_digit_char(n));
        proof {
            assert(final(out)@ =~= old(out)@ + dec_rep(n as nat));
        }
    } else {
        push_u64(out, n / 10);
        out.push(dec_digit_char(n % 10));
        proof {
            assert(final(out)@ =~= old(out)@ + dec_rep(n as nat));
        }
    }
}

/// Appends the escape of one character.
fn push_escaped_char(out: &mut Vec<char>, c: char)
    ensures
        final(out)@ == old(out)@ + escape_char(c),
{
    if c == '"' {
        out.push('\\');
        out.push('"');
    } else if c == '\\' {
        out.push('\\');
        out.push('\\');
    } else if c == '\n' {
        out.push('\\');
        out.push('n');
    } else if c == '\r' {
        out.push('\\');
        out.push('r');
    } else if c == '\t' {
        out.push('\\');
        out.push('t');
    } else if (c as u32) < 0x20 {
        let v = c as u32;
        out.push('\\');
        out.push('u');
        out.push('0');
        out.push('0');
        out.push(hex_digit_char(v / 16));
        out.push(hex_digit_char(v % 16));
    } else {
        out.push(c);
    }
    proof {
        assert(final(out)@ =~= old(out)@ + escape_char(c));
    }
}

/// Appends the escape of `s`.
pub fn push_escaped(out: &mut Vec<char>, s: &str)
    ensures
        final(out)@ == old(out)@ + escape_text(s@),
{
    let n = s.unicode_len();
    let mut i: usize = 0;
    while i < n
        invariant
            0 <= i <= n == s@.len(),
            out@ == old(out)@ + escape_text(s@.subrange(0, i as int)),
        decreases n - i,
    {
        let c = s.get_char(i);
        push_escaped_char(out, c);
        proof {
            assert(s@.subrange(0, i + 1) =~= s@.subrange(0, i as int) + seq![c]);
            lemma_escape_append(s@.subrange(0, i as int), seq![c]);
            assert(escape_text(seq![c]) == escape_char(seq![c][0]) + escape_text(
                seq![c].drop_first(),
            ));
            assert(seq![c].drop_first() =~= Seq::<char>::empty());
            assert(escape_char(c) + escape_text(Seq::<char>::empty()) =~= escape_char(c));
            assert(out@ =~= old(out)@ + escape_text(s@.subrange(0, i + 1)));
        }
        i = i + 1;
    }
    proof {
        assert(s@.subrange(0, n as int) =~= s@);
    }
}

/// Appends the JSON string literal for `s`, quotes included.
pub fn push_json_string(out: &mut Vec<char>, s: &str)
    ensures
        final(out)@ == old(out)@ + json_string(s@),
{
    out.push('"');
    push_escaped(out, s);
    out.push('"');
    proof {
        assert(final(out)@ =~= old(out)@ + json_string(s@));
    }
}

/// Appends the JSON text of a boolean.
pub fn push_json_bool(out: &mut Vec<char>, b: bool)
    ensures
        final(out)@ == old(out)@ + json_bool(b),
{
    if b {
        out.push('t');
        out.push('r');
        out.push('u');
        out.push('e');
        proof {
            reveal_strlit("true");
            assert(final(out)@ =~= old(out)@ + json_bool(b));
        }
    } else {
        out.push('f');
        out.push('a');
        out.push('l');
        out.push('s');
        out.push('e');
        proof {
            reveal_strlit("false");
            assert(final(out)@ =~= old(out)@ + json_bool(b));
        }
    }
}

/// Appends the characters of `s` as they stand.
pub fn push_literal(out: &mut Vec<char>, s: &str)
    ensures
        final(out)@ == old(out)@ + s@,
{
    let n = s.unicode_len();
    let mut i: usize = 0;
    while i < n
        invariant
            0 <= i <= n == s@.len(),
            out@ == old(out)@ + s@.subrange(0, i as int),
        decreases n - i,
    {
        out.push(s.get_char(i));
        proof {
            assert(out@ =~= old(out)@ + s@.subrange(0, i + 1));
        }
        i = i + 1;
    }
    proof {
        assert(s@.subrange(0, n as int) =~= s@);
    }
}

/// The escape of `s`, as written inside a JSON string literal.
pub fn escape_string(s: &str) -> (r: Vec<char>)
    ensures
        r@ == escape_text(s@),
{
    let mut out: Vec<char> = Vec::new();
    push_escaped(&mut out, s);
    proof {
        assert(out@ =~= escape_text(s@));
    }
    out
}

/// Prepending one decoded character composes with prepending a prefix.
proof fn lemma_prepend_step(p: Seq<char>, x: char, o: Option<Seq<char>>)
    ensures
        prepend_decoded(p, prepend_decoded(seq![x], o)) == prepend_decoded(p.push(x), o),
{
    match o {
        Some(t) => {
            assert(p + (seq![x] + t) =~= p.push(x) + t);
        },
        None => {},
    }
}

/// Decodes the inside of a JSON string literal; `None` where the text is not
/// an encoding that `escape_text` produces.
pub fn unescape_chars(s: &Vec<char>) -> (r: Option<Vec<char>>)
    ensures
        match r {
            Some(v) => unescape_text(s@) == Some(v@),
            None => unescape_text(s@) is None,
        },
{
    let n = s.len();
    let mut out: Vec<char> = Vec::new();
    let mut i: usize = 0;
    proof {
        assert(s@.skip(0) =~= s@);
        if unescape_text(s@) is Some {
            assert(Seq::<char>::empty() + unescape_text(s@)->Some_0 =~= unescape_text(
                s@,
            )->Some_0);
        }
    }
    while i < n
        invariant
            0 <= i <= n == s@.len(),
            unescape_text(s@) == prepend_decoded(out@, unescape_text(s@.skip(i as int))),
        decreases n - i,
    {
        let ghost rem = s@.skip(i as int);
        proof {
            assert(rem[0] == s@[i as int]);
        }
        let c = s[i];
        if c == '"' || (c as u32) < 0x20 {
            return None;
        } else if c != '\\' {
            proof {
                assert(rem.drop_first() =~= s@.skip(i + 1));
                assert(unescape_text(rem) == prepend_decoded(
                    seq![c],
                    unescape_text(s@.skip(i + 1)),
                ));
                lemma_prepend_step(out@, c, unescape_text(s@.skip(i + 1)));
            }
            out.push(c);
            i = i + 1;
        } else if n - i < 2 {
            proof {
                assert(rem.len() < 2);
            }
            return None;
        } else {
            let d = s[i + 1];
            proof {
                assert(rem[1] == d);
            }
            if d == '"' || d == '\\' || d == 'n' || d == 'r' || d == 't' {
                let decoded: char = if d == '"' {
                    '"'
                } else if d == '\\' {
                    '\\'
                } else if d == 'n' {
                    '\n'
                } else if d == 'r' {
                    '\r'
                } else {
                    '\t'
                };
                proof {
                    assert(rem.skip(2) =~= s@.skip(i + 2));
                    assert(unescape_text(rem) == prepend_decoded(
                        seq![decoded],
                        unescape_text(s@.skip(i + 2)),
                    ));
                    lemma_prepend_step(out@, decoded, unescape_text(s@.skip(i + 2)));
                }
                out.push(decoded);
                i = i + 2;
            } else if d == 'u' {
                if n - i < 6 {
                    proof {
                        assert(rem.len() < 6);
                    }
                    return None;
                }
                let z1 = s[i + 2];
                let z2 = s[i + 3];
                let h1 = hex_value_of(s[i + 4]);
                let h2 = hex_value_of(s[i + 5]);
                proof {
                    assert(rem[2] == s@[i + 2] && rem[3] == s@[i + 3] && rem[4] == s@[i + 4]
                        && rem[5] == s@[i + 5]);
                }
                if z1 == '0' && z2 == '0' && h1 >= 0 && h2 >= 0 {
                    let code: u8 = (h1 as u8) * 16 + (h2 as u8);
                    let decoded: char = code as char;
                    proof {
                        assert(code as int == hex_value(rem[4]) * 16 + hex_value(rem[5]));
                        assert(decoded == (hex_value(rem[4]) * 16 + hex_value(rem[5])) as char);
                        assert(rem.skip(6) =~= s@.skip(i + 6));
                        assert(unescape_text(rem) == prepend_decoded(
                            seq![decoded],
                            unescape_text(s@.skip(i + 6)),
                        ));
                        lemma_prepend_step(out@, decoded, unescape_text(s@.skip(i + 6)));
                    }
                    out.push(decoded);
                    i = i + 6;
                } else {
                    return None;
                }
            } else {
                return None;
            }
        }
    }
    proof {
        assert(s@.skip(n as int) =~= Seq::<char>::empty());
    }
    Some(out)
}

/// The value of a lowercase hexadecimal digit, or -1.
fn hex_value_of(c: char) -> (r: i8)
    ensures
        r as int == hex_value(c),
{
    if c == '0' {
        0
    } else if c == '1' {
        1
    } else if c == '2' {
        2
    } else if c == '3' {
        3
    } else if c == '4' {
        4
    } else if c == '5' {
        5
    } else if c == '6' {
        6
    } else if c == '7' {
        7
    } else if c == '8' {
        8
    } else if c == '9' {
        9
    } else if c == 'a' {
        10
    } else if c == 'b' {
        11
    } else if c == 'c' {
        12
    } else if c == 'd' {
        13
    } else if c == 'e' {
        14
    } else if c == 'f' {
        15
    } else {
        -1
    }
}

} // verus!
