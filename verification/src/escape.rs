//! String literal escaping for the text data format.
//!
//! Writers emit only `\\`, `\"`, `\n` and `\t`; everything else goes out
//! as raw UTF-8. Carriage return and newline are the same thing: CRLF and a
//! lone CR both become `\n`. Readers also accept `\r` (a newline) and the
//! legacy `\uXXXX`, which carries one byte of the UTF-8 encoding; the bytes
//! are reassembled into text at the end and must form valid UTF-8.

use vstd::prelude::*;
use vstd::utf8::*;
use crate::strings::{chars_of, string_push, push_utf8, string_from_utf8};

verus! {

/// The escaped body (without the surrounding quotes) of a literal holding `s`.
pub open spec fn escape_body(s: Seq<char>) -> Seq<char>
    decreases s.len(),
{
    if s.len() == 0 {
        Seq::empty()
    } else {
        let c = s[0];
        if c == '\\' {
            seq!['\\', '\\'] + escape_body(s.drop_first())
        } else if c == '"' {
            seq!['\\', '"'] + escape_body(s.drop_first())
        } else if c == '\n' {
            seq!['\\', 'n'] + escape_body(s.drop_first())
        } else if c == '\t' {
            seq!['\\', 't'] + escape_body(s.drop_first())
        } else if c == '\r' {
            if s.len() > 1 && s[1] == '\n' {
                seq!['\\', 'n'] + escape_body(s.skip(2))
            } else {
                seq!['\\', 'n'] + escape_body(s.drop_first())
            }
        } else {
            seq![c] + escape_body(s.drop_first())
        }
    }
}

/// The full quoted literal for `s`.
pub open spec fn quoted(s: Seq<char>) -> Seq<char> {
    seq!['"'] + escape_body(s) + seq!['"']
}

/// `s` with every CRLF pair and every lone CR replaced by a newline.
pub open spec fn normalize_newlines(s: Seq<char>) -> Seq<char>
    decreases s.len(),
{
    if s.len() == 0 {
        Seq::empty()
    } else if s[0] == '\r' {
        if s.len() > 1 && s[1] == '\n' {
            seq!['\n'] + normalize_newlines(s.skip(2))
        } else {
            seq!['\n'] + normalize_newlines(s.drop_first())
        }
    } else {
        seq![s[0]] + normalize_newlines(s.drop_first())
    }
}

/// The value of a hexadecimal digit, either case.
pub open spec fn hex_value(c: char) -> Option<u32> {
    if '0' <= c && c <= '9' {
        Some((c as u32 - '0' as u32) as u32)
    } else if 'a' <= c && c <= 'f' {
        Some((c as u32 - 'a' as u32 + 10) as u32)
    } else if 'A' <= c && c <= 'F' {
        Some((c as u32 - 'A' as u32 + 10) as u32)
    } else {
        None
    }
}

/// The value of the four hex digits `s[0..4]`, if all four are hex digits.
pub open spec fn hex4(s: Seq<char>) -> Option<int> {
    if s.len() < 4 {
        None
    } else {
        match (hex_value(s[0]), hex_value(s[1]), hex_value(s[2]), hex_value(s[3])) {
            (Some(a), Some(b), Some(c), Some(d)) => Some(a * 4096 + b * 256 + c * 16 + d as int),
            _ => None,
        }
    }
}

/// The bytes a literal body stands for, before they are read as UTF-8, or
/// `None` on an invalid escape.
pub open spec fn body_bytes(s: Seq<char>) -> Option<Seq<u8>>
    decreases s.len(),
{
    if s.len() == 0 {
        Some(Seq::empty())
    } else if s[0] == '\r' {
        let rest = if s.len() > 1 && s[1] == '\n' { s.skip(2) } else { s.drop_first() };
        match body_bytes(rest) {
            Some(b) => Some(seq![10u8] + b),
            None => None,
        }
    } else if s[0] != '\\' {
        match body_bytes(s.drop_first()) {
            Some(b) => Some(encode_scalar(s[0] as u32) + b),
            None => None,
        }
    } else if s.len() < 2 {
        None
    } else {
        let e = s[1];
        if e == 'u' {
            match hex4(s.skip(2)) {
                Some(code) => if code > 0xff {
                    None
                } else {
                    match body_bytes(s.skip(6)) {
                        Some(b) => Some(seq![code as u8] + b),
                        None => None,
                    }
                },
                None => None,
            }
        } else {
            let byte: Option<u8> = if e == 'n' {
                Some(10u8)
            } else if e == 't' {
                Some(9u8)
            } else if e == 'r' {
                Some(10u8)
            } else if e == '\\' {
                Some(92u8)
            } else if e == '"' {
                Some(34u8)
            } else {
                None
            };
            match byte {
                Some(x) => match body_bytes(s.skip(2)) {
                    Some(b) => Some(seq![x] + b),
                    None => None,
                },
                None => None,
            }
        }
    }
}

/// The text a literal body decodes to, or `None` when it holds an invalid
/// escape or its bytes are not valid UTF-8.
pub open spec fn decode_body(s: Seq<char>) -> Option<Seq<char>> {
    match body_bytes(s) {
        Some(b) => if valid_utf8(b) {
            Some(decode_utf8(b))
        } else {
            None
        },
        None => None,
    }
}

/// Encodes a string as a quoted literal.
///
/// Emits only `\\`, `\"`, `\n` and `\t`; everything else goes out as raw
/// UTF-8. CRLF and a lone CR both become `\n`.
pub fn escape_string(input: &str) -> (res: String)
    ensures
        res@ == quoted(input@),
{
    let v = chars_of(input);
    let mut s = String::new();
    string_push(&mut s, '"');
    let mut i: usize = 0;
    assert(v@.skip(0) =~= v@);
    while i < v.len()
        invariant
            0 <= i <= v@.len(),
            v@ == input@,
            seq!['"'] + escape_body(v@) == s@ + escape_body(v@.skip(i as int)),
        decreases v.len() - i,
    {
        let ghost rest = v@.skip(i as int);
        let c = v[i];
        if c == '\\' {
            string_push(&mut s, '\\');
            string_push(&mut s, '\\');
            i = i + 1;
        } else if c == '"' {
            string_push(&mut s, '\\');
            string_push(&mut s, '"');
            i = i + 1;
        } else if c == '\n' {
            string_push(&mut s, '\\');
            string_push(&mut s, 'n');
            i = i + 1;
        } else if c == '\t' {
            string_push(&mut s, '\\');
            string_push(&mut s, 't');
            i = i + 1;
        } else if c == '\r' {
            string_push(&mut s, '\\');
            string_push(&mut s, 'n');
            if i + 1 < v.len() && v[i + 1] == '\n' {
                i = i + 2;
                assert(rest.skip(2) =~= v@.skip(i as int));
            } else {
                i = i + 1;
            }
        } else {
            string_push(&mut s, c);
            i = i + 1;
        }
        assert(rest.drop_first() =~= v@.skip((i) as int) || rest.skip(2) =~= v@.skip(i as int));
    }
    string_push(&mut s, '"');
    assert(v@.skip(i as int) =~= Seq::<char>::empty());
    s
}

/// The value of a hex digit, or `None`.
fn hex_digit(c: char) -> (r: Option<u32>)
    ensures
        r == hex_value(c),
{
    if '0' <= c && c <= '9' {
        Some(c as u32 - '0' as u32)
    } else if 'a' <= c && c <= 'f' {
        Some(c as u32 - 'a' as u32 + 10)
    } else if 'A' <= c && c <= 'F' {
        Some(c as u32 - 'A' as u32 + 10)
    } else {
        None
    }
}

/// Decodes the body of a quoted literal held in `v[from..to]`.
///
/// Returns `None` on an invalid escape rather than guessing.
pub fn decode_string_body(v: &[char], from: usize, to: usize) -> (res: Option<String>)
    requires
        from <= to <= v@.len(),
    ensures
        res is Some <==> decode_body(v@.subrange(from as int, to as int)) is Some,
        res matches Some(s) ==> decode_body(v@.subrange(from as int, to as int)) == Some(s@),
{
    let ghost body = v@.subrange(from as int, to as int);
    let mut out: Vec<u8> = Vec::new();
    let mut i = from;
    while i < to
        invariant
            from <= i <= to <= v@.len(),
            body == v@.subrange(from as int, to as int),
            body_bytes(body) == match body_bytes(v@.subrange(i as int, to as int)) {
                Some(b) => Some(out@ + b),
                None => None::<Seq<u8>>,
            },
        decreases to - i,
    {
        let ghost rest = v@.subrange(i as int, to as int);
        let c = v[i];
        if c == '\r' {
            let ghost before = out@;
            out.push(10u8);
            if i + 1 < to && v[i + 1] == '\n' {
                i = i + 2;
                assert(rest.skip(2) =~= v@.subrange(i as int, to as int));
            } else {
                i = i + 1;
                assert(rest.drop_first() =~= v@.subrange(i as int, to as int));
            }
            proof {
                match body_bytes(v@.subrange(i as int, to as int)) {
                    Some(b) => {
                        assert(before + (seq![10u8] + b) =~= out@ + b);
                    },
                    None => {},
                }
            }
        } else if c != '\\' {
            let ghost before = out@;
            push_utf8(&mut out, c);
            i = i + 1;
            assert(rest.drop_first() =~= v@.subrange(i as int, to as int));
            proof {
                match body_bytes(v@.subrange(i as int, to as int)) {
                    Some(b) => {
                        assert(before + (encode_scalar(c as u32) + b) =~= out@ + b);
                    },
                    None => {},
                }
            }
        } else {
            if i + 1 >= to {
                return None;
            }
            let e = v[i + 1];
            if e == 'u' {
                if to - i < 6 {
                    assert(rest.skip(2).len() < 4);
                    return None;
                }
                let d0 = hex_digit(v[i + 2]);
                let d1 = hex_digit(v[i + 3]);
                let d2 = hex_digit(v[i + 4]);
                let d3 = hex_digit(v[i + 5]);
                assert(rest.skip(2)[0] == v@[i + 2]);
                assert(rest.skip(2)[1] == v@[i + 3]);
                assert(rest.skip(2)[2] == v@[i + 4]);
                assert(rest.skip(2)[3] == v@[i + 5]);
                match (d0, d1, d2, d3) {
                    (Some(a), Some(b), Some(cc), Some(d)) => {
                        let code: u32 = a * 4096 + b * 256 + cc * 16 + d;
                        if code > 0xff {
                            return None;
                        }
                        let ghost before = out@;
                        out.push(code as u8);
                        i = i + 6;
                        assert(rest.skip(6) =~= v@.subrange(i as int, to as int));
                        proof {
                            match body_bytes(v@.subrange(i as int, to as int)) {
                                Some(bb) => {
                                    assert(before + (seq![code as u8] + bb) =~= out@ + bb);
                                },
                                None => {},
                            }
                        }
                    },
                    _ => {
                        return None;
                    },
                }
            } else {
                let byte: u8 = if e == 'n' {
                    10u8
                } else if e == 't' {
                    9u8
                } else if e == 'r' {
                    10u8
                } else if e == '\\' {
                    92u8
                } else if e == '"' {
                    34u8
                } else {
                    return None;
                };
                let ghost before = out@;
                out.push(byte);
                i = i + 2;
                assert(rest.skip(2) =~= v@.subrange(i as int, to as int));
                proof {
                    match body_bytes(v@.subrange(i as int, to as int)) {
                        Some(bb) => {
                            assert(before + (seq![byte] + bb) =~= out@ + bb);
                        },
                        None => {},
                    }
                }
            }
        }
    }
    assert(v@.subrange(i as int, to as int) =~= Seq::<char>::empty());
    assert(out@ + Seq::<u8>::empty() =~= out@);
    string_from_utf8(out)
}

proof fn lemma_encode_utf8_cons(c: char, n: Seq<char>)
    ensures
        encode_utf8(seq![c] + n) == encode_scalar(c as u32) + encode_utf8(n),
{
    assert((seq![c] + n).drop_first() =~= n);
}

proof fn lemma_ascii_encodings()
    ensures
        encode_scalar('\n' as u32) == seq![10u8],
        encode_scalar('\t' as u32) == seq![9u8],
        encode_scalar('\\' as u32) == seq![92u8],
        encode_scalar('"' as u32) == seq![34u8],
{
    assert(10u32 & 0x7F == 10u32) by (bit_vector);
    assert(9u32 & 0x7F == 9u32) by (bit_vector);
    assert(92u32 & 0x7F == 92u32) by (bit_vector);
    assert(34u32 & 0x7F == 34u32) by (bit_vector);
}

/// The bytes of an escaped body are the UTF-8 encoding of the
/// newline-normalized text.
proof fn lemma_body_bytes_of_escape(s: Seq<char>)
    ensures
        body_bytes(escape_body(s)) == Some(encode_utf8(normalize_newlines(s))),
    decreases s.len(),
{
    if s.len() > 0 {
        lemma_ascii_encodings();
        let c = s[0];
        let e = escape_body(s);
        if c == '\r' && s.len() > 1 && s[1] == '\n' {
            let rest = s.skip(2);
            lemma_body_bytes_of_escape(rest);
            assert(e.skip(2) =~= escape_body(rest));
            lemma_encode_utf8_cons('\n', normalize_newlines(rest));
        } else if c == '\\' || c == '"' || c == '\n' || c == '\t' || c == '\r' {
            let rest = s.drop_first();
            lemma_body_bytes_of_escape(rest);
            assert(e.skip(2) =~= escape_body(rest));
            let x = if c == '\r' { '\n' } else { c };
            assert(normalize_newlines(s) == seq![x] + normalize_newlines(rest));
            lemma_encode_utf8_cons(x, normalize_newlines(rest));
        } else {
            let rest = s.drop_first();
            lemma_body_bytes_of_escape(rest);
            assert(e.drop_first() =~= escape_body(rest));
            lemma_encode_utf8_cons(c, normalize_newlines(rest));
        }
    }
}

/// Reading back a written literal gives the text that was written, with
/// its newlines normalized: every string survives the trip through the
/// text format, carriage returns becoming newlines.
pub proof fn lemma_escape_roundtrip(s: Seq<char>)
    ensures
        decode_body(escape_body(s)) == Some(normalize_newlines(s)),
{
    lemma_body_bytes_of_escape(s);
    encode_utf8_valid_utf8(normalize_newlines(s));
    encode_utf8_decode_utf8(normalize_newlines(s));
}

/// A written literal is one line: writers emit no raw newline, carriage
/// return or tab, only their escapes.
pub proof fn lemma_escape_is_one_line(s: Seq<char>)
    ensures
        forall|i: int|
            0 <= i < escape_body(s).len() ==> {
                let c = #[trigger] escape_body(s)[i];
                c != '\n' && c != '\r' && c != '\t'
            },
    decreases s.len(),
{
    if s.len() > 0 {
        let c = s[0];
        let rest = if c == '\r' && s.len() > 1 && s[1] == '\n' { s.skip(2) } else { s.drop_first() };
        lemma_escape_is_one_line(rest);
        let e = escape_body(s);
        let er = escape_body(rest);
        let head = if c == '\\' || c == '"' || c == '\n' || c == '\t' || c == '\r' { 2int } else { 1int };
        assert(e.len() == head + er.len());
        assert forall|i: int| 0 <= i < e.len() implies {
            let x = #[trigger] e[i];
            x != '\n' && x != '\r' && x != '\t'
        } by {
            if i >= head {
                assert(e[i] == er[i - head]);
            }
        }
    }
}

/// The bytes of a body that reads completely on its own, and does not end
/// in a carriage return, come first in the bytes of anything it starts.
proof fn lemma_body_bytes_concat(a: Seq<char>, c: Seq<char>)
    requires
        body_bytes(a) is Some,
        !(a.len() > 0 && a.last() == '\r'),
    ensures
        body_bytes(a + c) == match body_bytes(c) {
            Some(bc) => Some(body_bytes(a)->Some_0 + bc),
            None => None::<Seq<u8>>,
        },
    decreases a.len(),
{
    if a.len() == 0 {
        assert(a + c =~= c);
        assert(Seq::<u8>::empty() + body_bytes(c)->Some_0 =~= body_bytes(c)->Some_0);
    } else {
        let t = a + c;
        assert(t[0] == a[0]);
        if a[0] == '\r' {
            assert(a.len() > 1);
            assert(t[1] == a[1]);
            let ra = if a[1] == '\n' { a.skip(2) } else { a.drop_first() };
            let rt = if t[1] == '\n' { t.skip(2) } else { t.drop_first() };
            assert(rt =~= ra + c);
            assert(ra.len() > 0 ==> ra.last() == a.last());
            lemma_body_bytes_concat(ra, c);
            match body_bytes(c) {
                Some(bc) => {
                    assert(seq![10u8] + (body_bytes(ra)->Some_0 + bc) =~= seq![10u8] + body_bytes(ra)->Some_0 + bc);
                },
                None => {},
            }
        } else if a[0] != '\\' {
            let ra = a.drop_first();
            assert(t.drop_first() =~= ra + c);
            assert(ra.len() > 0 ==> ra.last() == a.last());
            lemma_body_bytes_concat(ra, c);
            match body_bytes(c) {
                Some(bc) => {
                    assert(encode_scalar(a[0] as u32) + (body_bytes(ra)->Some_0 + bc) =~= encode_scalar(a[0] as u32)
                        + body_bytes(ra)->Some_0 + bc);
                },
                None => {},
            }
        } else {
            assert(a.len() >= 2);
            assert(t[1] == a[1]);
            if a[1] == 'u' {
                assert(hex4(a.skip(2)) is Some);
                assert(a.skip(2).len() >= 4);
                assert(t.skip(2)[0] == a.skip(2)[0] && t.skip(2)[1] == a.skip(2)[1] && t.skip(2)[2] == a.skip(2)[2]
                    && t.skip(2)[3] == a.skip(2)[3]);
                assert(hex4(t.skip(2)) == hex4(a.skip(2)));
                let ra = a.skip(6);
                assert(t.skip(6) =~= ra + c);
                assert(ra.len() > 0 ==> ra.last() == a.last());
                lemma_body_bytes_concat(ra, c);
                match body_bytes(c) {
                    Some(bc) => {
                        let code = hex4(a.skip(2))->Some_0;
                        assert(seq![code as u8] + (body_bytes(ra)->Some_0 + bc) =~= seq![code as u8] + body_bytes(
                            ra,
                        )->Some_0 + bc);
                    },
                    None => {},
                }
            } else {
                let ra = a.skip(2);
                assert(t.skip(2) =~= ra + c);
                assert(ra.len() > 0 ==> ra.last() == a.last());
                lemma_body_bytes_concat(ra, c);
                match body_bytes(c) {
                    Some(bc) => {
                        let x: u8 = body_bytes(a)->Some_0[0];
                        assert(body_bytes(a)->Some_0 == seq![x] + body_bytes(ra)->Some_0);
                        assert(seq![x] + (body_bytes(ra)->Some_0 + bc) =~= seq![x] + body_bytes(ra)->Some_0 + bc);
                    },
                    None => {},
                }
            }
        }
    }
}

/// A raw CRLF in a literal body is one line break: decoding the body gives
/// what decoding it with the pair replaced by a single LF gives. The pair
/// stands raw: what comes before it reads completely on its own and does
/// not end in a carriage return.
pub proof fn lemma_crlf_is_one_newline(a: Seq<char>, b: Seq<char>)
    requires
        body_bytes(a) is Some,
        !(a.len() > 0 && a.last() == '\r'),
    ensures
        decode_body(a + seq!['\r', '\n'] + b) == decode_body(a + seq!['\n'] + b),
{
    let crlf = seq!['\r', '\n'] + b;
    let lf = seq!['\n'] + b;
    assert(a + seq!['\r', '\n'] + b =~= a + crlf);
    assert(a + seq!['\n'] + b =~= a + lf);
    lemma_body_bytes_concat(a, crlf);
    lemma_body_bytes_concat(a, lf);
    assert(crlf.skip(2) =~= b);
    assert(lf.drop_first() =~= b);
    lemma_ascii_encodings();
    assert(body_bytes(crlf) == body_bytes(lf));
}

} // verus!

