//! The lexer for the text data format.
//!
//! ```text
//! @TypeName object-id {
//!     Field: value, Other: "string literal"
//!     Nested: { A: 1 }  List: [1, 2, 3]  Inline: @Sub { ... }
//! }
//! ```
//!
//! Every scanning function takes the text and the position it starts at and
//! gives back the value it read together with the position where scanning
//! continues; the end of the text stands for "nothing left", which is also
//! where a parse error leaves the scan.

use vstd::prelude::*;
use vstd::string::StrSliceExecFns;
use crate::strings::{is_white_space, char_is_whitespace, chars_of, string_from_chars};
use crate::escape::{decode_body, decode_string_body};
use crate::lexed::{Lexed, LexedData, LexedKv, kv_insert, lexed_view, list_view, lemma_list_view_index, render, render_list};

verus! {

/// The characters that end a bare word.
pub open spec fn is_delimiter(c: char) -> bool {
    c == '[' || c == '{' || c == '=' || c == ':' || c == ']' || c == '}' || c == ',' || is_white_space(c)
}

/// Where scanning resumes after a sub-scan that started at `j` and stopped
/// at `c`: at `c`, which always lies past `j`; the end of the text otherwise.
pub open spec fn next_pos(j: int, c: int, n: int) -> int {
    if j < c && c <= n {
        c
    } else {
        n
    }
}

/// The position of the quote that closes a string literal whose body starts
/// at `j`; a backslash always takes the next character with it. The end of
/// the text when the literal is never closed.
pub open spec fn string_end(s: Seq<char>, j: int) -> int
    decreases s.len() - j,
{
    if j < 0 || j >= s.len() {
        s.len() as int
    } else if s[j] == '\\' {
        if j + 1 >= s.len() {
            s.len() as int
        } else {
            string_end(s, j + 2)
        }
    } else if s[j] == '"' {
        j
    } else {
        string_end(s, j + 1)
    }
}

/// A bare word or a string literal starting at `k`, scanned from `j`.
pub open spec fn scan_word(s: Seq<char>, k: int, j: int) -> (Lexed, int)
    decreases s.len() - j,
{
    let n = s.len() as int;
    if j < 0 || j >= n {
        (Lexed::Empty, n)
    } else if s[j] == '"' {
        let e = string_end(s, j + 1);
        if e >= n {
            (Lexed::Empty, n)
        } else {
            match decode_body(s.subrange(j + 1, e)) {
                Some(v) => (Lexed::StringLiteral(v), e + 1),
                None => (Lexed::Empty, n),
            }
        }
    } else if is_delimiter(s[j]) {
        if j > k {
            (Lexed::Value(s.subrange(k, j)), j)
        } else {
            (Lexed::Empty, n)
        }
    } else {
        scan_word(s, k, j + 1)
    }
}

/// A bare word or a string literal starting at `k`.
pub open spec fn word_at(s: Seq<char>, k: int) -> (Lexed, int) {
    scan_word(s, k, k)
}

/// Any value, found by skipping whitespace and comments from `j`. With
/// `require_value` unset a comment is itself a result.
pub open spec fn value_at(s: Seq<char>, j: int, require_value: bool) -> (Lexed, int)
    decreases s.len() - j, 3int,
{
    let n = s.len() as int;
    if j < 0 || j >= n {
        (Lexed::Empty, n)
    } else {
        let c = s[j];
        if is_white_space(c) {
            value_at(s, j + 1, require_value)
        } else if c == '#' || (c == '/' && j + 1 < n && s[j + 1] == '/') {
            comment_at(s, j + 1, require_value)
        } else if c == '{' {
            object_at(s, j)
        } else if c == '[' {
            array_at(s, j)
        } else if c == '@' {
            header_at(s, j)
        } else {
            word_at(s, j)
        }
    }
}

/// Inside a comment: it runs to the end of the line.
pub open spec fn comment_at(s: Seq<char>, j: int, require_value: bool) -> (Lexed, int)
    decreases s.len() - j, 4int,
{
    let n = s.len() as int;
    if j < 0 || j >= n {
        (Lexed::Empty, n)
    } else if s[j] == '\n' {
        if !require_value {
            (Lexed::Comment, j)
        } else {
            value_at(s, j, require_value)
        }
    } else {
        comment_at(s, j + 1, require_value)
    }
}

/// An object body `{ name: value ... }` whose brace is at `k`.
pub open spec fn object_at(s: Seq<char>, k: int) -> (Lexed, int)
    decreases s.len() - k, 1int,
{
    let n = s.len() as int;
    if k < 0 || k >= n {
        (Lexed::Empty, n)
    } else {
        fields_at(s, k + 1, Seq::empty(), Seq::empty())
    }
}

/// The fields of an object from `j` on, with `field` the name read and not
/// yet given a value (empty if none) and `kv` the fields so far.
pub open spec fn fields_at(s: Seq<char>, j: int, field: Seq<char>, kv: Seq<(Seq<char>, Lexed)>) -> (Lexed, int)
    decreases s.len() - j, 5int,
{
    let n = s.len() as int;
    if j < 0 || j >= n {
        (Lexed::Empty, n)
    } else {
        let c = s[j];
        if is_white_space(c) || c == ',' || c == ':' || c == '=' {
            fields_at(s, j + 1, field, kv)
        } else if c == '}' {
            (Lexed::Object { kv, id: Seq::empty(), type_tag: Seq::empty() }, j + 1)
        } else if field.len() == 0 {
            let r = value_at(s, j, true);
            match r.0 {
                Lexed::Value(v) => fields_at(s, next_pos(j, r.1, n), v, kv),
                Lexed::StringLiteral(v) => fields_at(s, next_pos(j, r.1, n), v, kv),
                _ => (Lexed::Empty, n),
            }
        } else {
            let r = value_at(s, j, true);
            fields_at(s, next_pos(j, r.1, n), Seq::empty(), kv_insert(kv, field, r.0))
        }
    }
}

/// An array `[ value, ... ]` whose bracket is at `k`.
pub open spec fn array_at(s: Seq<char>, k: int) -> (Lexed, int)
    decreases s.len() - k, 1int,
{
    let n = s.len() as int;
    if k < 0 || k >= n || s[k] != '[' {
        (Lexed::Empty, n)
    } else {
        elements_at(s, k + 1, Seq::empty())
    }
}

/// The elements of an array from `j` on, `arr` holding those read so far.
pub open spec fn elements_at(s: Seq<char>, j: int, arr: Seq<Lexed>) -> (Lexed, int)
    decreases s.len() - j, 5int,
{
    let n = s.len() as int;
    if j < 0 || j >= n {
        (Lexed::Empty, n)
    } else {
        let c = s[j];
        if is_white_space(c) || c == ',' {
            elements_at(s, j + 1, arr)
        } else if c == ']' {
            (Lexed::Array(arr), j + 1)
        } else {
            let r = value_at(s, j, false);
            let arr2 = if r.0 is Comment {
                arr
            } else {
                arr.push(r.0)
            };
            elements_at(s, next_pos(j, r.1, n), arr2)
        }
    }
}

/// An object with a header, `@Type id { ... }`, whose `@` is at `k`.
pub open spec fn header_at(s: Seq<char>, k: int) -> (Lexed, int)
    decreases s.len() - k, 1int,
{
    let n = s.len() as int;
    if k < 0 || k >= n || s[k] != '@' {
        (Lexed::Empty, n)
    } else {
        header_scan(s, k, k + 1, 0, 0, 0)
    }
}

/// The header from `j` on: `te` is where the type name ends, `ib` and `ie`
/// where the id begins and ends, each relative to `k` and 0 while unknown.
pub open spec fn header_scan(s: Seq<char>, k: int, j: int, te: int, ib: int, ie: int) -> (Lexed, int)
    decreases s.len() - j, 2int,
{
    let n = s.len() as int;
    if j < 0 || j >= n {
        (Lexed::Empty, n)
    } else {
        let c = s[j];
        let r = j - k;
        let ws = is_white_space(c);
        let te1 = if ws && te == 0 { r } else { te };
        let ib1 = if !(ws && te == 0) && ib == 0 && !ws && te != 0 { r } else { ib };
        let ie1 = if !(ws && te == 0) && !(ib == 0 && !ws && te != 0) && ib != 0 && ie == 0 && ws { r } else { ie };
        if c == '{' {
            let te2 = if te1 == 0 { r } else { te1 };
            let ie2 = if ie1 == 0 && ib1 != 0 { r } else { ie1 };
            let res = object_at(s, j);
            match res.0 {
                Lexed::Object { kv, .. } => (
                    Lexed::Object { kv, id: s.subrange(k + ib1, k + ie2), type_tag: s.subrange(k + 1, k + te2) },
                    res.1,
                ),
                _ => (Lexed::Empty, n),
            }
        } else {
            header_scan(s, k, j + 1, te1, ib1, ie1)
        }
    }
}

/// The objects of a whole file from `j` on, keyed by id; `objs` holds those
/// read so far. Anything but an object after an `@` empties the result.
pub open spec fn file_at(s: Seq<char>, j: int, objs: Seq<(Seq<char>, Lexed)>) -> Seq<(Seq<char>, Lexed)>
    decreases s.len() - j,
{
    let n = s.len() as int;
    if j < 0 || j >= n {
        objs
    } else if s[j] == '@' {
        let r = header_at(s, j);
        match r.0 {
            Lexed::Object { kv, id, type_tag } => file_at(
                s,
                next_pos(j, r.1, n),
                kv_insert(objs, id, Lexed::Object { kv, id, type_tag }),
            ),
            _ => Seq::empty(),
        }
    } else {
        file_at(s, j + 1, objs)
    }
}

/// The objects of a whole file, keyed by id.
pub open spec fn lex_text(s: Seq<char>) -> Seq<(Seq<char>, Lexed)> {
    file_at(s, 0, Seq::empty())
}


/// Whether `c` ends a bare word.
fn is_syntax_delimiter(c: char) -> (r: bool)
    ensures
        r == is_delimiter(c),
{
    c == '[' || c == '{' || c == '=' || c == ':' || c == ']' || c == '}' || c == ',' || char_is_whitespace(c)
}

/// The position of the quote that closes a literal whose body starts at `j`.
fn string_end_exec(v: &Vec<char>, j: usize) -> (e: usize)
    requires
        j <= v@.len(),
    ensures
        e == string_end(v@, j as int),
        j <= e <= v@.len(),
{
    let mut i = j;
    while i < v.len()
        invariant
            j <= i <= v@.len(),
            string_end(v@, j as int) == string_end(v@, i as int),
        decreases v.len() - i,
    {
        if v[i] == '\\' {
            if i + 1 >= v.len() {
                return v.len();
            }
            i = i + 2;
        } else if v[i] == '"' {
            return i;
        } else {
            i = i + 1;
        }
    }
    i
}

/// A bare word or a string literal starting at `k`.
fn parse_keyword_or_string(v: &Vec<char>, k: usize) -> (r: (LexedData, usize))
    requires
        k <= v@.len(),
    ensures
        (r.0@, r.1 as int) == word_at(v@, k as int),
        r.1 <= v@.len(),
        k < v@.len() ==> k < r.1,
{
    let n = v.len();
    let mut j = k;
    while j < n
        invariant
            k <= j <= n,
            n == v@.len(),
            word_at(v@, k as int) == scan_word(v@, k as int, j as int),
        decreases n - j,
    {
        let c = v[j];
        if c == '"' {
            let e = string_end_exec(v, j + 1);
            if e >= n {
                return (LexedData::Empty, n);
            }
            match decode_string_body(v, j + 1, e) {
                Some(st) => {
                    return (LexedData::StringLiteral(st), e + 1);
                },
                None => {
                    return (LexedData::Empty, n);
                },
            }
        } else if is_syntax_delimiter(c) {
            if j > k {
                let st = string_from_chars(v.as_slice(), k, j);
                return (LexedData::Value(st), j);
            } else {
                return (LexedData::Empty, n);
            }
        }
        j = j + 1;
    }
    (LexedData::Empty, n)
}

/// Any value, found by skipping whitespace and comments from `pos`.
#[verifier::spinoff_prover]
fn parse_auto_detect(v: &Vec<char>, pos: usize, require_value: bool) -> (r: (LexedData, usize))
    requires
        pos <= v@.len(),
    ensures
        (r.0@, r.1 as int) == value_at(v@, pos as int, require_value),
        r.1 <= v@.len(),
        pos < v@.len() ==> pos < r.1,
    decreases v@.len() - pos, 3int,
{
    let n = v.len();
    let mut j = pos;
    while j < n && char_is_whitespace(v[j])
        invariant
            pos <= j <= n,
            n == v@.len(),
            value_at(v@, pos as int, require_value) == value_at(v@, j as int, require_value),
        decreases n - j,
    {
        j = j + 1;
    }
    if j >= n {
        return (LexedData::Empty, n);
    }
    let c = v[j];
    if c == '#' || (c == '/' && j + 1 < n && v[j + 1] == '/') {
        comment_exec(v, j + 1, require_value)
    } else if c == '{' {
        object_exec(v, j)
    } else if c == '[' {
        array_exec(v, j)
    } else if c == '@' {
        parse_object_with_header(v, j)
    } else {
        parse_keyword_or_string(v, j)
    }
}

/// Inside a comment starting at `pos`.
fn comment_exec(v: &Vec<char>, pos: usize, require_value: bool) -> (r: (LexedData, usize))
    requires
        pos <= v@.len(),
    ensures
        (r.0@, r.1 as int) == comment_at(v@, pos as int, require_value),
        r.1 <= v@.len(),
        pos < v@.len() ==> pos <= r.1,
    decreases v@.len() - pos, 4int,
{
    let n = v.len();
    let mut j = pos;
    while j < n && v[j] != '\n'
        invariant
            pos <= j <= n,
            n == v@.len(),
            comment_at(v@, pos as int, require_value) == comment_at(v@, j as int, require_value),
        decreases n - j,
    {
        j = j + 1;
    }
    if j >= n {
        return (LexedData::Empty, n);
    }
    if !require_value {
        (LexedData::Comment, j)
    } else {
        parse_auto_detect(v, j, require_value)
    }
}

/// An object body whose brace is at `k`.
#[verifier::spinoff_prover]
fn object_exec(v: &Vec<char>, k: usize) -> (r: (LexedData, usize))
    requires
        k <= v@.len(),
    ensures
        (r.0@, r.1 as int) == object_at(v@, k as int),
        r.1 <= v@.len(),
        k < v@.len() ==> k < r.1,
    decreases v@.len() - k, 1int,
{
    let n = v.len();
    if k >= n {
        return (LexedData::Empty, n);
    }
    let mut j = k + 1;
    let mut field = String::new();
    let mut kv = LexedKv::new();
    while j < n
        invariant
            k < j <= n,
            n == v@.len(),
            object_at(v@, k as int) == fields_at(v@, j as int, field@, kv@),
        decreases n - j,
    {
        let c = v[j];
        if char_is_whitespace(c) || c == ',' || c == ':' || c == '=' {
            j = j + 1;
        } else if c == '}' {
            let r = LexedData::Object { kv, id: String::new(), type_tag: String::new() };
            return (r, j + 1);
        } else if field.as_str().is_empty() {
            let r = parse_auto_detect(v, j, true);
            match r.0 {
                LexedData::Value(name) => {
                    field = name;
                },
                LexedData::StringLiteral(name) => {
                    field = name;
                },
                _ => {
                    return (LexedData::Empty, n);
                },
            }
            j = r.1;
        } else {
            let r = parse_auto_detect(v, j, true);
            let mut name = String::new();
            std::mem::swap(&mut name, &mut field);
            kv.insert(name, r.0);
            j = r.1;
        }
    }
    (LexedData::Empty, n)
}

/// An array whose bracket is at `k`.
#[verifier::spinoff_prover]
fn array_exec(v: &Vec<char>, k: usize) -> (r: (LexedData, usize))
    requires
        k <= v@.len(),
    ensures
        (r.0@, r.1 as int) == array_at(v@, k as int),
        r.1 <= v@.len(),
        k < v@.len() ==> k < r.1,
    decreases v@.len() - k, 1int,
{
    let n = v.len();
    if k >= n || v[k] != '[' {
        return (LexedData::Empty, n);
    }
    let mut j = k + 1;
    let mut arr: Vec<LexedData> = Vec::new();
    proof {
        lemma_list_view_index(arr@);
        assert(list_view(arr@) =~= Seq::<Lexed>::empty());
    }
    while j < n
        invariant
            k < j <= n,
            n == v@.len(),
            array_at(v@, k as int) == elements_at(v@, j as int, list_view(arr@)),
        decreases n - j,
    {
        let c = v[j];
        if char_is_whitespace(c) || c == ',' {
            j = j + 1;
        } else if c == ']' {
            return (LexedData::Array(arr), j + 1);
        } else {
            let r = parse_auto_detect(v, j, false);
            match r.0 {
                LexedData::Comment => {},
                d => {
                    let ghost before = arr@;
                    arr.push(d);
                    proof {
                        lemma_list_view_index(before);
                        lemma_list_view_index(arr@);
                        assert(list_view(arr@) =~= list_view(before).push(lexed_view(d)));
                    }
                },
            }
            j = r.1;
        }
    }
    (LexedData::Empty, n)
}

/// An object with a header whose `@` is at `k`.
#[verifier::spinoff_prover]
fn parse_object_with_header(v: &Vec<char>, k: usize) -> (r: (LexedData, usize))
    requires
        k <= v@.len(),
    ensures
        (r.0@, r.1 as int) == header_at(v@, k as int),
        r.1 <= v@.len(),
        k < v@.len() ==> k < r.1,
    decreases v@.len() - k, 1int,
{
    let n = v.len();
    if k >= n || v[k] != '@' {
        return (LexedData::Empty, n);
    }
    let mut j = k + 1;
    let mut te: usize = 0;
    let mut ib: usize = 0;
    let mut ie: usize = 0;
    while j < n
        invariant
            k < j <= n,
            n == v@.len(),
            te <= j - k,
            ib <= j - k,
            ie <= j - k,
            ie == 0 || (ib != 0 && ib <= ie),
            header_at(v@, k as int) == header_scan(v@, k as int, j as int, te as int, ib as int, ie as int),
        decreases n - j,
    {
        let c = v[j];
        let r = j - k;
        let ws = char_is_whitespace(c);
        if ws && te == 0 {
            te = r;
        } else if ib == 0 && !ws && te != 0 {
            ib = r;
        } else if ib != 0 && ie == 0 && ws {
            ie = r;
        }
        if c == '{' {
            if te == 0 {
                te = r;
            }
            if ie == 0 && ib != 0 {
                ie = r;
            }
            let res = object_exec(v, j);
            match res.0 {
                LexedData::Object { kv, .. } => {
                    let id = string_from_chars(v.as_slice(), k + ib, k + ie);
                    let type_tag = string_from_chars(v.as_slice(), k + 1, k + te);
                    return (LexedData::Object { kv, id, type_tag }, res.1);
                },
                _ => {
                    return (LexedData::Empty, n);
                },
            }
        }
        j = j + 1;
    }
    (LexedData::Empty, n)
}


/// What a scan produced and the text after it.
pub struct ScanResult<'a> {
    pub cont: &'a str,
    pub data: LexedData,
}

/// The text from character `from` on.
fn rest_of<'a>(data: &'a str, from: usize, n: usize) -> (r: &'a str)
    requires
        n == data@.len(),
        from <= n,
    ensures
        r@ == data@.subrange(from as int, n as int),
{
    data.substring_char(from, n)
}

/// Parses an array `[ value, ... ]` at the start of `data`.
///
/// Anything but an array, or an array that is not closed, gives
/// `LexedData::Empty` with nothing left to scan.
pub fn parse_array(data: &str) -> (r: ScanResult<'_>)
    ensures
        r.data@ == array_at(data@, 0).0,
        r.cont@ == data@.subrange(array_at(data@, 0).1, data@.len() as int),
{
    let v = chars_of(data);
    let (d, c) = array_exec(&v, 0);
    ScanResult { cont: rest_of(data, c, v.len()), data: d }
}

/// Parses an object body `{ name: value ... }` at the start of `data`.
///
/// Field names are bare words or string literals; `:`, `=`, `,` and
/// whitespace between the parts are all skipped. An error anywhere gives
/// `LexedData::Empty` with nothing left to scan.
pub fn parse_object_data(data: &str) -> (r: ScanResult<'_>)
    requires
        data@.len() == 0 || data@[0] == '{',
    ensures
        r.data@ == object_at(data@, 0).0,
        r.cont@ == data@.subrange(object_at(data@, 0).1, data@.len() as int),
{
    let v = chars_of(data);
    let (d, c) = object_exec(&v, 0);
    ScanResult { cont: rest_of(data, c, v.len()), data: d }
}

/// Lexes a whole file of `@Type id { ... }` objects, keyed by id.
///
/// A later object with the same id replaces an earlier one. Anything after
/// an `@` that is not an object makes the whole result empty.
#[verifier::spinoff_prover]
pub fn lex_file(data: &str) -> (r: LexedKv)
    ensures
        r@ == lex_text(data@),
{
    let v = chars_of(data);
    let n = v.len();
    let mut objs = LexedKv::new();
    let mut j: usize = 0;
    while j < n
        invariant
            j <= n,
            n == v@.len(),
            v@ == data@,
            lex_text(data@) == file_at(v@, j as int, objs@),
        decreases n - j,
    {
        if v[j] == '@' {
            let r = parse_object_with_header(&v, j);
            match r.0 {
                LexedData::Object { kv, id, type_tag } => {
                    let key = id.clone();
                    objs.insert(key, LexedData::Object { kv, id, type_tag });
                },
                _ => {
                    return LexedKv::new();
                },
            }
            j = r.1;
        } else {
            j = j + 1;
        }
    }
    objs
}


/// The value of a run of decimal digits.
pub open spec fn digits_value(s: Seq<char>) -> int
    decreases s.len(),
{
    if s.len() == 0 {
        0
    } else {
        digits_value(s.drop_last()) * 10 + (s.last() as int - '0' as int)
    }
}

/// Whether every character is a decimal digit.
pub open spec fn all_digits(s: Seq<char>) -> bool {
    forall|i: int| 0 <= i < s.len() ==> '0' <= #[trigger] s[i] && s[i] <= '9'
}

/// What `i32::from_str` accepts: an optional sign and at least one digit,
/// with nothing else, and a value in range.
pub open spec fn parse_i32_spec(s: Seq<char>) -> Option<int> {
    let neg = s.len() > 0 && s[0] == '-';
    let d = if s.len() > 0 && (s[0] == '-' || s[0] == '+') { s.drop_first() } else { s };
    if d.len() == 0 || !all_digits(d) {
        None
    } else {
        let v = if neg { -digits_value(d) } else { digits_value(d) };
        if i32::MIN <= v && v <= i32::MAX {
            Some(v)
        } else {
            None
        }
    }
}

proof fn lemma_digits_value_nonneg(s: Seq<char>)
    requires
        all_digits(s),
    ensures
        digits_value(s) >= 0,
    decreases s.len(),
{
    if s.len() > 0 {
        lemma_digits_value_nonneg(s.drop_last());
    }
}

proof fn lemma_digits_value_grows(s: Seq<char>, i: int)
    requires
        all_digits(s),
        0 <= i <= s.len(),
    ensures
        digits_value(s.take(i)) <= digits_value(s),
    decreases s.len() - i,
{
    if i < s.len() {
        lemma_digits_value_grows(s, i + 1);
        assert(s.take(i + 1).drop_last() =~= s.take(i));
        lemma_digits_value_nonneg(s.take(i));
    } else {
        assert(s.take(i) =~= s);
    }
}

/// Parses a decimal `i32` the way `i32::from_str` does.
pub fn parse_i32(v: &[char]) -> (r: Option<i32>)
    ensures
        match parse_i32_spec(v@) {
            Some(x) => r == Some(x as i32),
            None => r is None,
        },
{
    let n = v.len();
    let neg = n > 0 && v[0] == '-';
    let start: usize = if n > 0 && (v[0] == '-' || v[0] == '+') { 1 } else { 0 };
    let ghost d = if v@.len() > 0 && (v@[0] == '-' || v@[0] == '+') { v@.drop_first() } else { v@ };
    assert(d =~= v@.subrange(start as int, n as int));
    if start >= n {
        return None;
    }
    let mut acc: i64 = 0;
    let mut i = start;
    while i < n
        invariant
            start <= i <= n,
            n == v@.len(),
            d == v@.subrange(start as int, n as int),
            d == (if v@.len() > 0 && (v@[0] == '-' || v@[0] == '+') { v@.drop_first() } else { v@ }),
            neg == (v@.len() > 0 && v@[0] == '-'),
            all_digits(d.take(i - start)),
            acc == digits_value(d.take(i - start)),
            0 <= acc <= 2147483648,
        decreases n - i,
    {
        let c = v[i];
        if c < '0' || c > '9' {
            assert(d[i - start] == c);
            assert(!all_digits(d)) by {
                assert(!('0' <= d[i - start] && d[i - start] <= '9'));
            }
            return None;
        }
        let ghost t = d.take(i - start + 1);
        assert(t.drop_last() =~= d.take(i - start));
        assert(t.last() == c);
        let next = acc * 10 + (c as u32 - '0' as u32) as i64;
        assert(all_digits(t));
        assert(digits_value(t) == next as int);
        if next > 2147483648 {
            proof {
                if all_digits(d) {
                    assert(d.take(i - start + 1) == t);
                    lemma_digits_value_grows(d, i - start + 1);
                }
            }
            return None;
        }
        acc = next;
        i = i + 1;
    }
    assert(d.take(n - start) =~= d);
    if neg {
        Some((0 - acc) as i32)
    } else if acc > 2147483647 {
        None
    } else {
        Some(acc as i32)
    }
}

/// The integer in a field: the default when the field is absent, 0 when it
/// holds anything but a bare word that reads as an `i32`.
pub fn get_int(data: Option<&LexedData>, default: i32) -> (r: i32)
    ensures
        match data {
            None => r == default,
            Some(d) => match d@ {
                Lexed::Value(x) => match parse_i32_spec(x) {
                    Some(val) => r == val,
                    None => r == 0,
                },
                _ => r == 0,
            },
        },
{
    match data {
        None => default,
        Some(LexedData::Value(x)) => {
            let c = chars_of(x.as_str());
            match parse_i32(c.as_slice()) {
                Some(val) => val,
                None => 0,
            }
        },
        Some(_) => 0,
    }
}

/// The flag in a field: a bare word `True`, `true` or `1` is true, any
/// other bare word false; anything else, or no field, gives the default.
pub fn get_bool(data: Option<&LexedData>, default: bool) -> (r: bool)
    ensures
        match data {
            Some(d) => match d@ {
                Lexed::Value(x) => r == (x == "True"@ || x == "true"@ || x == "1"@),
                _ => r == default,
            },
            None => r == default,
        },
{
    match data {
        Some(LexedData::Value(x)) => {
            let c = chars_of(x.as_str());
            let t = chars_of("True");
            let t2 = chars_of("true");
            let one = chars_of("1");
            crate::lexed::chars_eq(&c, &t) || crate::lexed::chars_eq(&c, &t2) || crate::lexed::chars_eq(&c, &one)
        },
        _ => default,
    }
}

/// The text in a field: a bare word or a string literal as it is; anything
/// else, or no field, gives the default.
pub fn get_string(data: Option<&LexedData>, default: &str) -> (r: String)
    ensures
        match data {
            Some(d) => match d@ {
                Lexed::Value(x) => r@ == x,
                Lexed::StringLiteral(x) => r@ == x,
                _ => r@ == default@,
            },
            None => r@ == default@,
        },
{
    match data {
        Some(LexedData::Value(x)) => x.clone(),
        Some(LexedData::StringLiteral(x)) => x.clone(),
        _ => default.to_owned(),
    }
}

/// The elements of an array field.
pub fn get_array(data: Option<&LexedData>) -> (r: Option<std::slice::Iter<'_, LexedData>>)
    ensures
        match data {
            Some(LexedData::Array(a)) => r matches Some(it) && vstd::std_specs::slice::into_iter_elts(it) == a@,
            _ => r is None,
        },
{
    broadcast use vstd::std_specs::slice::axiom_spec_slice_iter;
    match data {
        Some(LexedData::Array(a)) => Some(a.iter()),
        _ => None,
    }
}

/// The fields and type name of an object.
pub fn get_object(data: Option<&LexedData>) -> (r: Option<(&LexedKv, &str)>)
    ensures
        match data {
            Some(LexedData::Object { kv, type_tag, .. }) => r matches Some(p) && p.0 == kv && p.1@ == type_tag@,
            _ => r is None,
        },
{
    match data {
        Some(LexedData::Object { kv, type_tag, .. }) => Some((kv, type_tag.as_str())),
        _ => None,
    }
}

/// The fields of an object.
pub fn get_kv(data: Option<&LexedData>) -> (r: Option<&LexedKv>)
    ensures
        match data {
            Some(LexedData::Object { kv, .. }) => r == Some(kv),
            _ => r is None,
        },
{
    match data {
        Some(LexedData::Object { kv, .. }) => Some(kv),
        _ => None,
    }
}

/// `#`, `/` and `]` are no whitespace.
proof fn lemma_comment_openers()
    ensures
        !is_white_space('#'),
        !is_white_space('/'),
        !is_white_space(']'),
{
    reveal(is_white_space);
    assert(']' as u32 == 93);
    assert('#' as u32 == 35);
    assert('/' as u32 == 47);
}

/// A comment runs to the end of its line: from inside it, scanning goes on
/// at the line break, where a required value is looked for and otherwise
/// the comment itself is the result.
proof fn lemma_comment_to_line_end(s: Seq<char>, p: int, m: int, require_value: bool)
    requires
        0 <= p <= m <= s.len(),
        forall|q: int| p <= q < m ==> s[q] != '\n',
        m == s.len() || s[m] == '\n',
    ensures
        comment_at(s, p, require_value) == if m == s.len() {
            (Lexed::Empty, s.len() as int)
        } else if require_value {
            value_at(s, m, require_value)
        } else {
            (Lexed::Comment, m)
        },
    decreases m - p,
{
    if p < m {
        lemma_comment_to_line_end(s, p + 1, m, require_value);
    }
}

/// A line comment, opened by `#` or by `//` at `j`, is skipped where a
/// value is read: the value read there is the one read at the end of its
/// line.
pub proof fn lemma_line_comment_skipped(s: Seq<char>, j: int, m: int)
    requires
        0 <= j < m <= s.len(),
        s[j] == '#' || (s[j] == '/' && j + 1 < s.len() && s[j + 1] == '/'),
        forall|q: int| j < q < m ==> s[q] != '\n',
        m == s.len() || s[m] == '\n',
    ensures
        value_at(s, j, true) == value_at(s, m, true),
{
    reveal_with_fuel(value_at, 2);
    lemma_comment_to_line_end(s, j + 1, m, true);
    lemma_comment_openers();
}

/// A line comment between the elements of an array, opened by `#` or by
/// `//` at `j`, leaves the array as it is: the elements read from `j` on are
/// those read from the end of the comment's line on.
pub proof fn lemma_line_comment_in_array(s: Seq<char>, j: int, m: int, arr: Seq<Lexed>)
    requires
        0 <= j < m <= s.len(),
        s[j] == '#' || (s[j] == '/' && j + 1 < s.len() && s[j + 1] == '/'),
        forall|q: int| j < q < m ==> s[q] != '\n',
        m == s.len() || s[m] == '\n',
    ensures
        elements_at(s, j, arr) == elements_at(s, m, arr),
{
    lemma_comment_to_line_end(s, j + 1, m, false);
    lemma_comment_openers();
    assert(value_at(s, j, false) == comment_at(s, j + 1, false));
    if m == s.len() {
        let r = value_at(s, j, false);
        assert(elements_at(s, j, arr) == elements_at(s, s.len() as int, arr.push(r.0)));
    }
}

/// Whether `w` is a bare word the lexer reads back as itself: not empty,
/// with no delimiter and no quote in it, and not starting a comment or a
/// header.
pub open spec fn bare_word(w: Seq<char>) -> bool {
    &&& w.len() > 0
    &&& w[0] != '#' && w[0] != '/' && w[0] != '@'
    &&& forall|i: int| 0 <= i < w.len() ==> !is_delimiter(#[trigger] w[i]) && w[i] != '"'
}

/// Whether every element of `a` is a bare word.
pub open spec fn bare_words(a: Seq<Lexed>) -> bool {
    forall|i: int| 0 <= i < a.len() ==> (#[trigger] a[i] matches Lexed::Value(w) && bare_word(w))
}

/// A run of word characters ending at a delimiter is read as one word.
proof fn lemma_scan_word_run(s: Seq<char>, k: int, j: int, m: int)
    requires
        0 <= k < m < s.len(),
        k <= j <= m,
        forall|q: int| j <= q < m ==> s[q] != '"' && !is_delimiter(s[q]),
        is_delimiter(s[m]),
        s[m] != '"',
    ensures
        scan_word(s, k, j) == (Lexed::Value(s.subrange(k, m)), m),
    decreases m - j,
{
    if j < m {
        lemma_scan_word_run(s, k, j + 1, m);
    }
}

/// The rendered elements of `a` from `k` on, then the closing bracket, read
/// back as the rest of the array.
proof fn lemma_elements_read_back(s: Seq<char>, p: int, a: Seq<Lexed>, k: int)
    requires
        bare_words(a),
        0 <= k <= a.len(),
        0 <= p,
        p + render_list(a.skip(k)).len() + 1 <= s.len(),
        s.subrange(p, p + render_list(a.skip(k)).len() + 1) == render_list(a.skip(k)) + seq![']'],
    ensures
        elements_at(s, p, a.take(k)) == (Lexed::Array(a), p + render_list(a.skip(k)).len() + 1),
    decreases a.len() - k,
{
    let n = s.len() as int;
    if k == a.len() {
        assert(a.skip(k).len() == 0);
        assert(s[p] == (render_list(a.skip(k)) + seq![']'])[0]);
        lemma_comment_openers();
        assert(a.take(k) =~= a);
    } else {
        let w = a[k]->Value_0;
        assert(a[k] matches Lexed::Value(x) && bare_word(x));
        let rest = a.skip(k + 1);
        assert(a.skip(k)[0] == a[k]);
        assert(a.skip(k).drop_first() =~= rest);
        assert(a[k] == Lexed::Value(w));
        assert(render(a[k]) == w);
        assert(render_list(a.skip(k)) == render(a.skip(k)[0]) + seq![','] + render_list(a.skip(k).drop_first()));
        assert(render_list(a.skip(k)) == w + seq![','] + render_list(rest));
        let m = p + w.len();
        let big = s.subrange(p, p + render_list(a.skip(k)).len() + 1);
        assert forall|q: int| p <= q < m implies s[q] != '"' && !is_delimiter(s[q]) by {
            assert(s[q] == big[q - p]);
            assert(big[q - p] == w[q - p]);
        }
        assert(s[m] == big[w.len() as int]);
        assert(s[m] == ',');
        assert(s[p] == big[0]);
        assert(s[p] == w[0]);
        assert(!is_white_space(s[p]));
        lemma_scan_word_run(s, p, p, m);
        assert(s.subrange(p, m) =~= w);
        assert(value_at(s, p, false) == word_at(s, p));
        assert(a.take(k).push(Lexed::Value(w)) =~= a.take(k + 1));
        assert(elements_at(s, p, a.take(k)) == elements_at(s, m, a.take(k + 1)));
        assert(elements_at(s, m, a.take(k + 1)) == elements_at(s, m + 1, a.take(k + 1)));
        let tail_len = render_list(rest).len();
        assert(s.subrange(m + 1, m + 1 + tail_len + 1) =~= render_list(rest) + seq![']']) by {
            assert forall|q: int| 0 <= q < tail_len + 1 implies s.subrange(m + 1, m + 1 + tail_len + 1)[q] == (
            render_list(rest) + seq![']'])[q] by {
                assert(s[m + 1 + q] == big[w.len() + 1 + q]);
            }
        }
        lemma_elements_read_back(s, m + 1, a, k + 1);
    }
}

/// An array of bare words, rendered as text, is read back by the lexer as
/// the same array, whatever text follows it: each element is followed by
/// a `,` that keeps it apart from the next.
pub proof fn lemma_array_round_trip(a: Seq<Lexed>, tail: Seq<char>)
    requires
        bare_words(a),
    ensures
        array_at(render(Lexed::Array(a)) + tail, 0) == (Lexed::Array(a), render(Lexed::Array(a)).len() as int),
{
    let t = render(Lexed::Array(a)) + tail;
    let l = render_list(a);
    assert(render(Lexed::Array(a)) == seq!['['] + l + seq![']']);
    assert(t[0] == '[');
    assert(a.skip(0) =~= a);
    assert(a.take(0) =~= Seq::<Lexed>::empty());
    assert(t.subrange(1, 1 + l.len() as int + 1) =~= l + seq![']']);
    lemma_elements_read_back(t, 1, a, 0);
}

} // verus!

