//! Localization string mangling.
//!
//! Translatable text often differs only by a number ("Deal 20% damage" /
//! "Deal 30% damage"). Mangling replaces those spans with placeholders drawn
//! from a fixed table, so all such variants collapse to a single catalog
//! entry and rebalancing a number never invalidates a translation:
//!
//! ```text
//! authored   Deal 20% extra damage
//! mangled    Deal {12}% extra damage     <- the msgid translators see
//! restored   Deal 20% extra damage
//! ```
//!
//! Two spans are replaced: `{#text}`, written by hand to hold a piece of
//! text out of translation, and a bare `NN%`, detected automatically and
//! marked `{!NN}`. Any other `{name}` is passed through untouched.

use vstd::prelude::*;
use crate::strings::{chars_of, string_from_chars, string_push};
use crate::lexer::{parse_i32, parse_i32_spec};

verus! {

/// Number of placeholder tokens.
pub const SUBST_LEN: usize = 10;

/// The two characters of placeholder token `i`.
pub open spec fn token_chars(i: int) -> (char, char) {
    if i == 0 {
        ('1', '2')
    } else if i == 1 {
        ('3', '4')
    } else if i == 2 {
        ('5', '6')
    } else if i == 3 {
        ('7', '8')
    } else if i == 4 {
        ('9', '0')
    } else if i == 5 {
        ('1', '5')
    } else if i == 6 {
        ('2', '0')
    } else if i == 7 {
        ('2', '5')
    } else if i == 8 {
        ('3', '0')
    } else {
        ('3', '5')
    }
}

/// Placeholder tokens, consumed in order. The values are part of every
/// msgid in every existing catalog, so the table never changes.
pub open spec fn subst_token(i: int) -> Seq<char> {
    seq![token_chars(i).0, token_chars(i).1]
}

/// The index of the placeholder token `r`, if it is one.
pub open spec fn subst_index(r: Seq<char>) -> Option<int> {
    if exists|i: int| 0 <= i < 10 && subst_token(i) == r {
        Some(choose|i: int| 0 <= i < 10 && subst_token(i) == r)
    } else {
        None
    }
}

/// No two placeholder tokens are alike.
pub proof fn lemma_tokens_distinct(i: int, j: int)
    requires
        0 <= i < 10,
        0 <= j < 10,
        subst_token(i) == subst_token(j),
    ensures
        i == j,
{
    assert(subst_token(i)[0] == subst_token(j)[0]);
    assert(subst_token(i)[1] == subst_token(j)[1]);
}

/// `subst_index` finds exactly the token's own index.
pub proof fn lemma_subst_index(r: Seq<char>)
    ensures
        match subst_index(r) {
            Some(i) => 0 <= i < 10 && subst_token(i) == r,
            None => forall|i: int| 0 <= i < 10 ==> subst_token(i) != r,
        },
        forall|i: int| 0 <= i < 10 && subst_token(i) == r ==> subst_index(r) == Some(i),
{
    assert forall|i: int| 0 <= i < 10 && subst_token(i) == r implies subst_index(r) == Some(i) by {
        let j = choose|j: int| 0 <= j < 10 && subst_token(j) == r;
        lemma_tokens_distinct(i, j);
    }
}

/// The first position of `c` in `s`.
pub open spec fn find_char(s: Seq<char>, c: char) -> Option<int>
    decreases s.len(),
{
    if s.len() == 0 {
        None
    } else if s[0] == c {
        Some(0)
    } else {
        match find_char(s.drop_first(), c) {
            Some(i) => Some(i + 1),
            None => None,
        }
    }
}

pub proof fn lemma_find_char(s: Seq<char>, c: char)
    ensures
        match find_char(s, c) {
            Some(i) => 0 <= i < s.len() && s[i] == c && forall|j: int| 0 <= j < i ==> s[j] != c,
            None => forall|j: int| 0 <= j < s.len() ==> s[j] != c,
        },
    decreases s.len(),
{
    if s.len() > 0 {
        lemma_find_char(s.drop_first(), c);
        if s[0] != c {
            match find_char(s.drop_first(), c) {
                Some(i) => {
                    assert forall|j: int| 0 <= j < i + 1 implies s[j] != c by {
                        if j > 0 {
                            assert(s[j] == s.drop_first()[j - 1]);
                        }
                    }
                },
                None => {
                    assert forall|j: int| 0 <= j < s.len() implies s[j] != c by {
                        if j > 0 {
                            assert(s[j] == s.drop_first()[j - 1]);
                        }
                    }
                },
            }
        }
    }
}

pub proof fn lemma_first_span(s: Seq<char>)
    ensures
        first_span(s) matches Some((b, e)) ==> 0 <= b < e < s.len() && s[b] == '{' && s[e] == '}',
{
    lemma_find_char(s, '{');
    lemma_find_char(s, '}');
}

/// Where the first `{...}` span of `s` lies: its `{` and its `}`. There is
/// none when either brace is missing or the first `}` comes before the
/// first `{`.
pub open spec fn first_span(s: Seq<char>) -> Option<(int, int)> {
    match (find_char(s, '{'), find_char(s, '}')) {
        (Some(b), Some(e)) => if b < e {
            Some((b, e))
        } else {
            None
        },
        _ => None,
    }
}

/// Whether a span is one mangling takes out.
pub open spec fn is_marked(inner: Seq<char>) -> bool {
    inner.len() > 0 && (inner[0] == '#' || inner[0] == '!')
}

/// How many spans mangling takes out of `s`.
pub open spec fn marked_count(s: Seq<char>) -> nat
    decreases s.len(),
{
    match first_span(s) {
        Some((b, e)) => {
            proof {
                lemma_first_span(s);
            }
            let inner = s.subrange(b + 1, e);
            (if is_marked(inner) { 1nat } else { 0nat }) + marked_count(s.skip(e + 1))
        },
        None => 0,
    }
}

/// A space-separated piece with a bare `NN%` marked as `{!NN}%`.
pub open spec fn mark_piece(p: Seq<char>) -> Seq<char> {
    if p.len() >= 2 && p.last() == '%' && parse_i32_spec(p.drop_last()) is Some {
        seq!['{', '!'] + p.drop_last() + seq!['}', '%']
    } else {
        p
    }
}

/// Every space-separated piece of `s` marked.
pub open spec fn mark_numbers(s: Seq<char>) -> Seq<char>
    decreases s.len(),
{
    match find_char(s, ' ') {
        Some(i) => {
            proof {
                lemma_find_char(s, ' ');
            }
            mark_piece(s.take(i)) + seq![' '] + mark_numbers(s.skip(i + 1))
        },
        None => mark_piece(s),
    }
}

/// Mangling of the spans of `s`, `count` tokens having been used: the
/// text with every marked span replaced by the next token, and the spans
/// taken out.
pub open spec fn mangle_from(s: Seq<char>, count: int) -> (Seq<char>, Seq<Seq<char>>)
    decreases s.len(),
{
    match first_span(s) {
        Some((b, e)) => {
            proof {
                lemma_first_span(s);
            }
            let inner = s.subrange(b + 1, e);
            if is_marked(inner) {
                let rest = mangle_from(s.skip(e + 1), count + 1);
                (s.take(b) + seq!['{'] + subst_token(count) + seq!['}'] + rest.0, seq![inner] + rest.1)
            } else {
                let rest = mangle_from(s.skip(e + 1), count);
                (s.take(b) + seq!['{'] + inner + seq!['}'] + rest.0, rest.1)
            }
        },
        None => (s, Seq::empty()),
    }
}

/// The catalog key of `source` and the spans taken out of it.
pub open spec fn mangle_spec(source: Seq<char>) -> (Seq<char>, Seq<Seq<char>>) {
    mangle_from(mark_numbers(source), 0)
}

/// What goes back in place of the span `{r}`.
pub open spec fn put_back(r: Seq<char>, repl: Seq<Seq<char>>, recover_source: bool) -> Seq<char> {
    match subst_index(r) {
        Some(i) => if i < repl.len() {
            let p = repl[i];
            if recover_source {
                if p.len() > 0 && p[0] == '!' {
                    p.drop_first()
                } else {
                    seq!['{'] + p + seq!['}']
                }
            } else {
                if p.len() > 0 && (p[0] == '#' || p[0] == '!') {
                    p.drop_first()
                } else {
                    seq!['{'] + p + seq!['}']
                }
            }
        } else {
            seq!['{'] + r + seq!['}']
        },
        None => seq!['{'] + r + seq!['}'],
    }
}

/// `s` with every span put back.
pub open spec fn unmangle_from(s: Seq<char>, repl: Seq<Seq<char>>, recover_source: bool) -> Seq<char>
    decreases s.len(),
{
    match first_span(s) {
        Some((b, e)) => {
            proof {
                lemma_first_span(s);
            }
            s.take(b) + put_back(s.subrange(b + 1, e), repl, recover_source) + unmangle_from(
                s.skip(e + 1),
                repl,
                recover_source,
            )
        },
        None => s,
    }
}

/// A mangled string plus the spans that were taken out of it, in the order
/// the placeholders were consumed.
pub struct Mangled {
    pub text: String,
    pub replacements: Vec<String>,
}

/// The views of a list of strings.
pub open spec fn strings_view(v: Seq<String>) -> Seq<Seq<char>> {
    Seq::new(v.len(), |i: int| v[i]@)
}

impl View for Mangled {
    type V = (Seq<char>, Seq<Seq<char>>);

    open spec fn view(&self) -> (Seq<char>, Seq<Seq<char>>) {
        (self.text@, strings_view(self.replacements@))
    }
}

/// The first position of `c` in `v[from..]`, relative to `from`.
fn find_char_exec(v: &Vec<char>, from: usize, c: char) -> (r: Option<usize>)
    requires
        from <= v@.len(),
    ensures
        match r {
            Some(i) => find_char(v@.skip(from as int), c) == Some(i as int),
            None => find_char(v@.skip(from as int), c) is None,
        },
        r matches Some(i) ==> from + i < v@.len(),
{
    let mut i = from;
    while i < v.len()
        invariant
            from <= i <= v@.len(),
            find_char(v@.skip(from as int), c) == match find_char(v@.skip(i as int), c) {
                Some(k) => Some(k + (i - from)),
                None => None::<int>,
            },
        decreases v.len() - i,
    {
        assert(v@.skip(i as int).drop_first() =~= v@.skip(i + 1));
        if v[i] == c {
            return Some(i - from);
        }
        i = i + 1;
    }
    None
}

/// The first span of `v[from..]`, relative to `from`.
fn first_span_exec(v: &Vec<char>, from: usize) -> (r: Option<(usize, usize)>)
    requires
        from <= v@.len(),
    ensures
        match r {
            Some((b, e)) => first_span(v@.skip(from as int)) == Some((b as int, e as int)),
            None => first_span(v@.skip(from as int)) is None,
        },
        r matches Some((b, e)) ==> b < e && from + e < v@.len(),
{
    let ghost s = v@.skip(from as int);
    proof {
        lemma_find_char(s, '{');
        lemma_find_char(s, '}');
    }
    let ob = find_char_exec(v, from, '{');
    let oe = find_char_exec(v, from, '}');
    if let Some(b) = ob {
        if let Some(e) = oe {
            if b < e {
                assert(find_char(s, '{') == Some(b as int));
                assert(find_char(s, '}') == Some(e as int));
                assert(first_span(s) == Some((b as int, e as int)));
                return Some((b, e));
            }
        }
    }
    None
}

fn push_chars(out: &mut Vec<char>, v: &Vec<char>, from: usize, to: usize)
    requires
        from <= to <= v@.len(),
    ensures
        final(out)@ == old(out)@ + v@.subrange(from as int, to as int),
{
    let mut i = from;
    while i < to
        invariant
            from <= i <= to <= v@.len(),
            out@ == old(out)@ + v@.subrange(from as int, i as int),
        decreases to - i,
    {
        out.push(v[i]);
        i = i + 1;
    }
}

/// The two characters of token `i`.
fn token_pair(i: usize) -> (r: (char, char))
    requires
        i < SUBST_LEN,
    ensures
        r == token_chars(i as int),
{
    if i == 0 {
        ('1', '2')
    } else if i == 1 {
        ('3', '4')
    } else if i == 2 {
        ('5', '6')
    } else if i == 3 {
        ('7', '8')
    } else if i == 4 {
        ('9', '0')
    } else if i == 5 {
        ('1', '5')
    } else if i == 6 {
        ('2', '0')
    } else if i == 7 {
        ('2', '5')
    } else if i == 8 {
        ('3', '0')
    } else {
        ('3', '5')
    }
}

/// The token at `i` as characters.
fn subst_chars(i: usize) -> (r: Vec<char>)
    requires
        i < SUBST_LEN,
    ensures
        r@ == subst_token(i as int),
{
    let (a, b) = token_pair(i);
    let mut r = Vec::new();
    r.push(a);
    r.push(b);
    assert(r@ =~= subst_token(i as int));
    r
}

/// The index of the token `r` holds, if it holds one.
fn token_index(r: &Vec<char>) -> (res: Option<usize>)
    ensures
        match res {
            Some(i) => subst_index(r@) == Some(i as int),
            None => subst_index(r@) is None,
        },
{
    proof {
        lemma_subst_index(r@);
    }
    let mut i: usize = 0;
    while i < SUBST_LEN
        invariant
            i <= SUBST_LEN,
            forall|j: int| 0 <= j < i ==> subst_token(j) != r@,
        decreases SUBST_LEN - i,
    {
        let (a, b) = token_pair(i);
        if r.len() == 2 && r[0] == a && r[1] == b {
            assert(r@ =~= subst_token(i as int));
            return Some(i);
        }
        assert(r@ != subst_token(i as int)) by {
            if r@ == subst_token(i as int) {
                assert(r@[0] == a && r@[1] == b);
            }
        }
        i = i + 1;
    }
    None
}

/// `p` marked as `{!NN}%` when it is a bare `NN%`.
fn mark_piece_exec(p: Vec<char>) -> (r: Vec<char>)
    ensures
        r@ == mark_piece(p@),
{
    let n = p.len();
    if n >= 2 && p[n - 1] == '%' {
        let d = copy_range(&p, 0, n - 1);
        assert(d@ =~= p@.drop_last());
        if parse_i32(d.as_slice()).is_some() {
            let mut r: Vec<char> = Vec::new();
            r.push('{');
            r.push('!');
            push_chars(&mut r, &d, 0, n - 1);
            r.push('}');
            r.push('%');
            assert(d@.subrange(0, n - 1) =~= d@);
            assert(r@ =~= seq!['{', '!'] + p@.drop_last() + seq!['}', '%']);
            return r;
        }
    }
    p
}

/// `v` with every space-separated `NN%` piece marked.
fn mark_numbers_exec(v: &Vec<char>) -> (r: Vec<char>)
    ensures
        r@ == mark_numbers(v@),
{
    let mut out: Vec<char> = Vec::new();
    let mut p: usize = 0;
    let n = v.len();
    assert(v@.skip(0) =~= v@);
    loop
        invariant
            p <= n,
            n == v@.len(),
            mark_numbers(v@) == out@ + mark_numbers(v@.skip(p as int)),
        decreases n - p,
    {
        let ghost s = v@.skip(p as int);
        proof {
            lemma_find_char(s, ' ');
        }
        let sp = find_char_exec(v, p, ' ');
        match sp {
            Some(i) => {
                let piece = copy_range(v, p, p + i);
                assert(piece@ =~= s.take(i as int));
                assert(s.skip(i + 1) =~= v@.skip(p + i + 1));
                let m = mark_piece_exec(piece);
                let ghost before = out@;
                push_chars(&mut out, &m, 0, m.len());
                out.push(' ');
                assert(m@.subrange(0, m@.len() as int) =~= m@);
                assert(out@ =~= before + mark_piece(s.take(i as int)) + seq![' ']);
                p = p + i + 1;
            },
            None => {
                let piece = copy_range(v, p, n);
                assert(piece@ =~= s);
                let m = mark_piece_exec(piece);
                push_chars(&mut out, &m, 0, m.len());
                assert(m@.subrange(0, m@.len() as int) =~= m@);
                return out;
            },
        }
    }
}

fn copy_range(v: &Vec<char>, from: usize, to: usize) -> (r: Vec<char>)
    requires
        from <= to <= v@.len(),
    ensures
        r@ == v@.subrange(from as int, to as int),
{
    let mut r = Vec::new();
    push_chars(&mut r, v, from, to);
    r
}

fn string_of(v: &Vec<char>) -> (s: String)
    ensures
        s@ == v@,
{
    let s = string_from_chars(v.as_slice(), 0, v.len());
    assert(v@.subrange(0, v@.len() as int) =~= v@);
    s
}

/// Rewrites `source` into its catalog key form.
///
/// Needs at most ten marked spans: the placeholder table cannot grow
/// without invalidating existing translations, so more is a data error.
#[verifier::rlimit(40)]
#[verifier::spinoff_prover]
pub fn mangle(source: &str) -> (r: Mangled)
    requires
        marked_count(mark_numbers(source@)) <= 10,
    ensures
        r@ == mangle_spec(source@),
{
    let src = chars_of(source);
    let v = mark_numbers_exec(&src);
    let mut out: Vec<char> = Vec::new();
    let mut repl: Vec<String> = Vec::new();
    let mut p: usize = 0;
    let n = v.len();
    assert(v@.skip(0) =~= v@);
    assert(strings_view(repl@) =~= Seq::<Seq<char>>::empty());
    loop
        invariant
            p <= n,
            n == v@.len(),
            v@ == mark_numbers(source@),
            repl@.len() + marked_count(v@.skip(p as int)) <= 10,
            mangle_spec(source@) == (
                out@ + mangle_from(v@.skip(p as int), repl@.len() as int).0,
                strings_view(repl@) + mangle_from(v@.skip(p as int), repl@.len() as int).1,
            ),
        decreases n - p,
    {
        let ghost s = v@.skip(p as int);
        proof {
            lemma_first_span(s);
        }
        match first_span_exec(&v, p) {
            Some((b, e)) => {
                let inner = copy_range(&v, p + b + 1, p + e);
                assert(inner@ =~= s.subrange(b + 1, e as int));
                assert(s.take(b as int) =~= v@.subrange(p as int, (p + b) as int));
                assert(s.skip(e + 1) =~= v@.skip(p + e + 1));
                let ghost k = repl@.len() as int;
                assert(marked_count(s) == (if is_marked(inner@) { 1nat } else { 0nat }) + marked_count(
                    v@.skip(p + e + 1),
                ));
                assert(mangle_from(s, k) == if is_marked(inner@) {
                    let rest = mangle_from(v@.skip(p + e + 1), k + 1);
                    (s.take(b as int) + seq!['{'] + subst_token(k) + seq!['}'] + rest.0, seq![inner@] + rest.1)
                } else {
                    let rest = mangle_from(v@.skip(p + e + 1), k);
                    (s.take(b as int) + seq!['{'] + inner@ + seq!['}'] + rest.0, rest.1)
                });
                push_chars(&mut out, &v, p, p + b);
                out.push('{');
                if inner.len() > 0 && (inner[0] == '#' || inner[0] == '!') {
                    let tok = subst_chars(repl.len());
                    push_chars(&mut out, &tok, 0, 2);
                    assert(tok@.subrange(0, 2) =~= tok@);
                    let ghost before = repl@;
                    repl.push(string_of(&inner));
                    assert(strings_view(repl@) =~= strings_view(before) + seq![inner@]);
                } else {
                    push_chars(&mut out, &v, p + b + 1, p + e);
                }
                out.push('}');
                p = p + e + 1;
            },
            None => {
                push_chars(&mut out, &v, p, n);
                assert(v@.subrange(p as int, n as int) =~= s);
                let text = string_of(&out);
                return Mangled { text, replacements: repl };
            },
        }
    }
}

/// Puts the stripped spans back.
///
/// With `recover_source` the authored string is reproduced, which is what
/// the extractor checks its own round trip against. Without it the markers
/// are dropped and the plain text remains, which is what a player sees.
#[verifier::rlimit(40)]
#[verifier::spinoff_prover]
pub fn unmangle(mangled: &Mangled, recover_source: bool) -> (r: String)
    ensures
        r@ == unmangle_from(mangled.text@, strings_view(mangled.replacements@), recover_source),
{
    let ghost repl = strings_view(mangled.replacements@);
    let v = chars_of(mangled.text.as_str());
    let mut out: Vec<char> = Vec::new();
    let mut p: usize = 0;
    let n = v.len();
    assert(v@.skip(0) =~= v@);
    loop
        invariant
            p <= n,
            n == v@.len(),
            repl == strings_view(mangled.replacements@),
            v@ == mangled.text@,
            unmangle_from(v@, repl, recover_source) == out@ + unmangle_from(
                v@.skip(p as int),
                repl,
                recover_source,
            ),
        decreases n - p,
    {
        let ghost s = v@.skip(p as int);
        proof {
            lemma_first_span(s);
        }
        match first_span_exec(&v, p) {
            Some((b, e)) => {
                let inner = copy_range(&v, p + b + 1, p + e);
                assert(inner@ =~= s.subrange(b + 1, e as int));
                assert(s.take(b as int) =~= v@.subrange(p as int, (p + b) as int));
                assert(s.skip(e + 1) =~= v@.skip(p + e + 1));
                assert(unmangle_from(s, repl, recover_source) == s.take(b as int) + put_back(
                    inner@,
                    repl,
                    recover_source,
                ) + unmangle_from(v@.skip(p + e + 1), repl, recover_source));
                let ghost before = out@;
                push_chars(&mut out, &v, p, p + b);
                let put = put_back_exec(&inner, mangled, recover_source);
                push_chars(&mut out, &put, 0, put.len());
                assert(put@.subrange(0, put@.len() as int) =~= put@);
                assert(out@ =~= before + s.take(b as int) + put_back(inner@, repl, recover_source));
                p = p + e + 1;
            },
            None => {
                push_chars(&mut out, &v, p, n);
                assert(v@.subrange(p as int, n as int) =~= s);
                return string_of(&out);
            },
        }
    }
}

/// `{r}` wrapped back in braces.
fn braced(r: &Vec<char>) -> (res: Vec<char>)
    ensures
        res@ == seq!['{'] + r@ + seq!['}'],
{
    let mut res: Vec<char> = Vec::new();
    res.push('{');
    push_chars(&mut res, r, 0, r.len());
    res.push('}');
    assert(r@.subrange(0, r@.len() as int) =~= r@);
    assert(res@ =~= seq!['{'] + r@ + seq!['}']);
    res
}

/// What goes back in place of the span `{r}`.
fn put_back_exec(r: &Vec<char>, mangled: &Mangled, recover_source: bool) -> (res: Vec<char>)
    ensures
        res@ == put_back(r@, strings_view(mangled.replacements@), recover_source),
{
    let ghost repl = strings_view(mangled.replacements@);
    match token_index(r) {
        Some(i) => {
            if i < mangled.replacements.len() {
                let p = chars_of(mangled.replacements[i].as_str());
                assert(p@ == repl[i as int]);
                let n = p.len();
                let strip = if recover_source {
                    n > 0 && p[0] == '!'
                } else {
                    n > 0 && (p[0] == '#' || p[0] == '!')
                };
                if strip {
                    let res = copy_range(&p, 1, n);
                    assert(res@ =~= p@.drop_first());
                    res
                } else {
                    braced(&p)
                }
            } else {
                braced(r)
            }
        },
        None => braced(r),
    }
}

/// `s` with every `(s)` plural marker, taken left to right, replaced by `w`.
pub open spec fn replace_plural_mark(s: Seq<char>, w: Seq<char>) -> Seq<char>
    decreases s.len(),
{
    if s.len() == 0 {
        s
    } else if s.len() >= 3 && s[0] == '(' && s[1] == 's' && s[2] == ')' {
        w + replace_plural_mark(s.skip(3), w)
    } else {
        seq![s[0]] + replace_plural_mark(s.drop_first(), w)
    }
}

/// `v` with every `(s)` replaced by `w`.
pub fn replace_plural_mark_exec(v: &Vec<char>, w: &Vec<char>) -> (r: Vec<char>)
    ensures
        r@ == replace_plural_mark(v@, w@),
{
    let mut out: Vec<char> = Vec::new();
    let mut i: usize = 0;
    let n = v.len();
    assert(v@.skip(0) =~= v@);
    while i < n
        invariant
            i <= n,
            n == v@.len(),
            replace_plural_mark(v@, w@) == out@ + replace_plural_mark(v@.skip(i as int), w@),
        decreases n - i,
    {
        let ghost s = v@.skip(i as int);
        let ghost before = out@;
        if n - i >= 3 && v[i] == '(' && v[i + 1] == 's' && v[i + 2] == ')' {
            push_chars(&mut out, w, 0, w.len());
            assert(w@.subrange(0, w@.len() as int) =~= w@);
            assert(s.skip(3) =~= v@.skip(i + 3));
            i = i + 3;
        } else {
            out.push(v[i]);
            assert(s.drop_first() =~= v@.skip(i + 1));
            assert(out@ =~= before + seq![s[0]]);
            i = i + 1;
        }
    }
    out
}

/// The text a player is shown for `text`: mangled, then unmangled with
/// the markers dropped.
pub open spec fn display_text(text: Seq<char>) -> Seq<char> {
    unmangle_from(mangle_spec(text).0, mangle_spec(text).1, false)
}

/// The text `text` is shown as when no translation is bound: wrapped in
/// angle brackets so the gap is visible on screen.
pub open spec fn untranslated(text: Seq<char>) -> Seq<char> {
    seq!['<'] + display_text(text) + seq!['>']
}

/// Supplies translations for the strings a generated accessor asks for.
///
/// The application binds it to whatever catalog it uses. Texts are looked up
/// by their mangled form, so they are texts mangling accepts.
pub trait Translation {
    fn translate(&self, text: &str, category: &str) -> (r: String)
        requires
            marked_count(mark_numbers(text@)) <= 10,
    ;

    fn translate_plural(&self, text: &str, category: &str, plural_n: i32) -> (r: String)
        requires
            marked_count(mark_numbers(text@)) <= 10,
    ;
}

/// Returns the source text unchanged, wrapped so an unbound translation is
/// visible on screen rather than silently shipping the source language.
pub struct NoTranslation;

/// `text` as shown untranslated, as characters.
fn untranslated_exec(text: &str) -> (r: Vec<char>)
    requires
        marked_count(mark_numbers(text@)) <= 10,
    ensures
        r@ == untranslated(text@),
{
    let m = mangle(text);
    let shown = unmangle(&m, false);
    let c = chars_of(shown.as_str());
    let mut r: Vec<char> = Vec::new();
    r.push('<');
    push_chars(&mut r, &c, 0, c.len());
    r.push('>');
    assert(c@.subrange(0, c@.len() as int) =~= c@);
    assert(r@ =~= untranslated(text@));
    r
}

impl Translation for NoTranslation {
    fn translate(&self, text: &str, _category: &str) -> (r: String)
        ensures
            r@ == untranslated(text@),
    {
        let v = untranslated_exec(text);
        string_of(&v)
    }

    fn translate_plural(&self, text: &str, _category: &str, plural_n: i32) -> (r: String)
        ensures
            r@ == replace_plural_mark(
                untranslated(text@),
                if plural_n > 1 {
                    seq!['s']
                } else {
                    Seq::empty()
                },
            ),
    {
        let v = untranslated_exec(text);
        let mut w: Vec<char> = Vec::new();
        if plural_n > 1 {
            w.push('s');
        }
        assert(w@ =~= if plural_n > 1 {
            seq!['s']
        } else {
            Seq::<char>::empty()
        });
        let r = replace_plural_mark_exec(&v, &w);
        string_of(&r)
    }
}

/// One translatable string found in the data.
pub struct TranslatableString {
    /// Source text, exactly as authored.
    pub text: String,
    /// Catalog context, from `{Category}` in the typedef.
    pub category: String,
    pub plural: bool,
    /// `Type.Field` the string came from, for the translator comment.
    pub field: String,
    /// Object path the string came from.
    pub path: String,
}

/// Collects every translatable string an object holds, recursing into
/// nested structs and arrays. Implemented by generated code.
pub trait CollectStrings {
    fn collect_strings(&self, path: &str, out: &mut Vec<TranslatableString>);
}

/// Whether `s` holds no brace.
pub open spec fn no_braces(s: Seq<char>) -> bool {
    forall|j: int| 0 <= j < s.len() ==> s[j] != '{' && s[j] != '}'
}

proof fn lemma_find_char_shift(a: Seq<char>, b: Seq<char>, c: char)
    requires
        forall|j: int| 0 <= j < a.len() ==> a[j] != c,
    ensures
        find_char(a + b, c) == match find_char(b, c) {
            Some(i) => Some(i + a.len()),
            None => None::<int>,
        },
    decreases a.len(),
{
    if a.len() == 0 {
        assert(a + b =~= b);
    } else {
        assert((a + b).drop_first() =~= a.drop_first() + b);
        assert((a + b)[0] == a[0]);
        lemma_find_char_shift(a.drop_first(), b, c);
    }
}

proof fn lemma_first_span_shift(a: Seq<char>, b: Seq<char>)
    requires
        no_braces(a),
    ensures
        first_span(a + b) == match first_span(b) {
            Some((x, y)) => Some((x + a.len(), y + a.len())),
            None => None::<(int, int)>,
        },
{
    lemma_find_char_shift(a, b, '{');
    lemma_find_char_shift(a, b, '}');
}

/// A brace-free prefix passes through mangling and unmangling untouched.
proof fn lemma_mangle_prefix(a: Seq<char>, b: Seq<char>, k: int, repl: Seq<Seq<char>>, rec: bool)
    requires
        no_braces(a),
    ensures
        mangle_from(a + b, k) == (a + mangle_from(b, k).0, mangle_from(b, k).1),
        marked_count(a + b) == marked_count(b),
        unmangle_from(a + b, repl, rec) == a + unmangle_from(b, repl, rec),
{
    lemma_first_span_shift(a, b);
    lemma_first_span(b);
    let t = a + b;
    match first_span(b) {
        Some((x, y)) => {
            let n = a.len() as int;
            assert(t.take(x + n) =~= a + b.take(x));
            assert(t.subrange(x + n + 1, y + n) =~= b.subrange(x + 1, y));
            assert(t.skip(y + n + 1) =~= b.skip(y + 1));
            let inner = b.subrange(x + 1, y);
            if is_marked(inner) {
                let rest = mangle_from(b.skip(y + 1), k + 1);
                assert(a + b.take(x) + seq!['{'] + subst_token(k) + seq!['}'] + rest.0 =~= a + (b.take(x)
                    + seq!['{'] + subst_token(k) + seq!['}'] + rest.0));
            } else {
                let rest = mangle_from(b.skip(y + 1), k);
                assert(a + b.take(x) + seq!['{'] + inner + seq!['}'] + rest.0 =~= a + (b.take(x) + seq!['{']
                    + inner + seq!['}'] + rest.0));
            }
            let ub = unmangle_from(b.skip(y + 1), repl, rec);
            assert(a + b.take(x) + put_back(inner, repl, rec) + ub =~= a + (b.take(x) + put_back(inner, repl, rec)
                + ub));
        },
        None => {},
    }
}

/// A `{!d}` span mangles to the next placeholder, and `d` is what goes
/// back.
proof fn lemma_mangle_marked(d: Seq<char>, b: Seq<char>, k: int)
    requires
        no_braces(d),
    ensures
        mangle_from(seq!['{', '!'] + d + seq!['}'] + b, k) == (
            seq!['{'] + subst_token(k) + seq!['}'] + mangle_from(b, k + 1).0,
            seq![seq!['!'] + d] + mangle_from(b, k + 1).1,
        ),
        marked_count(seq!['{', '!'] + d + seq!['}'] + b) == 1 + marked_count(b),
{
    let a = seq!['{', '!'] + d;
    let t = a + (seq!['}'] + b);
    assert(seq!['{', '!'] + d + seq!['}'] + b =~= t);
    assert(t[0] == '{');
    assert(find_char(t, '{') == Some(0int));
    lemma_find_char_shift(a, seq!['}'] + b, '}');
    assert(find_char(seq!['}'] + b, '}') == Some(0int));
    assert(first_span(t) == Some((0int, a.len() as int)));
    assert(t.subrange(1, a.len() as int) =~= seq!['!'] + d);
    assert(t.take(0) =~= Seq::<char>::empty());
    assert(t.skip(a.len() + 1int) =~= b);
    assert(is_marked(seq!['!'] + d));
}

/// The spans taken out are as many as `marked_count` says.
proof fn lemma_mangle_len(t: Seq<char>, k: int)
    ensures
        mangle_from(t, k).1.len() == marked_count(t),
    decreases t.len(),
{
    lemma_first_span(t);
    match first_span(t) {
        Some((x, y)) => {
            if is_marked(t.subrange(x + 1, y)) {
                lemma_mangle_len(t.skip(y + 1), k + 1);
            } else {
                lemma_mangle_len(t.skip(y + 1), k);
            }
        },
        None => {},
    }
}

proof fn lemma_no_braces_sub(s: Seq<char>, i: int, j: int)
    requires
        no_braces(s),
        0 <= i <= j <= s.len(),
    ensures
        no_braces(s.subrange(i, j)),
{
    assert forall|q: int| 0 <= q < s.subrange(i, j).len() implies s.subrange(i, j)[q] != '{' && s.subrange(i, j)[q]
        != '}' by {
        assert(s.subrange(i, j)[q] == s[i + q]);
    }
}

/// `c` first occurs at `j` when it is there and nowhere before.
proof fn lemma_find_char_at(s: Seq<char>, c: char, j: int)
    requires
        0 <= j < s.len(),
        s[j] == c,
        forall|q: int| 0 <= q < j ==> s[q] != c,
    ensures
        find_char(s, c) == Some(j),
    decreases j,
{
    if j > 0 {
        assert forall|q: int| 0 <= q < j - 1 implies s.drop_first()[q] != c by {
            assert(s.drop_first()[q] == s[q + 1]);
        }
        lemma_find_char_at(s.drop_first(), c, j - 1);
    }
}

/// A span found in `s` is found, unchanged, in anything `s` starts.
proof fn lemma_first_span_extend(s: Seq<char>, y: Seq<char>)
    requires
        first_span(s) is Some,
    ensures
        first_span(s + y) == first_span(s),
{
    lemma_first_span(s);
    let (b, e) = first_span(s).unwrap();
    lemma_find_char(s, '{');
    lemma_find_char(s, '}');
    lemma_find_char_at(s + y, '{', b);
    lemma_find_char_at(s + y, '}', e);
}

/// A span found in `s` is found in every prefix of `s` that holds it.
proof fn lemma_first_span_take(s: Seq<char>, n: int)
    requires
        first_span(s) matches Some((b, e)) && e < n <= s.len(),
    ensures
        first_span(s.take(n)) == first_span(s),
{
    lemma_first_span(s);
    let (b, e) = first_span(s).unwrap();
    lemma_find_char(s, '{');
    lemma_find_char(s, '}');
    lemma_find_char_at(s.take(n), '{', b);
    lemma_find_char_at(s.take(n), '}', e);
}

/// What goes back in place of the span `{p}` that mangling took out: a
/// `{!d}` gives `d`; with the source recovered a `{#x}` stays, for display
/// it gives `x`; any other span stays.
pub open spec fn put_back_span(p: Seq<char>, recover_source: bool) -> Seq<char> {
    if p.len() > 0 && (p[0] == '!' || (!recover_source && p[0] == '#')) {
        p.drop_first()
    } else {
        seq!['{'] + p + seq!['}']
    }
}

/// `t` with every span put back as `put_back_span` says.
pub open spec fn restore(t: Seq<char>, recover_source: bool) -> Seq<char>
    decreases t.len(),
{
    match first_span(t) {
        Some((b, e)) => {
            proof {
                lemma_first_span(t);
            }
            t.take(b) + put_back_span(t.subrange(b + 1, e), recover_source) + restore(t.skip(e + 1), recover_source)
        },
        None => t,
    }
}

/// Whether no span of `t` that mangling passes through is a placeholder.
pub open spec fn tokens_free(t: Seq<char>) -> bool
    decreases t.len(),
{
    match first_span(t) {
        Some((b, e)) => {
            proof {
                lemma_first_span(t);
            }
            (is_marked(t.subrange(b + 1, e)) || subst_index(t.subrange(b + 1, e)) is None) && tokens_free(
                t.skip(e + 1),
            )
        },
        None => true,
    }
}

/// The placeholder `{tok}` of slot `k` unmangles to what goes back for the
/// span it stands for.
proof fn lemma_unmangle_placeholder(k: int, rest: Seq<char>, repl: Seq<Seq<char>>, rec: bool)
    requires
        0 <= k < 10,
        k < repl.len(),
    ensures
        unmangle_from(seq!['{'] + subst_token(k) + seq!['}'] + rest, repl, rec) == put_back_span(repl[k], rec)
            + unmangle_from(rest, repl, rec),
{
    let a = seq!['{'] + subst_token(k);
    let t = a + (seq!['}'] + rest);
    assert(seq!['{'] + subst_token(k) + seq!['}'] + rest =~= t);
    assert(t[0] == '{');
    assert(find_char(t, '{') == Some(0int));
    assert(forall|j: int| 0 <= j < a.len() ==> a[j] != '}') by {
        assert(a[1] == token_chars(k).0 && a[2] == token_chars(k).1);
    }
    lemma_find_char_shift(a, seq!['}'] + rest, '}');
    assert(find_char(seq!['}'] + rest, '}') == Some(0int));
    assert(first_span(t) == Some((0int, 3int)));
    assert(t.subrange(1, 3) =~= subst_token(k));
    assert(t.take(0) =~= Seq::<char>::empty());
    assert(t.skip(4) =~= rest);
    lemma_subst_index(subst_token(k));
    assert(Seq::<char>::empty() + put_back_span(repl[k], rec) + unmangle_from(rest, repl, rec) =~= put_back_span(
        repl[k],
        rec,
    ) + unmangle_from(rest, repl, rec));
}

/// A span passed through unmangles to itself.
proof fn lemma_unmangle_passed(p: Seq<char>, rest: Seq<char>, repl: Seq<Seq<char>>, rec: bool)
    requires
        forall|j: int| 0 <= j < p.len() ==> p[j] != '}',
        subst_index(p) is None,
    ensures
        unmangle_from(seq!['{'] + p + seq!['}'] + rest, repl, rec) == seq!['{'] + p + seq!['}'] + unmangle_from(
            rest,
            repl,
            rec,
        ),
{
    let a = seq!['{'] + p;
    let t = a + (seq!['}'] + rest);
    assert(seq!['{'] + p + seq!['}'] + rest =~= t);
    assert(t[0] == '{');
    assert(find_char(t, '{') == Some(0int));
    assert(forall|j: int| 0 <= j < a.len() ==> a[j] != '}') by {
        assert forall|j: int| 0 < j < a.len() implies a[j] != '}' by {
            assert(a[j] == p[j - 1]);
        }
    }
    lemma_find_char_shift(a, seq!['}'] + rest, '}');
    assert(find_char(seq!['}'] + rest, '}') == Some(0int));
    assert(first_span(t) == Some((0int, a.len() as int)));
    assert(t.subrange(1, a.len() as int) =~= p);
    assert(t.take(0) =~= Seq::<char>::empty());
    assert(t.skip(a.len() + 1int) =~= rest);
    assert(Seq::<char>::empty() + (seq!['{'] + p + seq!['}']) + unmangle_from(rest, repl, rec) =~= seq!['{'] + p
        + seq!['}'] + unmangle_from(rest, repl, rec));
}

/// Unmangling what mangling made, with the spans it took out in place from
/// slot `k` on, puts every span back.
#[verifier::spinoff_prover]
proof fn lemma_unmangle_mangled(t: Seq<char>, k: int, repl: Seq<Seq<char>>, rec: bool)
    requires
        tokens_free(t),
        0 <= k,
        k + marked_count(t) <= 10,
        repl.len() >= k + marked_count(t),
        forall|j: int| 0 <= j < marked_count(t) ==> repl[k + j] == #[trigger] mangle_from(t, k).1[j],
    ensures
        unmangle_from(mangle_from(t, k).0, repl, rec) == restore(t, rec),
    decreases t.len(),
{
    lemma_first_span(t);
    lemma_find_char(t, '{');
    lemma_find_char(t, '}');
    match first_span(t) {
        Some((b, e)) => {
            let a = t.take(b);
            let inner = t.subrange(b + 1, e);
            let rest = t.skip(e + 1);
            assert(no_braces(a));
            if is_marked(inner) {
                let m = mangle_from(rest, k + 1);
                lemma_mangle_len(rest, k + 1);
                assert(mangle_from(t, k).1 =~= seq![inner] + m.1);
                assert(repl[k] == inner) by {
                    assert(mangle_from(t, k).1[0] == inner);
                }
                assert forall|j: int| 0 <= j < marked_count(rest) implies repl[(k + 1) + j] == #[trigger] m.1[j] by {
                    assert(mangle_from(t, k).1[j + 1] == m.1[j]);
                }
                lemma_unmangle_mangled(rest, k + 1, repl, rec);
                let y = seq!['{'] + subst_token(k) + seq!['}'] + m.0;
                assert(mangle_from(t, k).0 =~= a + y);
                lemma_mangle_prefix(a, y, k, repl, rec);
                lemma_unmangle_placeholder(k, m.0, repl, rec);
                assert(a + (put_back_span(inner, rec) + restore(rest, rec)) =~= a + put_back_span(inner, rec)
                    + restore(rest, rec));
            } else {
                let m = mangle_from(rest, k);
                assert forall|j: int| 0 <= j < marked_count(rest) implies repl[k + j] == #[trigger] m.1[j] by {
                    assert(mangle_from(t, k).1[j] == m.1[j]);
                }
                lemma_unmangle_mangled(rest, k, repl, rec);
                let y = seq!['{'] + inner + seq!['}'] + m.0;
                assert(mangle_from(t, k).0 =~= a + y);
                lemma_mangle_prefix(a, y, k, repl, rec);
                assert forall|j: int| 0 <= j < inner.len() implies inner[j] != '}' by {
                    assert(inner[j] == t[b + 1 + j]);
                }
                lemma_unmangle_passed(inner, m.0, repl, rec);
                assert(put_back_span(inner, rec) == seq!['{'] + inner + seq!['}']);
                assert(a + (seq!['{'] + inner + seq!['}'] + restore(rest, rec)) =~= a + put_back_span(inner, rec)
                    + restore(rest, rec));
            }
        },
        None => {},
    }
}

/// Whether every brace of `t` belongs to a span: each `{` is closed by a `}`
/// before the next `{`, and no `}` stands alone.
pub open spec fn closed(t: Seq<char>) -> bool
    decreases t.len(),
{
    match first_span(t) {
        Some((b, e)) => {
            proof {
                lemma_first_span(t);
            }
            closed(t.skip(e + 1))
        },
        None => no_braces(t),
    }
}

/// Whether `s` is a text mangling gives back: every brace belongs to a
/// span, no span holds a space, none starts with `!`, and no span mangling
/// passes through is a placeholder.
pub open spec fn span_ok(s: Seq<char>) -> bool
    decreases s.len(),
{
    match first_span(s) {
        Some((b, e)) => {
            proof {
                lemma_first_span(s);
            }
            let inner = s.subrange(b + 1, e);
            &&& forall|j: int| 0 <= j < inner.len() ==> inner[j] != ' '
            &&& !(inner.len() > 0 && inner[0] == '!')
            &&& (is_marked(inner) || subst_index(inner) is None)
            &&& span_ok(s.skip(e + 1))
        },
        None => no_braces(s),
    }
}

proof fn lemma_no_braces_no_span(t: Seq<char>)
    requires
        no_braces(t),
    ensures
        first_span(t) is None,
{
    lemma_find_char(t, '{');
}

/// A brace-free prefix passes through putting spans back untouched.
proof fn lemma_restore_prefix(a: Seq<char>, y: Seq<char>, rec: bool)
    requires
        no_braces(a),
    ensures
        restore(a + y, rec) == a + restore(y, rec),
        tokens_free(a + y) == tokens_free(y),
{
    lemma_first_span_shift(a, y);
    lemma_first_span(y);
    let t = a + y;
    match first_span(y) {
        Some((x, z)) => {
            let n = a.len() as int;
            assert(t.take(x + n) =~= a + y.take(x));
            assert(t.subrange(x + n + 1, z + n) =~= y.subrange(x + 1, z));
            assert(t.skip(z + n + 1) =~= y.skip(z + 1));
            let inner = y.subrange(x + 1, z);
            assert(a + y.take(x) + put_back_span(inner, rec) + restore(y.skip(z + 1), rec) =~= a + (y.take(x)
                + put_back_span(inner, rec) + restore(y.skip(z + 1), rec)));
        },
        None => {},
    }
}

/// A brace-free prefix leaves a text as closed as it was.
proof fn lemma_closed_prefix(a: Seq<char>, y: Seq<char>)
    requires
        no_braces(a),
    ensures
        closed(a + y) == closed(y),
{
    lemma_first_span_shift(a, y);
    lemma_first_span(y);
    match first_span(y) {
        Some((x, z)) => {
            let n = a.len() as int;
            assert((a + y).skip(z + n + 1) =~= y.skip(z + 1));
        },
        None => {
            assert(no_braces(a + y) == no_braces(y)) by {
                if no_braces(y) {
                    assert forall|j: int| 0 <= j < (a + y).len() implies (a + y)[j] != '{' && (a + y)[j] != '}' by {
                        if j >= a.len() {
                            assert((a + y)[j] == y[j - a.len()]);
                        }
                    }
                }
                if no_braces(a + y) {
                    assert forall|j: int| 0 <= j < y.len() implies y[j] != '{' && y[j] != '}' by {
                        assert((a + y)[j + a.len()] == y[j]);
                    }
                }
            }
        },
    }
}

/// Two closed texts make a closed text.
proof fn lemma_closed_join(x: Seq<char>, y: Seq<char>)
    requires
        closed(x),
        closed(y),
    ensures
        closed(x + y),
    decreases x.len(),
{
    lemma_first_span(x);
    match first_span(x) {
        Some((b, e)) => {
            lemma_first_span_extend(x, y);
            assert((x + y).skip(e + 1) =~= x.skip(e + 1) + y);
            lemma_closed_join(x.skip(e + 1), y);
        },
        None => {
            lemma_closed_prefix(x, y);
        },
    }
}

/// Mangling goes piece by piece across a closed prefix: the rest takes its
/// placeholders after the prefix's.
proof fn lemma_mangle_closed_concat(x: Seq<char>, y: Seq<char>, k: int)
    requires
        closed(x),
    ensures
        mangle_from(x + y, k).0 == mangle_from(x, k).0 + mangle_from(y, k + marked_count(x)).0,
    decreases x.len(),
{
    lemma_first_span(x);
    match first_span(x) {
        Some((b, e)) => {
            lemma_first_span_extend(x, y);
            let t = x + y;
            assert(t.take(b) =~= x.take(b));
            assert(t.subrange(b + 1, e) =~= x.subrange(b + 1, e));
            assert(t.skip(e + 1) =~= x.skip(e + 1) + y);
            let inner = x.subrange(b + 1, e);
            let r = x.skip(e + 1);
            if is_marked(inner) {
                lemma_mangle_closed_concat(r, y, k + 1);
                assert(x.take(b) + seq!['{'] + subst_token(k) + seq!['}'] + (mangle_from(r, k + 1).0 + mangle_from(
                    y,
                    k + 1 + marked_count(r),
                ).0) =~= x.take(b) + seq!['{'] + subst_token(k) + seq!['}'] + mangle_from(r, k + 1).0 + mangle_from(
                    y,
                    k + 1 + marked_count(r),
                ).0);
            } else {
                lemma_mangle_closed_concat(r, y, k);
                assert(x.take(b) + seq!['{'] + inner + seq!['}'] + (mangle_from(r, k).0 + mangle_from(
                    y,
                    k + marked_count(r),
                ).0) =~= x.take(b) + seq!['{'] + inner + seq!['}'] + mangle_from(r, k).0 + mangle_from(
                    y,
                    k + marked_count(r),
                ).0);
            }
        },
        None => {
            lemma_mangle_prefix(x, y, k, Seq::empty(), true);
            lemma_no_braces_no_span(x);
        },
    }
}

/// Putting spans back goes piece by piece across a closed prefix.
proof fn lemma_closed_concat(x: Seq<char>, y: Seq<char>, rec: bool)
    requires
        closed(x),
    ensures
        restore(x + y, rec) == restore(x, rec) + restore(y, rec),
        tokens_free(x + y) == (tokens_free(x) && tokens_free(y)),
    decreases x.len(),
{
    lemma_first_span(x);
    match first_span(x) {
        Some((b, e)) => {
            lemma_first_span_extend(x, y);
            let t = x + y;
            assert(t.take(b) =~= x.take(b));
            assert(t.subrange(b + 1, e) =~= x.subrange(b + 1, e));
            assert(t.skip(e + 1) =~= x.skip(e + 1) + y);
            lemma_closed_concat(x.skip(e + 1), y, rec);
            let inner = x.subrange(b + 1, e);
            assert(x.take(b) + put_back_span(inner, rec) + (restore(x.skip(e + 1), rec) + restore(y, rec)) =~= x.take(b)
                + put_back_span(inner, rec) + restore(x.skip(e + 1), rec) + restore(y, rec));
        },
        None => {
            lemma_restore_prefix(x, y, rec);
            lemma_no_braces_no_span(x);
        },
    }
}

/// What a well-formed text is: closed, with no placeholder passed through,
/// and its own source once its spans are put back.
proof fn lemma_span_ok_facts(s: Seq<char>)
    requires
        span_ok(s),
    ensures
        closed(s),
        tokens_free(s),
        restore(s, true) == s,
    decreases s.len(),
{
    lemma_first_span(s);
    match first_span(s) {
        Some((b, e)) => {
            lemma_span_ok_facts(s.skip(e + 1));
            let inner = s.subrange(b + 1, e);
            assert(put_back_span(inner, true) == seq!['{'] + inner + seq!['}']);
            assert(s =~= s.take(b) + (seq!['{'] + inner + seq!['}']) + s.skip(e + 1));
        },
        None => {},
    }
}

/// A well-formed text splits at its first space into two well-formed texts.
#[verifier::spinoff_prover]
proof fn lemma_span_ok_pieces(s: Seq<char>, i: int)
    requires
        span_ok(s),
        find_char(s, ' ') == Some(i),
    ensures
        span_ok(s.take(i)),
        span_ok(s.skip(i + 1)),
    decreases s.len(),
{
    lemma_find_char(s, ' ');
    lemma_first_span(s);
    lemma_find_char(s, '{');
    lemma_find_char(s, '}');
    match first_span(s) {
        Some((b, e)) => {
            let inner = s.subrange(b + 1, e);
            if i < b {
                let x = s.take(i);
                assert(no_braces(x));
                lemma_no_braces_no_span(x);
                let rest = s.skip(i + 1);
                let a = s.take(i + 1);
                assert(no_braces(a));
                assert(s =~= a + rest);
                lemma_first_span_shift(a, rest);
                lemma_first_span(rest);
                let (b2, e2) = first_span(rest).unwrap();
                assert(b2 == b - i - 1 && e2 == e - i - 1);
                assert(rest.subrange(b2 + 1, e2) =~= inner);
                assert(rest.skip(e2 + 1) =~= s.skip(e + 1));
            } else {
                assert(i != b);
                assert(i > e) by {
                    if b < i < e {
                        assert(inner[i - b - 1] == s[i]);
                    }
                }
                let s2 = s.skip(e + 1);
                assert forall|q: int| 0 <= q < i - e - 1 implies s2[q] != ' ' by {
                    assert(s2[q] == s[e + 1 + q]);
                }
                lemma_find_char_at(s2, ' ', i - e - 1);
                lemma_span_ok_pieces(s2, i - e - 1);
                assert(s.skip(i + 1) =~= s2.skip(i - e));
                let x = s.take(i);
                lemma_first_span_take(s, i);
                assert(x.subrange(b + 1, e) =~= inner);
                assert(x.skip(e + 1) =~= s2.take(i - e - 1));
            }
        },
        None => {
            lemma_no_braces_sub(s, 0, i);
            lemma_no_braces_sub(s, i + 1, s.len() as int);
            assert(s.subrange(0, i) =~= s.take(i));
            assert(s.subrange(i + 1, s.len() as int) =~= s.skip(i + 1));
            lemma_no_braces_no_span(s.take(i));
            lemma_no_braces_no_span(s.skip(i + 1));
        },
    }
}

/// A `{!d}` span followed by `y` puts back `d`, and is marked.
proof fn lemma_restore_number(d: Seq<char>, y: Seq<char>, rec: bool)
    requires
        no_braces(d),
    ensures
        restore(seq!['{', '!'] + d + seq!['}'] + y, rec) == d + restore(y, rec),
        tokens_free(seq!['{', '!'] + d + seq!['}'] + y) == tokens_free(y),
{
    let a = seq!['{', '!'] + d;
    let t = a + (seq!['}'] + y);
    assert(seq!['{', '!'] + d + seq!['}'] + y =~= t);
    assert(t[0] == '{');
    assert(find_char(t, '{') == Some(0int));
    lemma_find_char_shift(a, seq!['}'] + y, '}');
    assert(find_char(seq!['}'] + y, '}') == Some(0int));
    assert(first_span(t) == Some((0int, a.len() as int)));
    assert(t.subrange(1, a.len() as int) =~= seq!['!'] + d);
    assert(t.take(0) =~= Seq::<char>::empty());
    assert(t.skip(a.len() + 1int) =~= y);
    assert((seq!['!'] + d).drop_first() =~= d);
    assert(is_marked(seq!['!'] + d));
    assert(Seq::<char>::empty() + d + restore(y, rec) =~= d + restore(y, rec));
}

/// A `{!d}` span followed by `y` is as closed as `y`.
proof fn lemma_closed_number(d: Seq<char>, y: Seq<char>)
    requires
        no_braces(d),
    ensures
        closed(seq!['{', '!'] + d + seq!['}'] + y) == closed(y),
{
    let a = seq!['{', '!'] + d;
    let t = a + (seq!['}'] + y);
    assert(seq!['{', '!'] + d + seq!['}'] + y =~= t);
    assert(t[0] == '{');
    assert(find_char(t, '{') == Some(0int));
    lemma_find_char_shift(a, seq!['}'] + y, '}');
    assert(find_char(seq!['}'] + y, '}') == Some(0int));
    assert(first_span(t) == Some((0int, a.len() as int)));
    assert(t.skip(a.len() + 1int) =~= y);
}

/// A marked number piece `x` followed by ` ` and the marked rest puts back
/// `x`, then the rest.
proof fn lemma_restore_number_piece(x: Seq<char>, m: Seq<char>, rec: bool)
    requires
        is_number_piece(x),
    ensures
        restore(mark_piece(x) + seq![' '] + m, rec) == x + seq![' '] + restore(m, rec),
        tokens_free(mark_piece(x) + seq![' '] + m) == tokens_free(m),
        closed(mark_piece(x) + seq![' '] + m) == closed(m),
{
    lemma_number_piece_chars(x);
    let d = x.drop_last();
    assert(no_braces(d)) by {
        assert forall|j: int| 0 <= j < d.len() implies d[j] != '{' && d[j] != '}' by {
            assert(d[j] == x[j]);
        }
    }
    let y = seq!['%', ' '] + m;
    assert(mark_piece(x) + seq![' '] + m =~= seq!['{', '!'] + d + seq!['}'] + y);
    lemma_restore_number(d, y, rec);
    assert(no_braces(seq!['%', ' ']));
    lemma_restore_prefix(seq!['%', ' '], m, rec);
    assert(d + (seq!['%', ' '] + restore(m, rec)) =~= x + seq![' '] + restore(m, rec));
    lemma_closed_prefix(seq!['%', ' '], m);
    lemma_closed_number(d, y);
}

/// A closed piece `x` followed by ` ` and `y` puts back `x`'s spans, then
/// `y`'s.
proof fn lemma_restore_piece(x: Seq<char>, y: Seq<char>, rec: bool)
    requires
        closed(x),
    ensures
        restore(x + seq![' '] + y, rec) == restore(x, rec) + seq![' '] + restore(y, rec),
        tokens_free(x + seq![' '] + y) == (tokens_free(x) && tokens_free(y)),
        closed(y) ==> closed(x + seq![' '] + y),
{
    if closed(y) {
        lemma_closed_prefix(seq![' '], y);
        lemma_closed_join(x, seq![' '] + y);
    }
    lemma_closed_concat(x, seq![' '] + y, rec);
    assert(no_braces(seq![' ']));
    lemma_restore_prefix(seq![' '], y, rec);
    assert(x + seq![' '] + y =~= x + (seq![' '] + y));
    assert(restore(x, rec) + (seq![' '] + restore(y, rec)) =~= restore(x, rec) + seq![' '] + restore(y, rec));
}

/// A text with no space: marking it changes nothing that putting spans
/// back gives.
proof fn lemma_restore_marked_last(s: Seq<char>, rec: bool)
    requires
        span_ok(s),
        find_char(s, ' ') is None,
    ensures
        restore(mark_numbers(s), rec) == restore(s, rec),
        tokens_free(mark_numbers(s)),
        closed(mark_numbers(s)),
{
    lemma_span_ok_facts(s);
    assert(mark_numbers(s) == mark_piece(s));
    if is_number_piece(s) {
        lemma_number_piece_chars(s);
        lemma_no_braces_no_span(s);
        let d = s.drop_last();
        assert(no_braces(d)) by {
            assert forall|j: int| 0 <= j < d.len() implies d[j] != '{' && d[j] != '}' by {
                assert(d[j] == s[j]);
            }
        }
        let y = seq!['%'];
        assert(mark_piece(s) =~= seq!['{', '!'] + d + seq!['}'] + y);
        lemma_restore_number(d, y, rec);
        assert(no_braces(y));
        lemma_no_braces_no_span(y);
        assert(d + y =~= s);
        lemma_closed_number(d, y);
    }
}

/// Marking bare numbers changes nothing that putting spans back gives, and
/// passes no placeholder through.
#[verifier::spinoff_prover]
proof fn lemma_restore_marked(s: Seq<char>, rec: bool)
    requires
        span_ok(s),
    ensures
        restore(mark_numbers(s), rec) == restore(s, rec),
        tokens_free(mark_numbers(s)),
        closed(mark_numbers(s)),
    decreases s.len(),
{
    lemma_find_char(s, ' ');
    match find_char(s, ' ') {
        Some(i) => {
            let x = s.take(i);
            let rest = s.skip(i + 1);
            lemma_span_ok_pieces(s, i);
            lemma_span_ok_facts(x);
            lemma_restore_marked(rest, rec);
            assert(s =~= x + seq![' '] + rest);
            lemma_mark_first_piece(x, rest);
            let m = mark_numbers(rest);
            lemma_restore_piece(x, rest, rec);
            if is_number_piece(x) {
                lemma_number_piece_chars(x);
                lemma_no_braces_no_span(x);
                lemma_restore_number_piece(x, m, rec);
            } else {
                assert(mark_piece(x) == x);
                lemma_restore_piece(x, m, rec);
            }
        },
        None => {
            lemma_restore_marked_last(s, rec);
        },
    }
}

/// Mangling a text and putting the spans it took out back gives the text
/// again, and for display the text with each `{#x}` shown as `x`: bare
/// numbers and `{#x}` spans come back as they were written, and any other
/// `{name}` passes through untouched. The text's braces pair up into spans
/// that hold no space, none starts with `!` and no passed-through span is a
/// placeholder; at most ten spans are taken out.
pub proof fn lemma_mangle_round_trip(s: Seq<char>, recover_source: bool)
    requires
        span_ok(s),
        marked_count(mark_numbers(s)) <= 10,
    ensures
        unmangle_from(mangle_spec(s).0, mangle_spec(s).1, recover_source) == restore(s, recover_source),
        restore(s, true) == s,
{
    let t = mark_numbers(s);
    lemma_restore_marked(s, recover_source);
    lemma_span_ok_facts(s);
    lemma_mangle_len(t, 0);
    lemma_unmangle_mangled(t, 0, mangle_from(t, 0).1, recover_source);
}

/// Whether `p` is a bare number followed by `%`, the piece mangling marks.
pub open spec fn is_number_piece(p: Seq<char>) -> bool {
    p.len() >= 2 && p.last() == '%' && parse_i32_spec(p.drop_last()) is Some
}

/// A number piece holds neither a space nor a brace.
proof fn lemma_number_piece_chars(p: Seq<char>)
    requires
        is_number_piece(p),
    ensures
        no_braces(p),
        forall|j: int| 0 <= j < p.len() ==> p[j] != ' ',
{
    let d = p.drop_last();
    let e = if d.len() > 0 && (d[0] == '-' || d[0] == '+') { d.drop_first() } else { d };
    assert forall|j: int| 0 <= j < p.len() implies p[j] != '{' && p[j] != '}' && p[j] != ' ' by {
        if j < d.len() {
            if d.len() > 0 && (d[0] == '-' || d[0] == '+') && j > 0 {
                assert(e[j - 1] == d[j]);
            } else if !(d.len() > 0 && (d[0] == '-' || d[0] == '+')) {
                assert(e[j] == d[j]);
            }
        }
    }
}

/// Marking `x ' ' rest` marks `x`, then the rest.
proof fn lemma_mark_first_piece(x: Seq<char>, rest: Seq<char>)
    requires
        forall|j: int| 0 <= j < x.len() ==> x[j] != ' ',
    ensures
        mark_numbers(x + seq![' '] + rest) == mark_piece(x) + seq![' '] + mark_numbers(rest),
{
    let t = x + seq![' '] + rest;
    assert(t =~= x + (seq![' '] + rest));
    lemma_find_char_shift(x, seq![' '] + rest, ' ');
    assert(find_char(seq![' '] + rest, ' ') == Some(0int));
    assert(t.take(x.len() as int) =~= x);
    assert(t.skip(x.len() + 1int) =~= rest);
}

/// The key of a number piece followed by the rest of a text starts with
/// the placeholder, whatever the number.
#[verifier::spinoff_prover]
proof fn lemma_collapse_piece(p: Seq<char>, b: Seq<char>, k: int)
    requires
        is_number_piece(p),
        b.len() == 0 || b[0] == ' ',
    ensures
        mangle_from(mark_numbers(p + b), k).0 == if b.len() == 0 {
            seq!['{'] + subst_token(k) + seq!['}', '%']
        } else {
            seq!['{'] + subst_token(k) + seq!['}', '%', ' '] + mangle_from(mark_numbers(b.drop_first()), k + 1).0
        },
{
    lemma_number_piece_chars(p);
    let d = p.drop_last();
    assert(no_braces(d)) by {
        assert forall|j: int| 0 <= j < d.len() implies d[j] != '{' && d[j] != '}' by {
            assert(d[j] == p[j]);
        }
    }
    assert(mark_piece(p) == seq!['{', '!'] + d + seq!['}', '%']);
    if b.len() == 0 {
        assert(p + b =~= p);
        lemma_find_char(p, ' ');
        assert(mark_numbers(p) == mark_piece(p));
        assert(mark_piece(p) =~= seq!['{', '!'] + d + seq!['}'] + seq!['%']);
        lemma_mangle_marked(d, seq!['%'], k);
        assert(first_span(seq!['%']) is None) by {
            assert(find_char(seq!['%'].drop_first(), '{') is None);
        }
        assert(seq!['{'] + subst_token(k) + seq!['}'] + seq!['%'] =~= seq!['{'] + subst_token(k) + seq!['}', '%']);
    } else {
        let b2 = b.drop_first();
        assert(b =~= seq![' '] + b2);
        lemma_find_char_shift(p, b, ' ');
        assert(find_char(b, ' ') == Some(0int));
        assert((p + b).take(p.len() as int) =~= p);
        assert((p + b).skip(p.len() + 1int) =~= b2);
        let mr = mark_numbers(b2);
        assert(mark_numbers(p + b) =~= seq!['{', '!'] + d + seq!['}'] + (seq!['%', ' '] + mr));
        lemma_mangle_marked(d, seq!['%', ' '] + mr, k);
        lemma_mangle_prefix(seq!['%', ' '], mr, k + 1, Seq::empty(), true);
        assert(seq!['{'] + subst_token(k) + seq!['}'] + (seq!['%', ' '] + mangle_from(mr, k + 1).0) =~= seq!['{']
            + subst_token(k) + seq!['}', '%', ' '] + mangle_from(mr, k + 1).0);
    }
}

/// Marking a text whose first part ends at a space marks that part, then
/// the rest.
proof fn lemma_mark_prefix(a: Seq<char>, z: Seq<char>)
    requires
        a.len() == 0 || a.last() == ' ',
    ensures
        mark_numbers(a + z) == mark_numbers(a) + mark_numbers(z),
    decreases a.len(),
{
    if a.len() == 0 {
        lemma_find_char(a, ' ');
        assert(mark_numbers(a) =~= Seq::<char>::empty());
        assert(a + z =~= z);
    } else {
        lemma_find_char(a, ' ');
        let i = find_char(a, ' ').unwrap();
        let x = a.take(i);
        let a2 = a.skip(i + 1);
        assert(a2.len() == 0 || a2.last() == ' ') by {
            if a2.len() > 0 {
                assert(a2.last() == a.last());
            }
        }
        assert(a =~= x + seq![' '] + a2);
        assert(a + z =~= x + seq![' '] + (a2 + z));
        lemma_mark_first_piece(x, a2 + z);
        lemma_mark_first_piece(x, a2);
        lemma_mark_prefix(a2, z);
        assert(mark_piece(x) + seq![' '] + (mark_numbers(a2) + mark_numbers(z)) =~= mark_piece(x) + seq![' ']
            + mark_numbers(a2) + mark_numbers(z));
    }
}

/// Texts that differ only in the number of one bare number share their
/// catalog key: rebalancing a number never invalidates a translation. The
/// number stands between spaces or at an end; the text before it is one
/// mangling gives back.
pub proof fn lemma_numeric_variants_collapse(a: Seq<char>, p1: Seq<char>, p2: Seq<char>, b: Seq<char>)
    requires
        span_ok(a),
        a.len() == 0 || a.last() == ' ',
        b.len() == 0 || b[0] == ' ',
        is_number_piece(p1),
        is_number_piece(p2),
    ensures
        mangle_spec(a + p1 + b).0 == mangle_spec(a + p2 + b).0,
{
    lemma_restore_marked(a, true);
    let ma = mark_numbers(a);
    let k: int = marked_count(ma) as int;
    assert(a + p1 + b =~= a + (p1 + b));
    assert(a + p2 + b =~= a + (p2 + b));
    lemma_mark_prefix(a, p1 + b);
    lemma_mark_prefix(a, p2 + b);
    lemma_mangle_closed_concat(ma, mark_numbers(p1 + b), 0);
    lemma_mangle_closed_concat(ma, mark_numbers(p2 + b), 0);
    lemma_collapse_piece(p1, b, k);
    lemma_collapse_piece(p2, b, k);
}

} // verus!
