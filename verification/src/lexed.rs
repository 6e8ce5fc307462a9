//! The values the text lexer produces, their mathematical model, and the
//! ordered key/value table that objects hold their fields in.

use vstd::prelude::*;
use crate::strings::{chars_of, string_push, push_str, string_from_chars};
use crate::escape::{escape_string, quoted};

verus! {

/// One lexed value.

pub enum LexedData {
    Empty,
    Object { kv: LexedKv, id: String, type_tag: String },
    Array(Vec<LexedData>),
    Value(String),
    StringLiteral(String),
    Comment,
}

/// The fields of an object, keyed by name. Kept in ascending key order with
/// no key twice, so two tables with the same contents are equal and are
/// written out the same way.

pub struct LexedKv {
    entries: Vec<(String, LexedData)>,
}

/// The model of a lexed value.
pub enum Lexed {
    Empty,
    Object { kv: Seq<(Seq<char>, Lexed)>, id: Seq<char>, type_tag: Seq<char> },
    Array(Seq<Lexed>),
    Value(Seq<char>),
    StringLiteral(Seq<char>),
    Comment,
}

/// The model of a value.
pub open spec fn lexed_view(d: LexedData) -> Lexed
    decreases d,
{
    match d {
        LexedData::Empty => Lexed::Empty,
        LexedData::Object { kv, id, type_tag } => Lexed::Object {
            kv: kv_view(kv),
            id: id@,
            type_tag: type_tag@,
        },
        LexedData::Array(v) => Lexed::Array(list_view(v@)),
        LexedData::Value(v) => Lexed::Value(v@),
        LexedData::StringLiteral(v) => Lexed::StringLiteral(v@),
        LexedData::Comment => Lexed::Comment,
    }
}

/// The models of a list of values.
pub open spec fn list_view(s: Seq<LexedData>) -> Seq<Lexed>
    decreases s,
{
    if s.len() == 0 {
        Seq::empty()
    } else {
        seq![lexed_view(s[0])] + list_view(s.drop_first())
    }
}

/// The model of a key/value table: its entries in order.
pub closed spec fn kv_view(kv: LexedKv) -> Seq<(Seq<char>, Lexed)>
    decreases kv,
{
    entries_view(kv.entries@)
}

/// The models of a list of entries.
pub open spec fn entries_view(s: Seq<(String, LexedData)>) -> Seq<(Seq<char>, Lexed)>
    decreases s,
{
    if s.len() == 0 {
        Seq::empty()
    } else {
        seq![(s[0].0@, lexed_view(s[0].1))] + entries_view(s.drop_first())
    }
}

impl View for LexedData {
    type V = Lexed;

    open spec fn view(&self) -> Lexed {
        lexed_view(*self)
    }
}

impl View for LexedKv {
    type V = Seq<(Seq<char>, Lexed)>;

    open spec fn view(&self) -> Seq<(Seq<char>, Lexed)> {
        kv_view(*self)
    }
}

/// Code-point lexicographic order on strings, which is the order `str`
/// compares in.
pub open spec fn char_seq_lt(a: Seq<char>, b: Seq<char>) -> bool
    decreases a.len(),
{
    if a.len() == 0 {
        b.len() > 0
    } else if b.len() == 0 {
        false
    } else if (a[0] as u32) < (b[0] as u32) {
        true
    } else if a[0] == b[0] {
        char_seq_lt(a.drop_first(), b.drop_first())
    } else {
        false
    }
}

/// Keys strictly ascending.
pub open spec fn keys_sorted(kv: Seq<(Seq<char>, Lexed)>) -> bool {
    forall|i: int, j: int| 0 <= i < j < kv.len() ==> char_seq_lt(#[trigger] kv[i].0, #[trigger] kv[j].0)
}

/// `kv` with `key` bound to `value`: an existing binding is replaced in
/// place, otherwise the binding goes where the key order puts it.
pub open spec fn kv_insert(kv: Seq<(Seq<char>, Lexed)>, key: Seq<char>, value: Lexed) -> Seq<(Seq<char>, Lexed)>
    decreases kv.len(),
{
    if kv.len() == 0 {
        seq![(key, value)]
    } else if kv[0].0 == key {
        seq![(key, value)] + kv.drop_first()
    } else if char_seq_lt(key, kv[0].0) {
        seq![(key, value)] + kv
    } else {
        seq![kv[0]] + kv_insert(kv.drop_first(), key, value)
    }
}

/// The value bound to `key`, if any.
pub open spec fn kv_get(kv: Seq<(Seq<char>, Lexed)>, key: Seq<char>) -> Option<Lexed>
    decreases kv.len(),
{
    if kv.len() == 0 {
        None
    } else if kv[0].0 == key {
        Some(kv[0].1)
    } else {
        kv_get(kv.drop_first(), key)
    }
}

/// A bound value is smaller than the table that binds it.
pub proof fn lemma_kv_get_decreases(kv: Seq<(Seq<char>, Lexed)>, key: Seq<char>)
    ensures
        kv_get(kv, key) matches Some(v) ==> decreases_to!(kv => v),
    decreases kv.len(),
{
    if kv.len() > 0 {
        if kv[0].0 == key {
            assert(decreases_to!(kv => kv[0]));
            assert(decreases_to!(kv[0] => kv[0].1));
        } else {
            lemma_kv_get_decreases(kv.drop_first(), key);
            assert(decreases_to!(kv => kv.drop_first()));
        }
    }
}

pub proof fn lemma_char_seq_lt_irreflexive(a: Seq<char>)
    ensures
        !char_seq_lt(a, a),
    decreases a.len(),
{
    if a.len() > 0 {
        lemma_char_seq_lt_irreflexive(a.drop_first());
    }
}

pub proof fn lemma_char_seq_lt_total(a: Seq<char>, b: Seq<char>)
    ensures
        a == b || char_seq_lt(a, b) || char_seq_lt(b, a),
    decreases a.len(),
{
    if a.len() > 0 && b.len() > 0 {
        if a[0] == b[0] {
            lemma_char_seq_lt_total(a.drop_first(), b.drop_first());
            if a.drop_first() == b.drop_first() {
                assert(a =~= seq![a[0]] + a.drop_first());
                assert(b =~= seq![b[0]] + b.drop_first());
            }
        } else {
            vstd::utf8::char_u32_cast(a[0], a[0] as u32);
            vstd::utf8::char_u32_cast(b[0], b[0] as u32);
            assert((a[0] as u32) != (b[0] as u32));
        }
    } else if a.len() == 0 && b.len() == 0 {
        assert(a =~= b);
    }
}

pub proof fn lemma_char_seq_lt_asymmetric(a: Seq<char>, b: Seq<char>)
    ensures
        char_seq_lt(a, b) ==> !char_seq_lt(b, a),
    decreases a.len(),
{
    if a.len() > 0 && b.len() > 0 && a[0] == b[0] {
        lemma_char_seq_lt_asymmetric(a.drop_first(), b.drop_first());
    }
}

pub proof fn lemma_char_seq_lt_transitive(a: Seq<char>, b: Seq<char>, c: Seq<char>)
    requires
        char_seq_lt(a, b),
        char_seq_lt(b, c),
    ensures
        char_seq_lt(a, c),
    decreases a.len(),
{
    if a.len() > 0 && b.len() > 0 && c.len() > 0 {
        if a[0] == b[0] && b[0] == c[0] {
            lemma_char_seq_lt_transitive(a.drop_first(), b.drop_first(), c.drop_first());
        }
    }
}

/// Binding a key in a sorted table keeps it sorted, and the key is then
/// bound to the new value.
pub proof fn lemma_kv_insert_sorted(kv: Seq<(Seq<char>, Lexed)>, key: Seq<char>, value: Lexed)
    requires
        keys_sorted(kv),
    ensures
        keys_sorted(kv_insert(kv, key, value)),
        kv_get(kv_insert(kv, key, value), key) == Some(value),
        forall|k: Seq<char>| k != key ==> kv_get(kv_insert(kv, key, value), k) == kv_get(kv, k),
        forall|i: int| 0 <= i < kv_insert(kv, key, value).len() ==> (#[trigger] kv_insert(kv, key, value)[i]).0 == key
            || exists|j: int| 0 <= j < kv.len() && kv[j].0 == kv_insert(kv, key, value)[i].0,
    decreases kv.len(),
{
    let r = kv_insert(kv, key, value);
    if kv.len() == 0 {
        assert forall|k: Seq<char>| k != key implies kv_get(r, k) == kv_get(kv, k) by {
            assert(r.drop_first() =~= Seq::<(Seq<char>, Lexed)>::empty());
            assert(kv_get(r.drop_first(), k) == None::<Lexed>);
        }
    } else if kv[0].0 == key {
        assert forall|i: int, j: int| 0 <= i < j < r.len() implies char_seq_lt(#[trigger] r[i].0, #[trigger] r[j].0) by {
            if i == 0 {
                assert(r[j] == kv[j]);
            } else {
                assert(r[i] == kv[i] && r[j] == kv[j]);
            }
        }
        assert forall|k: Seq<char>| k != key implies kv_get(r, k) == kv_get(kv, k) by {
            assert(r.drop_first() =~= kv.drop_first());
        }
        assert forall|i: int| 0 <= i < r.len() implies (#[trigger] r[i]).0 == key
            || exists|j: int| 0 <= j < kv.len() && kv[j].0 == r[i].0 by {
            if i > 0 {
                assert(kv[i].0 == r[i].0);
            }
        }
    } else if char_seq_lt(key, kv[0].0) {
        assert forall|i: int, j: int| 0 <= i < j < r.len() implies char_seq_lt(#[trigger] r[i].0, #[trigger] r[j].0) by {
            if i == 0 {
                assert(r[j] == kv[j - 1]);
                if j > 1 {
                    assert(char_seq_lt(kv[0].0, kv[j - 1].0));
                    lemma_char_seq_lt_transitive(key, kv[0].0, kv[j - 1].0);
                }
            } else {
                assert(r[i] == kv[i - 1] && r[j] == kv[j - 1]);
            }
        }
        assert forall|k: Seq<char>| k != key implies kv_get(r, k) == kv_get(kv, k) by {
            assert(r.drop_first() =~= kv);
        }
        assert forall|i: int| 0 <= i < r.len() implies (#[trigger] r[i]).0 == key
            || exists|j: int| 0 <= j < kv.len() && kv[j].0 == r[i].0 by {
            if i > 0 {
                assert(kv[i - 1].0 == r[i].0);
            }
        }
    } else {
        let rest = kv.drop_first();
        assert(keys_sorted(rest)) by {
            assert forall|i: int, j: int| 0 <= i < j < rest.len() implies char_seq_lt(#[trigger] rest[i].0, #[trigger] rest[j].0) by {
                assert(rest[i] == kv[i + 1] && rest[j] == kv[j + 1]);
            }
        }
        lemma_kv_insert_sorted(rest, key, value);
        let rr = kv_insert(rest, key, value);
        assert(r =~= seq![kv[0]] + rr);
        lemma_char_seq_lt_total(key, kv[0].0);
        assert forall|i: int, j: int| 0 <= i < j < r.len() implies char_seq_lt(#[trigger] r[i].0, #[trigger] r[j].0) by {
            if i == 0 {
                assert(r[j] == rr[j - 1]);
                if rr[j - 1].0 == key {
                } else {
                    let m = choose|m: int| 0 <= m < rest.len() && rest[m].0 == rr[j - 1].0;
                    assert(rest[m] == kv[m + 1]);
                }
            } else {
                assert(r[i] == rr[i - 1] && r[j] == rr[j - 1]);
            }
        }
        assert forall|k: Seq<char>| k != key implies kv_get(r, k) == kv_get(kv, k) by {
            assert(r.drop_first() =~= rr);
            assert(kv_get(rr, k) == kv_get(rest, k));
        }
        assert(r.drop_first() =~= rr);
        assert forall|i: int| 0 <= i < r.len() implies (#[trigger] r[i]).0 == key
            || exists|j: int| 0 <= j < kv.len() && kv[j].0 == r[i].0 by {
            if i == 0 {
                assert(kv[0].0 == r[0].0);
            } else {
                assert(r[i] == rr[i - 1]);
                if rr[i - 1].0 != key {
                    let m = choose|m: int| 0 <= m < rest.len() && rest[m].0 == rr[i - 1].0;
                    assert(kv[m + 1].0 == r[i].0);
                }
            }
        }
    }
}

pub proof fn lemma_entries_view_index(s: Seq<(String, LexedData)>)
    ensures
        entries_view(s).len() == s.len(),
        forall|i: int| 0 <= i < s.len() ==> #[trigger] entries_view(s)[i] == (s[i].0@, lexed_view(s[i].1)),
    decreases s.len(),
{
    if s.len() > 0 {
        lemma_entries_view_index(s.drop_first());
        assert forall|i: int| 0 <= i < s.len() implies #[trigger] entries_view(s)[i] == (s[i].0@, lexed_view(s[i].1)) by {
            if i > 0 {
                assert(s.drop_first()[i - 1] == s[i]);
            }
        }
    }
}

pub proof fn lemma_list_view_index(s: Seq<LexedData>)
    ensures
        list_view(s).len() == s.len(),
        forall|i: int| 0 <= i < s.len() ==> #[trigger] list_view(s)[i] == lexed_view(s[i]),
    decreases s.len(),
{
    if s.len() > 0 {
        lemma_list_view_index(s.drop_first());
        assert forall|i: int| 0 <= i < s.len() implies #[trigger] list_view(s)[i] == lexed_view(s[i]) by {
            if i > 0 {
                assert(s.drop_first()[i - 1] == s[i]);
            }
        }
    }
}

/// Whether `a` sorts before `b`.
pub fn chars_lt(a: &Vec<char>, b: &Vec<char>) -> (r: bool)
    ensures
        r == char_seq_lt(a@, b@),
{
    let mut i: usize = 0;
    assert(a@.skip(0) =~= a@ && b@.skip(0) =~= b@);
    while i < a.len() && i < b.len() && a[i] == b[i]
        invariant
            0 <= i <= a@.len(),
            i <= b@.len(),
            a@.take(i as int) == b@.take(i as int),
            char_seq_lt(a@, b@) == char_seq_lt(a@.skip(i as int), b@.skip(i as int)),
        decreases a.len() - i,
    {
        proof {
            let x = a@.skip(i as int);
            let y = b@.skip(i as int);
            assert(x.drop_first() =~= a@.skip(i + 1));
            assert(y.drop_first() =~= b@.skip(i + 1));
            assert(a@.take(i + 1) =~= a@.take(i as int).push(a@[i as int]));
            assert(b@.take(i + 1) =~= b@.take(i as int).push(b@[i as int]));
        }
        i = i + 1;
    }
    if i == a.len() {
        i < b.len()
    } else if i == b.len() {
        false
    } else {
        (a[i] as u32) < (b[i] as u32)
    }
}

/// Whether `a` and `b` hold the same characters.
pub fn chars_eq(a: &Vec<char>, b: &Vec<char>) -> (r: bool)
    ensures
        r == (a@ == b@),
{
    if a.len() != b.len() {
        return false;
    }
    let mut i: usize = 0;
    while i < a.len()
        invariant
            0 <= i <= a@.len(),
            a@.len() == b@.len(),
            forall|j: int| 0 <= j < i ==> a@[j] == b@[j],
        decreases a.len() - i,
    {
        if a[i] != b[i] {
            return false;
        }
        i = i + 1;
    }
    assert(a@ =~= b@);
    true
}

impl LexedKv {
    /// The table's invariant: its keys strictly ascending.
    #[verifier::type_invariant]
    pub closed spec fn well_formed(self) -> bool {
        keys_sorted(kv_view(self))
    }

    /// The keys of a table are strictly ascending.
    pub proof fn lemma_keys_sorted(self)
        requires
            self.well_formed(),
        ensures
            keys_sorted(self@),
    {
    }

    /// An empty table.
    pub fn new() -> (r: LexedKv)
        ensures
            r@ == Seq::<(Seq<char>, Lexed)>::empty(),
    {
        let r = LexedKv { entries: Vec::new() };
        assert(entries_view(r.entries@) =~= Seq::<(Seq<char>, Lexed)>::empty());
        r
    }

    /// Number of entries.
    pub fn len(&self) -> (r: usize)
        ensures
            r == self@.len(),
    {
        proof {
            lemma_entries_view_index(self.entries@);
        }
        self.entries.len()
    }

    /// Whether the table has no entries.
    pub fn is_empty(&self) -> (r: bool)
        ensures
            r == (self@.len() == 0),
    {
        self.len() == 0
    }

    /// The key of entry `i`.
    pub fn key_at(&self, i: usize) -> (r: &String)
        requires
            i < self@.len(),
        ensures
            r@ == self@[i as int].0,
    {
        proof {
            lemma_entries_view_index(self.entries@);
        }
        &self.entries[i].0
    }

    /// The value of entry `i`.
    pub fn value_at(&self, i: usize) -> (r: &LexedData)
        requires
            i < self@.len(),
        ensures
            r@ == self@[i as int].1,
    {
        proof {
            lemma_entries_view_index(self.entries@);
        }
        &self.entries[i].1
    }

    /// The value bound to `key`.
    pub fn get(&self, key: &str) -> (r: Option<&LexedData>)
        ensures
            match kv_get(self@, key@) {
                Some(v) => r is Some && r.unwrap()@ == v,
                None => r is None,
            },
    {
        proof {
            lemma_entries_view_index(self.entries@);
        }
        let k = chars_of(key);
        let mut i: usize = 0;
        assert(self@.skip(0) =~= self@);
        while i < self.entries.len()
            invariant
                0 <= i <= self.entries@.len(),
                entries_view(self.entries@).len() == self.entries@.len(),
                k@ == key@,
                kv_get(self@, key@) == kv_get(self@.skip(i as int), key@),
            decreases self.entries.len() - i,
        {
            let e = chars_of(&self.entries[i].0);
            proof {
                lemma_entries_view_index(self.entries@);
            }
            assert(self@.skip(i as int).drop_first() =~= self@.skip(i + 1));
            assert(self@.skip(i as int)[0] == self@[i as int]);
            assert(self@ == entries_view(self.entries@));
            assert(entries_view(self.entries@)[i as int] == (self.entries@[i as int].0@, lexed_view(self.entries@[i as int].1)));
            if chars_eq(&e, &k) {
                return Some(&self.entries[i].1);
            }
            i = i + 1;
        }
        None
    }

    /// Binds `key` to `value`, replacing any earlier binding.
    #[verifier::rlimit(50)]
    #[verifier::spinoff_prover]
    pub fn insert(&mut self, key: String, value: LexedData)
        ensures
            final(self)@ == kv_insert(old(self)@, key@, value@),
    {
        proof {
            use_type_invariant(&*self);
            lemma_entries_view_index(self.entries@);
            lemma_kv_insert_sorted(self@, key@, value@);
        }
        let ghost old_view = self@;
        let mut entries: Vec<(String, LexedData)> = Vec::new();
        std::mem::swap(&mut entries, &mut self.entries);
        let k = chars_of(&key);
        let mut i: usize = 0;
        // 0: append at the end, 1: replace entry i, 2: insert before entry i
        let mut mode: u8 = 0;
        assert(old_view.take(0) + old_view.skip(0) =~= old_view);
        while i < entries.len()
            invariant_except_break
                0 <= i <= entries@.len(),
                kv_insert(old_view, key@, value@) == old_view.take(i as int) + kv_insert(old_view.skip(i as int), key@, value@),
                mode == 0,
            invariant
                0 <= i <= entries@.len(),
                entries_view(entries@) == old_view,
                entries_view(entries@).len() == entries@.len(),
                forall|j: int| 0 <= j < entries@.len() ==> #[trigger] entries_view(entries@)[j] == (entries@[j].0@, lexed_view(entries@[j].1)),
                k@ == key@,
                keys_sorted(kv_insert(old_view, key@, value@)),
            ensures
                mode == 0 ==> i == entries@.len() && kv_insert(old_view, key@, value@) == old_view.take(i as int) + kv_insert(old_view.skip(i as int), key@, value@),
                mode == 1 ==> i < entries@.len() && kv_insert(old_view, key@, value@) == old_view.take(i as int) + (seq![(key@, value@)] + old_view.skip(i as int).drop_first()),
                mode == 2 ==> i < entries@.len() && kv_insert(old_view, key@, value@) == old_view.take(i as int) + (seq![(key@, value@)] + old_view.skip(i as int)),
                mode <= 2,
            decreases entries.len() - i,
        {
            let e = chars_of(&entries[i].0);
            let ghost rest = old_view.skip(i as int);
            assert(rest[0] == old_view[i as int]);
            assert(old_view[i as int].0 == e@);
            if chars_eq(&e, &k) {
                assert(kv_insert(rest, key@, value@) == seq![(key@, value@)] + rest.drop_first());
                mode = 1;
                break;
            }
            if chars_lt(&k, &e) {
                assert(kv_insert(rest, key@, value@) == seq![(key@, value@)] + rest);
                mode = 2;
                break;
            }
            proof {
                assert(rest.drop_first() =~= old_view.skip(i + 1));
                assert(old_view.take(i + 1) =~= old_view.take(i as int) + seq![rest[0]]);
            }
            i = i + 1;
        }
        let ghost rest = old_view.skip(i as int);
        if mode == 1 {
            entries.set(i, (key, value));
            proof {
                lemma_entries_view_index(entries@);
                assert(rest.drop_first() =~= old_view.skip(i + 1));
                assert(entries_view(entries@) =~= old_view.take(i as int) + (seq![(key@, value@)] + rest.drop_first()));
            }
        } else if mode == 2 {
            entries.insert(i, (key, value));
            proof {
                lemma_entries_view_index(entries@);
                assert(entries_view(entries@) =~= old_view.take(i as int) + (seq![(key@, value@)] + rest));
            }
        } else {
            entries.push((key, value));
            proof {
                lemma_entries_view_index(entries@);
                assert(old_view.skip(i as int) =~= Seq::<(Seq<char>, Lexed)>::empty());
                assert(old_view.take(i as int) =~= old_view);
                assert(entries_view(entries@) =~= old_view + seq![(key@, value@)]);
            }
        }
        self.entries = entries;
        assert(self@ == entries_view(self.entries@));
    }
}


/// The text form of a value.
pub open spec fn render(d: Lexed) -> Seq<char>
    decreases d,
{
    match d {
        Lexed::Object { kv, id, type_tag } => {
            let header = if type_tag.len() > 0 {
                seq!['@'] + type_tag + seq![' '] + if id.len() > 0 { id + seq![' '] } else { Seq::empty() }
            } else {
                Seq::empty()
            };
            header + seq!['{'] + render_fields(kv) + seq!['}']
        },
        Lexed::Value(v) => v,
        Lexed::StringLiteral(v) => quoted(v),
        Lexed::Array(a) => seq!['['] + render_list(a) + seq![']'],
        Lexed::Comment => Seq::empty(),
        Lexed::Empty => Seq::empty(),
    }
}

/// `name:value,` for each field, in order.
pub open spec fn render_fields(kv: Seq<(Seq<char>, Lexed)>) -> Seq<char>
    decreases kv,
{
    if kv.len() == 0 {
        Seq::empty()
    } else {
        kv[0].0 + seq![':'] + render(kv[0].1) + seq![','] + render_fields(kv.drop_first())
    }
}

/// `value,` for each element, in order.
pub open spec fn render_list(a: Seq<Lexed>) -> Seq<char>
    decreases a,
{
    if a.len() == 0 {
        Seq::empty()
    } else {
        render(a[0]) + seq![','] + render_list(a.drop_first())
    }
}

/// The text form of a field table: `{name:value,...}`, in key order.
pub open spec fn render_kv(kv: Seq<(Seq<char>, Lexed)>) -> Seq<char> {
    seq!['{'] + render_fields(kv) + seq!['}']
}

/// Writes a field table as `{name:value,...}`, keys in ascending order.
///
/// This text is written back out and is also hashed to name anonymous
/// inline objects, so it is the same for equal tables whatever order
/// their fields were read in.
pub fn kv_to_string(kv: &LexedKv) -> (r: String)
    ensures
        r@ == render_kv(kv@),
        keys_sorted(kv@),
    decreases kv,
{
    proof {
        use_type_invariant(kv);
        lemma_entries_view_index(kv.entries@);
    }
    let mut out = String::new();
    string_push(&mut out, '{');
    let mut i: usize = 0;
    assert(kv@.skip(0) =~= kv@);
    while i < kv.entries.len()
        invariant
            0 <= i <= kv.entries@.len(),
            kv@ == entries_view(kv.entries@),
            kv@.len() == kv.entries@.len(),
            forall|j: int| 0 <= j < kv.entries@.len() ==> #[trigger] kv@[j] == (kv.entries@[j].0@, lexed_view(kv.entries@[j].1)),
            seq!['{'] + render_fields(kv@) == out@ + render_fields(kv@.skip(i as int)),
        decreases kv.entries.len() - i,
    {
        let ghost rest = kv@.skip(i as int);
        assert(rest[0] == kv@[i as int]);
        assert(rest.drop_first() =~= kv@.skip(i + 1));
        push_str(&mut out, kv.entries[i].0.as_str());
        string_push(&mut out, ':');
        assert(decreases_to!(*kv => kv.entries@[i as int].1));
        let t = render_data(&kv.entries[i].1);
        push_str(&mut out, t.as_str());
        string_push(&mut out, ',');
        i = i + 1;
    }
    string_push(&mut out, '}');
    assert(kv@.skip(i as int) =~= Seq::<(Seq<char>, Lexed)>::empty());
    out
}

/// Writes a value in the text form the lexer reads.
pub fn render_data(d: &LexedData) -> (r: String)
    ensures
        r@ == render(d@),
    decreases d,
{
    match d {
        LexedData::Object { kv, id, type_tag } => {
            let mut out = String::new();
            if !type_tag.as_str().is_empty() {
                string_push(&mut out, '@');
                push_str(&mut out, type_tag.as_str());
                string_push(&mut out, ' ');
                if !id.as_str().is_empty() {
                    push_str(&mut out, id.as_str());
                    string_push(&mut out, ' ');
                }
            }
            let t = kv_to_string(kv);
            push_str(&mut out, t.as_str());
            out
        },
        LexedData::Value(v) => v.clone(),
        LexedData::StringLiteral(v) => escape_string(v.as_str()),
        LexedData::Array(a) => {
            let mut out = String::new();
            string_push(&mut out, '[');
            let mut i: usize = 0;
            proof {
                lemma_list_view_index(a@);
            }
            let ghost av = list_view(a@);
            assert(av.skip(0) =~= av);
            while i < a.len()
                invariant
                    0 <= i <= a@.len(),
                    av == list_view(a@),
                    *d == LexedData::Array(*a),
                    av.len() == a@.len(),
                    forall|j: int| 0 <= j < a@.len() ==> #[trigger] av[j] == lexed_view(a@[j]),
                    seq!['['] + render_list(av) == out@ + render_list(av.skip(i as int)),
                decreases a.len() - i,
            {
                let ghost rest = av.skip(i as int);
                assert(rest[0] == av[i as int]);
                assert(rest.drop_first() =~= av.skip(i + 1));
                assert(*d == LexedData::Array(*a));
                assert(decreases_to!(*d => (*d)->Array_0));
                assert((*d)->Array_0 == *a);
                assert(decreases_to!(*a => a@));
                assert(decreases_to!(*d => a@[i as int]));
                let t = render_data(&a[i]);
                push_str(&mut out, t.as_str());
                string_push(&mut out, ',');
                i = i + 1;
            }
            string_push(&mut out, ']');
            assert(av.skip(i as int) =~= Seq::<Lexed>::empty());
            out
        },
        LexedData::Comment => String::new(),
        LexedData::Empty => String::new(),
    }
}

impl LexedData {
    /// The text form of the value, as the lexer reads it back.
    pub fn to_string(&self) -> (r: String)
        ensures
            r@ == render(self@),
    {
        render_data(self)
    }
}

/// A copy of a table with the same contents.
pub fn clone_kv(kv: &LexedKv) -> (r: LexedKv)
    ensures
        r@ == kv@,
    decreases kv,
{
    proof {
        use_type_invariant(kv);
        lemma_entries_view_index(kv.entries@);
    }
    let mut entries: Vec<(String, LexedData)> = Vec::new();
    let mut i: usize = 0;
    while i < kv.entries.len()
        invariant
            0 <= i <= kv.entries@.len(),
            kv@ == entries_view(kv.entries@),
            kv@.len() == kv.entries@.len(),
            forall|j: int| 0 <= j < kv.entries@.len() ==> #[trigger] kv@[j] == (kv.entries@[j].0@, lexed_view(kv.entries@[j].1)),
            entries@.len() == i,
            forall|j: int| 0 <= j < i ==> #[trigger] entries@[j].0@ == kv.entries@[j].0@ && lexed_view(entries@[j].1) == lexed_view(kv.entries@[j].1),
        decreases kv.entries.len() - i,
    {
        assert(decreases_to!(*kv => kv.entries@[i as int].1));
        let v = clone_data(&kv.entries[i].1);
        let k = kv.entries[i].0.clone();
        entries.push((k, v));
        i = i + 1;
    }
    proof {
        lemma_entries_view_index(entries@);
        assert(entries_view(entries@) =~= kv@);
    }
    LexedKv { entries }
}

/// A copy of a value with the same contents.
pub fn clone_data(d: &LexedData) -> (r: LexedData)
    ensures
        r@ == d@,
    decreases d,
{
    match d {
        LexedData::Object { kv, id, type_tag } => LexedData::Object {
            kv: clone_kv(kv),
            id: id.clone(),
            type_tag: type_tag.clone(),
        },
        LexedData::Value(v) => LexedData::Value(v.clone()),
        LexedData::StringLiteral(v) => LexedData::StringLiteral(v.clone()),
        LexedData::Array(a) => {
            let mut out: Vec<LexedData> = Vec::new();
            let mut i: usize = 0;
            while i < a.len()
                invariant
                    0 <= i <= a@.len(),
                    *d == LexedData::Array(*a),
                    out@.len() == i,
                    forall|j: int| 0 <= j < i ==> #[trigger] lexed_view(out@[j]) == lexed_view(a@[j]),
                decreases a.len() - i,
            {
                assert(decreases_to!(*d => (*d)->Array_0));
                assert((*d)->Array_0 == *a);
                assert(decreases_to!(*a => a@));
                assert(decreases_to!(*d => a@[i as int]));
                let c = clone_data(&a[i]);
                out.push(c);
                i = i + 1;
            }
            proof {
                lemma_list_view_index(out@);
                lemma_list_view_index(a@);
                assert(list_view(out@) =~= list_view(a@));
            }
            LexedData::Array(out)
        },
        LexedData::Comment => LexedData::Comment,
        LexedData::Empty => LexedData::Empty,
    }
}

} // verus!
