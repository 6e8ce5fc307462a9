//! Writes gettext `.pot` catalogs.
//!
//! The escaping here is the point. A writer that only escapes newlines
//! produces a malformed catalog the moment a string contains a quote, and
//! those entries then never reach translators -- silently, because nothing
//! reads the file until msgfmt does.

use vstd::prelude::*;
use crate::strings::{chars_of, string_push, push_str};
use crate::lexed::{
    char_seq_lt, chars_eq, chars_lt, lemma_char_seq_lt_asymmetric, lemma_char_seq_lt_irreflexive,
    lemma_char_seq_lt_total, lemma_char_seq_lt_transitive,
};
use crate::loc::{
    lemma_mangle_round_trip, mangle, mangle_spec, mark_numbers, marked_count, replace_plural_mark, replace_plural_mark_exec,
    span_ok, strings_view, unmangle, unmangle_from, TranslatableString,
};

verus! {

/// How one character is written inside a quoted `msgid` / `msgstr`.
pub open spec fn po_escape_char(c: char) -> Seq<char> {
    if c == '\\' {
        seq!['\\', '\\']
    } else if c == '"' {
        seq!['\\', '"']
    } else if c == '\n' {
        seq!['\\', 'n']
    } else if c == '\r' {
        seq!['\\', 'r']
    } else if c == '\t' {
        seq!['\\', 't']
    } else {
        seq![c]
    }
}

/// `s` escaped for a `msgid` / `msgstr` value.
pub open spec fn po_escape(s: Seq<char>) -> Seq<char>
    decreases s.len(),
{
    if s.len() == 0 {
        Seq::empty()
    } else {
        po_escape(s.drop_last()) + po_escape_char(s.last())
    }
}

/// Escapes a string for a `msgid` / `msgstr` value: backslash and quote,
/// plus the whitespace that would otherwise break the line.
pub fn escape(text: &str) -> (r: String)
    ensures
        r@ == po_escape(text@),
{
    let v = chars_of(text);
    let mut out = String::new();
    let mut i: usize = 0;
    while i < v.len()
        invariant
            i <= v@.len(),
            v@ == text@,
            out@ == po_escape(v@.take(i as int)),
        decreases v.len() - i,
    {
        let c = v[i];
        assert(v@.take(i + 1).drop_last() =~= v@.take(i as int));
        let ghost before = out@;
        if c == '\\' {
            string_push(&mut out, '\\');
            string_push(&mut out, '\\');
        } else if c == '"' {
            string_push(&mut out, '\\');
            string_push(&mut out, '"');
        } else if c == '\n' {
            string_push(&mut out, '\\');
            string_push(&mut out, 'n');
        } else if c == '\r' {
            string_push(&mut out, '\\');
            string_push(&mut out, 'r');
        } else if c == '\t' {
            string_push(&mut out, '\\');
            string_push(&mut out, 't');
        } else {
            string_push(&mut out, c);
        }
        assert(out@ =~= before + po_escape_char(c));
        i = i + 1;
    }
    assert(v@.take(v@.len() as int) =~= v@);
    out
}

/// The singular form of authored text: `torch(es)`-style markers dropped.
pub open spec fn singular_form(text: Seq<char>) -> Seq<char> {
    replace_plural_mark(text, Seq::empty())
}

/// The plural form of authored text: each marker becomes `s`.
pub open spec fn plural_form(text: Seq<char>) -> Seq<char> {
    replace_plural_mark(text, seq!['s'])
}

fn singular(text: &Vec<char>) -> (r: Vec<char>)
    ensures
        r@ == singular_form(text@),
{
    let w: Vec<char> = Vec::new();
    assert(w@ =~= Seq::<char>::empty());
    replace_plural_mark_exec(text, &w)
}

fn plural(text: &Vec<char>) -> (r: Vec<char>)
    ensures
        r@ == plural_form(text@),
{
    let mut w: Vec<char> = Vec::new();
    w.push('s');
    assert(w@ =~= seq!['s']);
    replace_plural_mark_exec(text, &w)
}

/// One catalog entry as the model sees it.
pub struct PotEntry {
    pub category: Seq<char>,
    pub text: Seq<char>,
    pub plural: bool,
    pub comments: Seq<Seq<char>>,
}

/// The model of a catalog: its entries in key order and the strings that
/// did not survive mangling.
pub struct CatalogView {
    pub entries: Seq<PotEntry>,
    pub mismatches: Seq<Seq<char>>,
}

struct Entry {
    category: String,
    text: String,
    plural: bool,
    comments: Vec<String>,
}

/// Accumulates strings and writes them out as a `.pot`.
///
/// Entries are kept in ascending order of (category, mangled text) -- the
/// pair gettext looks up by -- with no key twice, so duplicates collapse
/// exactly the way the runtime resolves them.
pub struct Catalog {
    entries: Vec<Entry>,
    mismatches: Vec<String>,
}

spec fn entry_view(e: Entry) -> PotEntry {
    PotEntry {
        category: e.category@,
        text: e.text@,
        plural: e.plural,
        comments: strings_view(e.comments@),
    }
}

impl View for Catalog {
    type V = CatalogView;

    closed spec fn view(&self) -> CatalogView {
        CatalogView {
            entries: Seq::new(self.entries@.len(), |i: int| entry_view(self.entries@[i])),
            mismatches: strings_view(self.mismatches@),
        }
    }
}

/// The order entries are kept in: by category, then by text.
pub open spec fn key_lt(c1: Seq<char>, t1: Seq<char>, c2: Seq<char>, t2: Seq<char>) -> bool {
    char_seq_lt(c1, c2) || (c1 == c2 && char_seq_lt(t1, t2))
}

/// Keys strictly ascending.
pub open spec fn entries_sorted(es: Seq<PotEntry>) -> bool {
    forall|i: int, j: int|
        0 <= i < j < es.len() ==> key_lt(
            #[trigger] es[i].category,
            es[i].text,
            #[trigger] es[j].category,
            es[j].text,
        )
}

/// No comment twice in one entry.
pub open spec fn comments_distinct(es: Seq<PotEntry>) -> bool {
    forall|i: int| 0 <= i < es.len() ==> (#[trigger] es[i].comments).no_duplicates()
}

/// The index of the entry keyed (`category`, `text`), if any.
pub open spec fn find_entry(es: Seq<PotEntry>, category: Seq<char>, text: Seq<char>) -> Option<int> {
    if exists|i: int| 0 <= i < es.len() && es[i].category == category && es[i].text == text {
        Some(choose|i: int| 0 <= i < es.len() && es[i].category == category && es[i].text == text)
    } else {
        None
    }
}

/// An existing entry with another occurrence of its key merged in.
pub open spec fn merge_entry(e: PotEntry, plural: bool, comment: Seq<char>) -> PotEntry {
    PotEntry {
        category: e.category,
        text: e.text,
        plural: e.plural || plural,
        comments: if e.comments.contains(comment) {
            e.comments
        } else {
            e.comments.push(comment)
        },
    }
}

/// The translator comment for a string: its field and its object path.
pub open spec fn comment_of(field: Seq<char>, path: Seq<char>) -> Seq<char> {
    field + " ("@ + path + ")"@
}

/// The report for a string whose catalog key does not lead back to it.
pub open spec fn mismatch_report(text: Seq<char>, path: Seq<char>, key: Seq<char>, back: Seq<char>) -> Seq<char> {
    "["@ + text + "] at "@ + path + " does not survive mangling: ["@ + key + "] -> ["@ + back + "]"@
}

/// What the catalog key of `text` unmangles back to.
pub open spec fn recovered(text: Seq<char>) -> Seq<char> {
    unmangle_from(mangle_spec(text).0, mangle_spec(text).1, true)
}

/// A text whose spans mangling gives back survives the catalog: its key
/// unmangles back to it, so adding it reports no mismatch.
pub proof fn lemma_well_formed_text_recovered(text: Seq<char>)
    requires
        span_ok(text),
        marked_count(mark_numbers(text)) <= 10,
    ensures
        recovered(text) == text,
{
    lemma_mangle_round_trip(text, true);
}

/// `es` after one more occurrence of the key (`category`, `text`): merged
/// into the entry with that key, or a new entry at `p`, the place the key
/// order gives it.
pub open spec fn entries_after_add(
    old_es: Seq<PotEntry>,
    new_es: Seq<PotEntry>,
    category: Seq<char>,
    text: Seq<char>,
    plural: bool,
    comment: Seq<char>,
) -> bool {
    match find_entry(old_es, category, text) {
        Some(i) => new_es == old_es.update(i, merge_entry(old_es[i], plural, comment)),
        None => exists|p: int|
            0 <= p <= old_es.len() && new_es == old_es.insert(
                p,
                PotEntry { category, text, plural, comments: seq![comment] },
            ) && (forall|j: int| 0 <= j < p ==> key_lt(old_es[j].category, old_es[j].text, category, text))
                && (forall|j: int|
                p <= j < old_es.len() ==> key_lt(category, text, old_es[j].category, old_es[j].text)),
    }
}

proof fn lemma_key_lt_transitive(
    c1: Seq<char>,
    t1: Seq<char>,
    c2: Seq<char>,
    t2: Seq<char>,
    c3: Seq<char>,
    t3: Seq<char>,
)
    requires
        key_lt(c1, t1, c2, t2),
        key_lt(c2, t2, c3, t3),
    ensures
        key_lt(c1, t1, c3, t3),
{
    lemma_char_seq_lt_irreflexive(c1);
    lemma_char_seq_lt_irreflexive(c2);
    if char_seq_lt(c1, c2) && char_seq_lt(c2, c3) {
        lemma_char_seq_lt_transitive(c1, c2, c3);
    }
    if c1 == c2 && c2 == c3 {
        lemma_char_seq_lt_transitive(t1, t2, t3);
    }
}

proof fn lemma_key_lt_irreflexive(c: Seq<char>, t: Seq<char>)
    ensures
        !key_lt(c, t, c, t),
{
    lemma_char_seq_lt_irreflexive(c);
    lemma_char_seq_lt_irreflexive(t);
}

proof fn lemma_key_lt_total(c1: Seq<char>, t1: Seq<char>, c2: Seq<char>, t2: Seq<char>)
    ensures
        (c1 == c2 && t1 == t2) || key_lt(c1, t1, c2, t2) || key_lt(c2, t2, c1, t1),
{
    lemma_char_seq_lt_total(c1, c2);
    lemma_char_seq_lt_total(t1, t2);
}

impl Catalog {
    /// The catalog's invariant: keys strictly ascending, comments distinct.
    pub open spec fn wf(&self) -> bool {
        &&& entries_sorted(self@.entries)
        &&& comments_distinct(self@.entries)
    }

    pub fn new() -> (r: Catalog)
        ensures
            r.wf(),
            r@.entries.len() == 0,
            r@.mismatches.len() == 0,
    {
        let r = Catalog { entries: Vec::new(), mismatches: Vec::new() };
        assert(r@.entries =~= Seq::<PotEntry>::empty());
        r
    }

    /// Adds one string. Repeats of the same key merge their comments.
    ///
    /// An empty string is dropped: a field left unset in the data is not
    /// something to translate, and an empty `msgid` is the header's own key.
    /// A string whose catalog key does not unmangle back to it is reported
    /// in `mismatches`. The text is one mangling accepts (at most ten
    /// marked spans).
    #[verifier::spinoff_prover]
    pub fn add(&mut self, s: &TranslatableString)
        requires
            old(self).wf(),
            marked_count(mark_numbers(s.text@)) <= 10,
        ensures
            final(self).wf(),
            s.text@.len() == 0 ==> final(self)@ == old(self)@,
            s.text@.len() > 0 ==> {
                &&& final(self)@.mismatches == if recovered(s.text@) == s.text@ {
                    old(self)@.mismatches
                } else {
                    old(self)@.mismatches.push(
                        mismatch_report(s.text@, s.path@, mangle_spec(s.text@).0, recovered(s.text@)),
                    )
                }
                &&& entries_after_add(
                    old(self)@.entries,
                    final(self)@.entries,
                    s.category@,
                    mangle_spec(s.text@).0,
                    s.plural,
                    comment_of(s.field@, s.path@),
                )
            },
    {
        let tc = chars_of(s.text.as_str());
        if tc.len() == 0 {
            return;
        }
        let m = mangle(s.text.as_str());
        let back = unmangle(&m, true);
        let bc = chars_of(back.as_str());
        if !chars_eq(&bc, &tc) {
            let mut msg = String::new();
            push_str(&mut msg, "[");
            push_str(&mut msg, s.text.as_str());
            push_str(&mut msg, "] at ");
            push_str(&mut msg, s.path.as_str());
            push_str(&mut msg, " does not survive mangling: [");
            push_str(&mut msg, m.text.as_str());
            push_str(&mut msg, "] -> [");
            push_str(&mut msg, back.as_str());
            push_str(&mut msg, "]");
            let ghost before = strings_view(self.mismatches@);
            self.mismatches.push(msg);
            assert(strings_view(self.mismatches@) =~= before.push(msg@));
        } else {
            assert(recovered(s.text@) == s.text@);
        }
        let mut comment = String::new();
        push_str(&mut comment, s.field.as_str());
        push_str(&mut comment, " (");
        push_str(&mut comment, s.path.as_str());
        push_str(&mut comment, ")");
        let category = s.category.clone();
        self.insert_entry(category, m.text, s.plural, comment);
    }

    fn insert_entry(&mut self, category: String, text: String, plural: bool, comment: String)
        requires
            old(self).wf(),
        ensures
            final(self).wf(),
            final(self)@.mismatches == old(self)@.mismatches,
            entries_after_add(old(self)@.entries, final(self)@.entries, category@, text@, plural, comment@),
    {
        let ghost es = self@.entries;
        let cc = chars_of(category.as_str());
        let tc = chars_of(text.as_str());
        let mut i: usize = 0;
        let n = self.entries.len();
        while i < n
            invariant
                i <= n,
                n == self.entries@.len(),
                es == self@.entries,
                cc@ == category@,
                tc@ == text@,
                forall|j: int| 0 <= j < i ==> key_lt(es[j].category, es[j].text, category@, text@),
            ensures
                i <= n,
                forall|j: int| 0 <= j < i ==> key_lt(es[j].category, es[j].text, category@, text@),
                i < n ==> !key_lt(es[i as int].category, es[i as int].text, category@, text@),
            decreases n - i,
        {
            let ec = chars_of(self.entries[i].category.as_str());
            let et = chars_of(self.entries[i].text.as_str());
            assert(es[i as int].category == ec@ && es[i as int].text == et@);
            let lt = chars_lt(&ec, &cc) || (chars_eq(&ec, &cc) && chars_lt(&et, &tc));
            if !lt {
                break;
            }
            i = i + 1;
        }
        let found = if i < n {
            let ec = chars_of(self.entries[i].category.as_str());
            let et = chars_of(self.entries[i].text.as_str());
            assert(es[i as int].category == ec@ && es[i as int].text == et@);
            chars_eq(&ec, &cc) && chars_eq(&et, &tc)
        } else {
            false
        };
        if found {
            assert(find_entry(es, category@, text@) == Some(i as int)) by {
                assert forall|j: int|
                    0 <= j < es.len() && es[j].category == category@ && es[j].text == text@ implies j
                    == i by {
                    if j != i {
                        if j < i {
                            lemma_key_lt_irreflexive(category@, text@);
                        } else {
                            assert(key_lt(es[i as int].category, es[i as int].text, es[j].category, es[j].text));
                            lemma_key_lt_irreflexive(category@, text@);
                        }
                    }
                }
            }
            let mut e = self.entries.remove(i);
            let cmt = chars_of(comment.as_str());
            let present = strings_contain(&e.comments, &cmt);
            e.plural = e.plural || plural;
            if !present {
                let ghost before = strings_view(e.comments@);
                e.comments.push(comment);
                assert(strings_view(e.comments@) =~= before.push(comment@));
            }
            self.entries.insert(i, e);
            proof {
                let ne = self@.entries;
                assert(ne =~= es.update(i as int, merge_entry(es[i as int], plural, comment@)));
                let old_c = es[i as int].comments;
                assert(old_c.no_duplicates());
                if !old_c.contains(comment@) {
                    assert(old_c.push(comment@).no_duplicates()) by {
                        let c2 = old_c.push(comment@);
                        assert forall|a: int, b: int| 0 <= a < c2.len() && 0 <= b < c2.len() && a != b implies c2[a]
                            != c2[b] by {
                            if a == old_c.len() {
                                assert(c2[b] == old_c[b]);
                            } else if b == old_c.len() {
                                assert(c2[a] == old_c[a]);
                            }
                        }
                    }
                }
                assert(entries_sorted(ne)) by {
                    assert forall|a: int, b: int| 0 <= a < b < ne.len() implies key_lt(
                        #[trigger] ne[a].category,
                        ne[a].text,
                        #[trigger] ne[b].category,
                        ne[b].text,
                    ) by {
                        assert(ne[a].category == es[a].category && ne[a].text == es[a].text);
                        assert(ne[b].category == es[b].category && ne[b].text == es[b].text);
                    }
                }
                assert(comments_distinct(ne)) by {
                    assert forall|a: int| 0 <= a < ne.len() implies (#[trigger] ne[a].comments).no_duplicates() by {
                        if a != i {
                            assert(ne[a] == es[a]);
                        }
                    }
                }
            }
        } else {
            proof {
                assert forall|j: int| i <= j < es.len() implies key_lt(category@, text@, es[j].category, es[j].text) by {
                    lemma_key_lt_total(es[i as int].category, es[i as int].text, category@, text@);
                    if j > i {
                        assert(key_lt(es[i as int].category, es[i as int].text, es[j].category, es[j].text));
                        lemma_key_lt_transitive(
                            category@,
                            text@,
                            es[i as int].category,
                            es[i as int].text,
                            es[j].category,
                            es[j].text,
                        );
                    }
                }
                assert(find_entry(es, category@, text@) is None) by {
                    if exists|j: int| 0 <= j < es.len() && es[j].category == category@ && es[j].text == text@ {
                        let j = choose|j: int| 0 <= j < es.len() && es[j].category == category@ && es[j].text == text@;
                        lemma_key_lt_irreflexive(category@, text@);
                    }
                }
            }
            let ghost fresh = PotEntry { category: category@, text: text@, plural, comments: seq![comment@] };
            let mut comments: Vec<String> = Vec::new();
            comments.push(comment);
            let e = Entry { category, text, plural, comments };
            assert(entry_view(e) == fresh) by {
                assert(strings_view(e.comments@) =~= seq![comment@]);
            }
            self.entries.insert(i, e);
            proof {
                let ne = self@.entries;
                assert(ne =~= es.insert(i as int, fresh));
                assert(entries_sorted(ne)) by {
                    assert forall|a: int, b: int| 0 <= a < b < ne.len() implies key_lt(
                        #[trigger] ne[a].category,
                        ne[a].text,
                        #[trigger] ne[b].category,
                        ne[b].text,
                    ) by {
                        if b < i {
                        } else if a < i && b == i {
                        } else if a < i {
                            assert(ne[b] == es[b - 1]);
                            lemma_key_lt_transitive(
                                es[a].category,
                                es[a].text,
                                category@,
                                text@,
                                es[b - 1].category,
                                es[b - 1].text,
                            );
                        } else if a == i {
                            assert(ne[b] == es[b - 1]);
                        } else {
                            assert(ne[a] == es[a - 1] && ne[b] == es[b - 1]);
                        }
                    }
                }
                assert(comments_distinct(ne)) by {
                    assert forall|a: int| 0 <= a < ne.len() implies (#[trigger] ne[a].comments).no_duplicates() by {
                        if a < i {
                            assert(ne[a] == es[a]);
                        } else if a > i {
                            assert(ne[a] == es[a - 1]);
                        }
                    }
                }
            }
        }
    }

    /// How many distinct entries the catalog holds.
    pub fn len(&self) -> (r: usize)
        ensures
            r == self@.entries.len(),
    {
        self.entries.len()
    }

    pub fn is_empty(&self) -> (r: bool)
        ensures
            r == (self@.entries.len() == 0),
    {
        self.entries.len() == 0
    }

    /// Strings that could not be mangled and unmangled back to themselves.
    /// Extraction should fail rather than emit these.
    pub fn mismatches(&self) -> (r: &[String])
        ensures
            strings_view(r@) == self@.mismatches,
    {
        self.mismatches.as_slice()
    }
}

/// Whether `v` holds a string equal to `s`.
fn strings_contain(v: &Vec<String>, s: &Vec<char>) -> (r: bool)
    ensures
        r == strings_view(v@).contains(s@),
{
    let mut i: usize = 0;
    while i < v.len()
        invariant
            i <= v@.len(),
            forall|j: int| 0 <= j < i ==> v@[j]@ != s@,
        decreases v.len() - i,
    {
        let c = chars_of(v[i].as_str());
        if chars_eq(&c, s) {
            assert(strings_view(v@)[i as int] == s@);
            return true;
        }
        i = i + 1;
    }
    assert forall|j: int| 0 <= j < strings_view(v@).len() implies strings_view(v@)[j] != s@ by {
        assert(strings_view(v@)[j] == v@[j]@);
    }
    false
}

/// The `.pot` header, naming `project`.
pub open spec fn pot_header(project: Seq<char>) -> Seq<char> {
    "#, fuzzy\nmsgid \"\"\nmsgstr \"\"\n"@ + "\"Project-Id-Version: "@ + po_escape(project) + "\\n\"\n"@
        + "\"MIME-Version: 1.0\\n\"\n"@ + "\"Content-Type: text/plain; charset=UTF-8\\n\"\n"@
        + "\"Content-Transfer-Encoding: 8bit\\n\"\n\n"@
}

/// The translator comment lines of an entry.
pub open spec fn comment_lines(cs: Seq<Seq<char>>) -> Seq<char>
    decreases cs.len(),
{
    if cs.len() == 0 {
        Seq::empty()
    } else {
        comment_lines(cs.drop_last()) + "#. "@ + cs.last() + "\n"@
    }
}

/// The `msgctxt` line of an entry; none for the empty category.
pub open spec fn context_line(category: Seq<char>) -> Seq<char> {
    if category.len() > 0 {
        "msgctxt \""@ + po_escape(category) + "\"\n"@
    } else {
        Seq::empty()
    }
}

/// The `msgid` and `msgstr` lines of an entry.
pub open spec fn message_lines(text: Seq<char>, plural: bool) -> Seq<char> {
    if plural {
        "msgid \""@ + po_escape(singular_form(text)) + "\"\n"@ + "msgid_plural \""@ + po_escape(
            plural_form(text),
        ) + "\"\n"@ + "msgstr[0] \"\"\nmsgstr[1] \"\"\n"@
    } else {
        "msgid \""@ + po_escape(text) + "\"\n"@ + "msgstr \"\"\n"@
    }
}

/// One entry as written in the catalog, followed by a blank line.
pub open spec fn entry_text(e: PotEntry) -> Seq<char> {
    comment_lines(e.comments) + context_line(e.category) + message_lines(e.text, e.plural) + "\n"@
}

/// The entries as written, in order.
pub open spec fn pot_body(es: Seq<PotEntry>) -> Seq<char>
    decreases es.len(),
{
    if es.len() == 0 {
        Seq::empty()
    } else {
        pot_body(es.drop_last()) + entry_text(es.last())
    }
}

fn string_of_chars(v: &Vec<char>) -> (s: String)
    ensures
        s@ == v@,
{
    let s = crate::strings::string_from_chars(v.as_slice(), 0, v.len());
    assert(v@.subrange(0, v@.len() as int) =~= v@);
    s
}

impl Catalog {
    /// Renders the catalog. `project` goes in the header.
    pub fn to_pot(&self, project: &str) -> (r: String)
        ensures
            r@ == pot_header(project@) + pot_body(self@.entries),
    {
        let ghost es = self@.entries;
        let mut out = String::new();
        push_str(&mut out, "#, fuzzy\nmsgid \"\"\nmsgstr \"\"\n");
        push_str(&mut out, "\"Project-Id-Version: ");
        let ep = escape(project);
        push_str(&mut out, ep.as_str());
        push_str(&mut out, "\\n\"\n");
        push_str(&mut out, "\"MIME-Version: 1.0\\n\"\n");
        push_str(&mut out, "\"Content-Type: text/plain; charset=UTF-8\\n\"\n");
        push_str(&mut out, "\"Content-Transfer-Encoding: 8bit\\n\"\n\n");
        assert(es.take(0) =~= Seq::<PotEntry>::empty());
        let mut i: usize = 0;
        while i < self.entries.len()
            invariant
                i <= self.entries@.len(),
                es == self@.entries,
                out@ == pot_header(project@) + pot_body(es.take(i as int)),
            decreases self.entries.len() - i,
        {
            let e = &self.entries[i];
            assert(es[i as int] == entry_view(*e));
            assert(es.take(i + 1).drop_last() =~= es.take(i as int));
            let ghost before = out@;
            let text = write_entry(e);
            push_str(&mut out, text.as_str());
            i = i + 1;
        }
        assert(es.take(es.len() as int) =~= es);
        out
    }
}

fn write_entry(e: &Entry) -> (r: String)
    ensures
        r@ == entry_text(entry_view(*e)),
{
    let ghost cs = strings_view(e.comments@);
    let mut out = String::new();
    let mut k: usize = 0;
    assert(cs.take(0) =~= Seq::<Seq<char>>::empty());
    while k < e.comments.len()
        invariant
            k <= e.comments@.len(),
            cs == strings_view(e.comments@),
            out@ == comment_lines(cs.take(k as int)),
        decreases e.comments.len() - k,
    {
        assert(cs.take(k + 1).drop_last() =~= cs.take(k as int));
        push_str(&mut out, "#. ");
        push_str(&mut out, e.comments[k].as_str());
        push_str(&mut out, "\n");
        k = k + 1;
    }
    assert(cs.take(cs.len() as int) =~= cs);
    let cc = chars_of(e.category.as_str());
    if cc.len() > 0 {
        push_str(&mut out, "msgctxt \"");
        let ec = escape(e.category.as_str());
        push_str(&mut out, ec.as_str());
        push_str(&mut out, "\"\n");
    }
    if e.plural {
        let tc = chars_of(e.text.as_str());
        let sv = string_of_chars(&singular(&tc));
        let pv = string_of_chars(&plural(&tc));
        push_str(&mut out, "msgid \"");
        let es = escape(sv.as_str());
        push_str(&mut out, es.as_str());
        push_str(&mut out, "\"\n");
        push_str(&mut out, "msgid_plural \"");
        let ep = escape(pv.as_str());
        push_str(&mut out, ep.as_str());
        push_str(&mut out, "\"\n");
        push_str(&mut out, "msgstr[0] \"\"\nmsgstr[1] \"\"\n");
    } else {
        push_str(&mut out, "msgid \"");
        let et = escape(e.text.as_str());
        push_str(&mut out, et.as_str());
        push_str(&mut out, "\"\n");
        push_str(&mut out, "msgstr \"\"\n");
    }
    push_str(&mut out, "\n");
    out
}

/// A string whose key is already in the catalog merges into that entry:
/// adding two strings with the same category and catalog key -- numeric
/// variants of one text, say -- leaves one entry for them.
pub proof fn lemma_same_key_one_entry(
    e0: Seq<PotEntry>,
    e1: Seq<PotEntry>,
    e2: Seq<PotEntry>,
    category: Seq<char>,
    key: Seq<char>,
    plural1: bool,
    comment1: Seq<char>,
    plural2: bool,
    comment2: Seq<char>,
)
    requires
        entries_after_add(e0, e1, category, key, plural1, comment1),
        entries_after_add(e1, e2, category, key, plural2, comment2),
    ensures
        e2.len() == e1.len(),
        find_entry(e1, category, key) is Some,
        find_entry(e2, category, key) is Some,
{
    match find_entry(e0, category, key) {
        Some(i) => {
            assert(e1[i].category == category && e1[i].text == key);
        },
        None => {
            let p = choose|p: int|
                0 <= p <= e0.len() && e1 == e0.insert(p, PotEntry { category, text: key, plural: plural1, comments: seq![comment1] })
                    && (forall|j: int| 0 <= j < p ==> key_lt(e0[j].category, e0[j].text, category, key)) && (forall|j: int|
                    p <= j < e0.len() ==> key_lt(category, key, e0[j].category, e0[j].text));
            assert(e1[p].category == category && e1[p].text == key);
        },
    }
    let i = find_entry(e1, category, key).unwrap();
    assert(e2[i].category == category && e2[i].text == key);
}

/// The entries of two lists, written one after the other.
proof fn lemma_pot_body_concat(a: Seq<PotEntry>, b: Seq<PotEntry>)
    ensures
        pot_body(a + b) == pot_body(a) + pot_body(b),
    decreases b.len(),
{
    if b.len() == 0 {
        assert(a + b =~= a);
        assert(pot_body(a) + Seq::<char>::empty() =~= pot_body(a));
    } else {
        assert((a + b).drop_last() =~= a + b.drop_last());
        assert((a + b).last() == b.last());
        lemma_pot_body_concat(a, b.drop_last());
        assert(pot_body(a) + pot_body(b.drop_last()) + entry_text(b.last()) =~= pot_body(a) + (pot_body(b.drop_last())
            + entry_text(b.last())));
    }
}

/// Every plural entry of a rendered catalog gives translators both plural
/// slots: its `msgid_plural` line is followed by a `msgstr[0]` line and a
/// `msgstr[1]` line, then the blank line that ends the entry.
pub proof fn lemma_plural_entry_slots(es: Seq<PotEntry>, i: int)
    requires
        0 <= i < es.len(),
        es[i].plural,
    ensures
        exists|pre: Seq<char>, post: Seq<char>|
            pot_body(es) == pre + "msgid_plural \""@ + po_escape(plural_form(es[i].text)) + "\"\n"@
                + "msgstr[0] \"\"\n"@ + "msgstr[1] \"\"\n"@ + "\n"@ + post,
{
    let e = es[i];
    let head = es.take(i);
    let tail = es.skip(i + 1);
    assert(es =~= head + seq![e] + tail);
    lemma_pot_body_concat(head + seq![e], tail);
    assert((head + seq![e]).drop_last() =~= head);
    assert(pot_body(head + seq![e]) == pot_body(head) + entry_text(e));
    reveal_strlit("msgstr[0] \"\"\nmsgstr[1] \"\"\n");
    reveal_strlit("msgstr[0] \"\"\n");
    reveal_strlit("msgstr[1] \"\"\n");
    let pre = pot_body(head) + comment_lines(e.comments) + context_line(e.category) + "msgid \""@ + po_escape(
        singular_form(e.text),
    ) + "\"\n"@;
    let post = pot_body(tail);
    assert(pot_body(es) =~= pre + "msgid_plural \""@ + po_escape(plural_form(e.text)) + "\"\n"@ + "msgstr[0] \"\"\n"@
        + "msgstr[1] \"\"\n"@ + "\n"@ + post);
}

} // verus!

