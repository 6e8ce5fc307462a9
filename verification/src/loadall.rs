//! An index of every object in a data set, keyed by path.
//!
//! Text (`.txt`) files hold `@Type id { ... }` objects, and every object
//! with an id anywhere inside them -- nested ones included -- is indexed
//! under that id. JSON files hold one object each, indexed under the file's
//! path. Reading the files is left to the caller; this module takes their
//! contents.

use vstd::prelude::*;
use crate::lexed::{
    char_seq_lt, clone_kv, kv_get, kv_insert, Lexed, LexedData, LexedKv, lemma_kv_get_decreases, lemma_list_view_index,
    list_view,
};
use crate::lexer::{lex_file, lex_text, object_at, parse_object_data};
use crate::source::{LoadedObject, ObjectLoader};
use crate::strings::{chars_of, string_from_chars};

verus! {

/// Whether an entry is an object filed under its own id.
pub open spec fn filed_under_id(e: (Seq<char>, Lexed)) -> bool {
    e.1 matches Lexed::Object { id, .. } && id == e.0
}

/// Every value of the index is an object filed under its own id.
pub open spec fn all_objects(objs: Seq<(Seq<char>, Lexed)>) -> bool {
    forall|i: int| 0 <= i < objs.len() ==> filed_under_id(#[trigger] objs[i])
}

/// The index after visiting `d`: an object with an id is filed under it,
/// then its fields are visited in key order; an array's elements are
/// visited in order.
pub open spec fn collect_objs(objs: Seq<(Seq<char>, Lexed)>, d: Lexed) -> Seq<(Seq<char>, Lexed)>
    decreases d,
{
    match d {
        Lexed::Object { kv, id, type_tag } => {
            let o1 = if id.len() > 0 {
                kv_insert(objs, id, Lexed::Object { kv, id, type_tag })
            } else {
                objs
            };
            collect_fields(o1, kv)
        },
        Lexed::Array(a) => collect_list(objs, a),
        _ => objs,
    }
}

/// The index after visiting the values of `kv`, in order.
pub open spec fn collect_fields(objs: Seq<(Seq<char>, Lexed)>, kv: Seq<(Seq<char>, Lexed)>) -> Seq<
    (Seq<char>, Lexed),
>
    decreases kv,
{
    if kv.len() == 0 {
        objs
    } else {
        collect_fields(collect_objs(objs, kv[0].1), kv.drop_first())
    }
}

/// The index after visiting the elements of `a`, in order.
pub open spec fn collect_list(objs: Seq<(Seq<char>, Lexed)>, a: Seq<Lexed>) -> Seq<(Seq<char>, Lexed)>
    decreases a,
{
    if a.len() == 0 {
        objs
    } else {
        collect_list(collect_objs(objs, a[0]), a.drop_first())
    }
}

/// Filing keeps every value an object under its own id.
proof fn lemma_insert_all_objects(objs: Seq<(Seq<char>, Lexed)>, key: Seq<char>, value: Lexed)
    requires
        all_objects(objs),
        filed_under_id((key, value)),
    ensures
        all_objects(kv_insert(objs, key, value)),
    decreases objs.len(),
{
    let r = kv_insert(objs, key, value);
    if objs.len() == 0 {
    } else if objs[0].0 == key {
        assert forall|i: int| 0 <= i < r.len() implies filed_under_id(#[trigger] r[i]) by {
            if i > 0 {
                assert(r[i] == objs[i]);
            }
        }
    } else if crate::lexed::char_seq_lt(key, objs[0].0) {
        assert forall|i: int| 0 <= i < r.len() implies filed_under_id(#[trigger] r[i]) by {
            if i > 0 {
                assert(r[i] == objs[i - 1]);
            }
        }
    } else {
        let rest = objs.drop_first();
        assert(all_objects(rest)) by {
            assert forall|i: int| 0 <= i < rest.len() implies filed_under_id(#[trigger] rest[i]) by {
                assert(rest[i] == objs[i + 1]);
            }
        }
        lemma_insert_all_objects(rest, key, value);
        let rr = kv_insert(rest, key, value);
        assert(r =~= seq![objs[0]] + rr);
        assert forall|i: int| 0 <= i < r.len() implies filed_under_id(#[trigger] r[i]) by {
            if i > 0 {
                assert(r[i] == rr[i - 1]);
            }
        }
    }
}

/// Files every object with an id in `d` into `objs`.
#[verifier::spinoff_prover]
fn collect_txty_inline_objs(objs: &mut LexedKv, d: &LexedData)
    requires
        all_objects(old(objs)@),
    ensures
        all_objects(final(objs)@),
        final(objs)@ == collect_objs(old(objs)@, d@),
    decreases d@,
{
    match d {
        LexedData::Object { kv, id, type_tag } => {
            if !id.as_str().is_empty() {
                proof {
                    lemma_insert_all_objects(objs@, id@, d@);
                }
                let entry = LexedData::Object { kv: clone_kv(kv), id: id.clone(), type_tag: type_tag.clone() };
                objs.insert(id.clone(), entry);
            }
            let ghost kvv = kv@;
            let mut i: usize = 0;
            let n = kv.len();
            assert(kvv.skip(0) =~= kvv);
            while i < n
                invariant
                    i <= n,
                    n == kvv.len(),
                    kvv == kv@,
                    d@ == (Lexed::Object { kv: kvv, id: id@, type_tag: type_tag@ }),
                    all_objects(objs@),
                    collect_objs(old(objs)@, d@) == collect_fields(objs@, kvv.skip(i as int)),
                decreases n - i,
            {
                let v = kv.value_at(i);
                let ghost rest = kvv.skip(i as int);
                assert(rest[0] == kvv[i as int]);
                assert(rest.drop_first() =~= kvv.skip(i + 1));
                assert(decreases_to!(d@ => kvv[i as int].1)) by {
                    assert(decreases_to!(d@ => d@->Object_kv));
                };
                collect_txty_inline_objs(objs, v);
                i = i + 1;
            }
            assert(kvv.skip(n as int) =~= Seq::<(Seq<char>, Lexed)>::empty());
        },
        LexedData::Array(a) => {
            proof {
                lemma_list_view_index(a@);
            }
            let ghost av = list_view(a@);
            let mut i: usize = 0;
            let n = a.len();
            assert(av.skip(0) =~= av);
            while i < n
                invariant
                    i <= n,
                    n == a@.len(),
                    av == list_view(a@),
                    av.len() == a@.len(),
                    forall|j: int| 0 <= j < a@.len() ==> #[trigger] av[j] == a@[j]@,
                    d@ == Lexed::Array(av),
                    all_objects(objs@),
                    collect_objs(old(objs)@, d@) == collect_list(objs@, av.skip(i as int)),
                decreases n - i,
            {
                let ghost rest = av.skip(i as int);
                assert(rest[0] == av[i as int]);
                assert(rest.drop_first() =~= av.skip(i + 1));
                assert(decreases_to!(d@ => av[i as int])) by {
                    assert(decreases_to!(d@ => d@->Array_0));
                };
                collect_txty_inline_objs(objs, &a[i]);
                i = i + 1;
            }
            assert(av.skip(n as int) =~= Seq::<Lexed>::empty());
        },
        _ => {},
    }
}

/// `s` without any number of trailing `.json`.
pub open spec fn trim_json(s: Seq<char>) -> Seq<char>
    decreases s.len(),
{
    if s.len() >= 5 && s.subrange(s.len() - 5, s.len() as int) == seq!['.', 'j', 's', 'o', 'n'] {
        trim_json(s.take(s.len() - 5))
    } else {
        s
    }
}

/// `s` with every `\` turned into `/`.
pub open spec fn slashes(s: Seq<char>) -> Seq<char> {
    Seq::new(s.len(), |i: int| if s[i] == '\\' { '/' } else { s[i] })
}

/// The index after visiting the JSON object `d` of the file at `rel_path`
/// (relative to the data directory): its `data` object is filed, typed by
/// its `type`, under the file's path without `.json` plus its `ref`; the
/// objects of its `aux` array are visited in turn.
pub open spec fn process_jsony(objs: Seq<(Seq<char>, Lexed)>, rel_path: Seq<char>, d: Lexed) -> Seq<
    (Seq<char>, Lexed),
>
    decreases d,
{
    match d {
        Lexed::Object { kv, .. } => {
            let base = slashes(trim_json(rel_path));
            let obj_ref = match kv_get(kv, "ref"@) {
                Some(Lexed::StringLiteral(piece)) => base + piece,
                _ => base,
            };
            let o1 = match kv_get(kv, "type"@) {
                Some(Lexed::StringLiteral(t)) => match kv_get(kv, "data"@) {
                    Some(Lexed::Object { kv: data, .. }) => kv_insert(
                        objs,
                        obj_ref,
                        Lexed::Object { kv: data, id: obj_ref, type_tag: t },
                    ),
                    _ => objs,
                },
                _ => objs,
            };
            match kv_get(kv, "aux"@) {
                Some(Lexed::Array(arr)) => {
                    proof {
                        lemma_kv_get_decreases(kv, "aux"@);
                    }
                    process_jsony_list(o1, rel_path, arr)
                },
                _ => o1,
            }
        },
        _ => objs,
    }
}

/// The index after visiting each JSON object of `a` in order.
pub open spec fn process_jsony_list(objs: Seq<(Seq<char>, Lexed)>, rel_path: Seq<char>, a: Seq<Lexed>) -> Seq<
    (Seq<char>, Lexed),
>
    decreases a,
{
    if a.len() == 0 {
        objs
    } else {
        process_jsony_list(process_jsony(objs, rel_path, a[0]), rel_path, a.drop_first())
    }
}

/// The index of every object in a data set, keyed by path.
pub struct LoadAll {
    objs: LexedKv,
}

impl View for LoadAll {
    type V = Seq<(Seq<char>, Lexed)>;

    closed spec fn view(&self) -> Seq<(Seq<char>, Lexed)> {
        self.objs@
    }
}

impl LoadAll {
    #[verifier::type_invariant]
    spec fn objects_filed(self) -> bool {
        all_objects(self.objs@)
    }

    /// An empty index.
    pub fn empty() -> (r: LoadAll)
        ensures
            r@ == Seq::<(Seq<char>, Lexed)>::empty(),
    {
        LoadAll { objs: LexedKv::new() }
    }

    /// Indexes every object in the text `data`.
    pub fn from_txty_data(data: &str) -> (r: LoadAll)
        ensures
            r@ == collect_fields(Seq::empty(), lex_text(data@)),
    {
        let mut idx = LoadAll::empty();
        idx.index_txty_data(data);
        idx
    }

    /// Adds every object of a text file's contents.
    pub fn index_txty_data(&mut self, contents: &str)
        ensures
            final(self)@ == collect_fields(old(self)@, lex_text(contents@)),
    {
        proof {
            use_type_invariant(&*self);
        }
        let mut objs = LexedKv::new();
        std::mem::swap(&mut objs, &mut self.objs);
        let file = lex_file(contents);
        let ghost fv = file@;
        let ghost start = objs@;
        let mut i: usize = 0;
        let n = file.len();
        assert(fv.skip(0) =~= fv);
        while i < n
            invariant
                i <= n,
                n == fv.len(),
                fv == file@,
                fv == lex_text(contents@),
                all_objects(objs@),
                collect_fields(start, fv) == collect_fields(objs@, fv.skip(i as int)),
            decreases n - i,
        {
            let ghost rest = fv.skip(i as int);
            assert(rest[0] == fv[i as int]);
            assert(rest.drop_first() =~= fv.skip(i + 1));
            collect_txty_inline_objs(&mut objs, file.value_at(i));
            i = i + 1;
        }
        assert(fv.skip(n as int) =~= Seq::<(Seq<char>, Lexed)>::empty());
        self.objs = objs;
    }

    /// Adds the object of a JSON file's contents, `rel_path` being the
    /// file's path relative to the data directory.
    ///
    /// The contents are an object body `{ ... }`.
    pub fn index_jsony_data(&mut self, rel_path: &str, contents: &str)
        requires
            contents@.len() == 0 || contents@[0] == '{',
        ensures
            final(self)@ == process_jsony(old(self)@, rel_path@, object_at(contents@, 0).0),
    {
        proof {
            use_type_invariant(&*self);
        }
        let mut objs = LexedKv::new();
        std::mem::swap(&mut objs, &mut self.objs);
        let res = parse_object_data(contents);
        let rp = chars_of(rel_path);
        process_jsony_obj(&rp, &mut objs, &res.data);
        self.objs = objs;
    }

    /// Every object, as `(path, type tag, fields)`, in path order.
    pub fn objects(&self) -> (r: Vec<(&str, &str, &LexedKv)>)
        ensures
            r@.len() == self@.len(),
            forall|i: int, j: int| 0 <= i < j < r@.len() ==> char_seq_lt(#[trigger] r@[i].0@, #[trigger] r@[j].0@),
            forall|i: int|
                0 <= i < r@.len() ==> {
                    &&& (#[trigger] r@[i]).0@ == self@[i].0
                    &&& self@[i].1 matches Lexed::Object { kv, type_tag, .. } && r@[i].1@ == type_tag
                        && r@[i].2@ == kv
                },
    {
        proof {
            use_type_invariant(self);
            use_type_invariant(&self.objs);
            self.objs.lemma_keys_sorted();
        }
        let mut out: Vec<(&str, &str, &LexedKv)> = Vec::new();
        let mut i: usize = 0;
        while i < self.objs.len()
            invariant
                i <= self@.len(),
                self@.len() == self.objs@.len(),
                all_objects(self.objs@),
                out@.len() == i,
                forall|j: int|
                    0 <= j < i ==> {
                        &&& (#[trigger] out@[j]).0@ == self@[j].0
                        &&& self@[j].1 matches Lexed::Object { kv, type_tag, .. } && out@[j].1@ == type_tag
                            && out@[j].2@ == kv
                    },
            decreases self@.len() - i,
        {
            let key = self.objs.key_at(i);
            let v = self.objs.value_at(i);
            assert(self@[i as int].1 matches Lexed::Object { .. });
            match v {
                LexedData::Object { kv, type_tag, .. } => {
                    out.push((key.as_str(), type_tag.as_str(), kv));
                },
                _ => {
                    assert(false);
                },
            }
            i = i + 1;
        }
        out
    }
}

impl ObjectLoader for LoadAll {
    open spec fn lookup(&self, path: Seq<char>) -> Option<LoadedObject> {
        match kv_get(self@, path) {
            Some(Lexed::Object { kv, type_tag, .. }) => Some((type_tag, kv)),
            _ => None,
        }
    }

    fn load(&self, path: &str) -> (r: Option<(&str, &LexedKv)>) {
        match self.objs.get(path) {
            Some(LexedData::Object { kv, type_tag, .. }) => Some((type_tag.as_str(), kv)),
            _ => None,
        }
    }
}

/// `rel_path` without trailing `.json`s and with `/` for `\`.
fn object_ref_base(rel_path: &Vec<char>) -> (r: Vec<char>)
    ensures
        r@ == slashes(trim_json(rel_path@)),
{
    let mut n = rel_path.len();
    assert(rel_path@.take(n as int) =~= rel_path@);
    loop
        invariant
            n <= rel_path@.len(),
            trim_json(rel_path@) == trim_json(rel_path@.take(n as int)),
        ensures
            n <= rel_path@.len(),
            trim_json(rel_path@) == rel_path@.take(n as int),
        decreases n,
    {
        let ghost t = rel_path@.take(n as int);
        if n >= 5 && rel_path[n - 5] == '.' && rel_path[n - 4] == 'j' && rel_path[n - 3] == 's' && rel_path[n
            - 2] == 'o' && rel_path[n - 1] == 'n' {
            assert(t.subrange(t.len() - 5, t.len() as int) =~= seq!['.', 'j', 's', 'o', 'n']);
            assert(t.take(t.len() - 5) =~= rel_path@.take(n - 5));
            n = n - 5;
        } else {
            assert(n >= 5 ==> t.subrange(t.len() - 5, t.len() as int) != seq!['.', 'j', 's', 'o', 'n']) by {
                if n >= 5 && t.subrange(t.len() - 5, t.len() as int) == seq!['.', 'j', 's', 'o', 'n'] {
                    assert(t.subrange(t.len() - 5, t.len() as int)[0] == '.');
                    assert(t.subrange(t.len() - 5, t.len() as int)[1] == 'j');
                    assert(t.subrange(t.len() - 5, t.len() as int)[2] == 's');
                    assert(t.subrange(t.len() - 5, t.len() as int)[3] == 'o');
                    assert(t.subrange(t.len() - 5, t.len() as int)[4] == 'n');
                }
            }
            break;
        }
    }
    let mut out: Vec<char> = Vec::new();
    let mut i: usize = 0;
    while i < n
        invariant
            i <= n <= rel_path@.len(),
            out@ == slashes(rel_path@.take(i as int)),
        decreases n - i,
    {
        let c = rel_path[i];
        out.push(if c == '\\' { '/' } else { c });
        assert(out@ =~= slashes(rel_path@.take(i + 1)));
        i = i + 1;
    }
    out
}

/// Files the JSON object `d` and the objects of its `aux` array.
#[verifier::spinoff_prover]
fn process_jsony_obj(rel_path: &Vec<char>, objs: &mut LexedKv, d: &LexedData)
    requires
        all_objects(old(objs)@),
    ensures
        all_objects(final(objs)@),
        final(objs)@ == process_jsony(old(objs)@, rel_path@, d@),
    decreases d@,
{
    match d {
        LexedData::Object { kv, .. } => {
            let base = object_ref_base(rel_path);
            let mut obj_ref = base;
            match kv.get("ref") {
                Some(LexedData::StringLiteral(piece)) => {
                    let pc = chars_of(piece.as_str());
                    let ghost before = obj_ref@;
                    let mut i: usize = 0;
                    while i < pc.len()
                        invariant
                            i <= pc@.len(),
                            obj_ref@ == before + pc@.take(i as int),
                        decreases pc.len() - i,
                    {
                        obj_ref.push(pc[i]);
                        assert(pc@.take(i + 1) =~= pc@.take(i as int).push(pc@[i as int]));
                        i = i + 1;
                    }
                    assert(pc@.take(pc@.len() as int) =~= pc@);
                },
                _ => {},
            }
            match kv.get("type") {
                Some(LexedData::StringLiteral(t)) => match kv.get("data") {
                    Some(LexedData::Object { kv: data, .. }) => {
                        let key = string_from_chars(obj_ref.as_slice(), 0, obj_ref.len());
                        assert(obj_ref@.subrange(0, obj_ref@.len() as int) =~= obj_ref@);
                        let entry = LexedData::Object { kv: clone_kv(data), id: key.clone(), type_tag: t.clone() };
                        proof {
                            lemma_insert_all_objects(objs@, key@, entry@);
                        }
                        objs.insert(key, entry);
                    },
                    _ => {},
                },
                _ => {},
            }
            match kv.get("aux") {
                Some(LexedData::Array(arr)) => {
                    proof {
                        lemma_list_view_index(arr@);
                    }
                    let ghost av = list_view(arr@);
                    let ghost o1 = objs@;
                    assert(kv_get(kv@, "aux"@) == Some(Lexed::Array(av)));
                    let mut i: usize = 0;
                    let n = arr.len();
                    assert(av.skip(0) =~= av);
                    while i < n
                        invariant
                            i <= n,
                            n == arr@.len(),
                            av == list_view(arr@),
                            av.len() == arr@.len(),
                            forall|j: int| 0 <= j < arr@.len() ==> #[trigger] av[j] == arr@[j]@,
                            kv_get(kv@, "aux"@) == Some(Lexed::Array(av)),
                            d@ matches Lexed::Object { kv: dkv, .. } && dkv == kv@,
                            all_objects(objs@),
                            process_jsony_list(o1, rel_path@, av) == process_jsony_list(
                                objs@,
                                rel_path@,
                                av.skip(i as int),
                            ),
                        decreases n - i,
                    {
                        let ghost rest = av.skip(i as int);
                        assert(rest[0] == av[i as int]);
                        assert(rest.drop_first() =~= av.skip(i + 1));
                        proof {
                            lemma_kv_get_decreases(kv@, "aux"@);
                            assert(decreases_to!(d@ => d@->Object_kv));
                            let arr_v = Lexed::Array(av);
                            assert(decreases_to!(arr_v => arr_v->Array_0));
                            assert(decreases_to!(arr_v => av[i as int]));
                        }
                        process_jsony_obj(rel_path, objs, &arr[i]);
                        i = i + 1;
                    }
                    assert(av.skip(n as int) =~= Seq::<Lexed>::empty());
                },
                _ => {},
            }
        },
        _ => {},
    }
}

} // verus!
