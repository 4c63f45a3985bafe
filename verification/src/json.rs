//! JSON documents: a plain model of what `serde_json` parses, dotted selectors, and the
//! lookup and replacement of the value a selector names.
use vstd::prelude::*;

use crate::error::{EmuxError, ErrorView};
use crate::text::push_char;

verus! {

broadcast use vstd::seq_lib::group_seq_properties;

/// A JSON value. Numbers keep the text that `serde_json` prints for them; an object keeps
/// its members in the order `serde_json` iterates them.
pub enum Json {
    Null,
    Bool(bool),
    Number(String),
    Str(String),
    Array(Vec<Json>),
    Object(Vec<(String, Json)>),
}

/// The mathematical form of a `Json` value.
pub enum JsonView {
    Null,
    Bool(bool),
    Number(Seq<char>),
    Str(Seq<char>),
    Array(Seq<JsonView>),
    Object(Seq<(Seq<char>, JsonView)>),
}

/// The views of a sequence of JSON values.
pub open spec fn views_of(s: Seq<Json>) -> Seq<JsonView>
    decreases s,
{
    if s.len() == 0 {
        seq![]
    } else {
        views_of(s.drop_last()).push(view_of(s.last()))
    }
}

/// The views of a sequence of object members.
pub open spec fn member_views_of(s: Seq<(String, Json)>) -> Seq<(Seq<char>, JsonView)>
    decreases s,
{
    if s.len() == 0 {
        seq![]
    } else {
        member_views_of(s.drop_last()).push((s.last().0@, view_of(s.last().1)))
    }
}

/// The view of a JSON value.
pub open spec fn view_of(j: Json) -> JsonView
    decreases j,
{
    match j {
        Json::Null => JsonView::Null,
        Json::Bool(b) => JsonView::Bool(b),
        Json::Number(t) => JsonView::Number(t@),
        Json::Str(s) => JsonView::Str(s@),
        Json::Array(a) => JsonView::Array(views_of(a@)),
        Json::Object(m) => JsonView::Object(member_views_of(m@)),
    }
}

impl View for Json {
    type V = JsonView;

    open spec fn view(&self) -> JsonView {
        view_of(*self)
    }
}

/// The views of a sequence of strings.
pub open spec fn string_views(s: Seq<String>) -> Seq<Seq<char>> {
    s.map_values(|x: String| x@)
}

/// Element `i` of `views_of(s)` is the view of `s[i]`.
pub proof fn lemma_views_of(s: Seq<Json>)
    ensures
        views_of(s).len() == s.len(),
        forall|i: int| 0 <= i < s.len() ==> #[trigger] views_of(s)[i] == view_of(s[i]),
    decreases s.len(),
{
    if s.len() > 0 {
        lemma_views_of(s.drop_last());
    }
}

/// Element `i` of `member_views_of(s)` is the view of `s[i]`.
pub proof fn lemma_member_views_of(s: Seq<(String, Json)>)
    ensures
        member_views_of(s).len() == s.len(),
        forall|i: int|
            0 <= i < s.len() ==> #[trigger] member_views_of(s)[i] == (s[i].0@, view_of(s[i].1)),
    decreases s.len(),
{
    if s.len() > 0 {
        lemma_member_views_of(s.drop_last());
    }
}

/// Two member sequences whose elements have equal views have equal views.
pub proof fn lemma_member_views_ext(a: Seq<(String, Json)>, b: Seq<(Seq<char>, JsonView)>)
    requires
        a.len() == b.len(),
        forall|i: int| 0 <= i < a.len() ==> (a[i].0@, view_of(a[i].1)) == #[trigger] b[i],
    ensures
        member_views_of(a) == b,
{
    lemma_member_views_of(a);
    assert(member_views_of(a) =~= b);
}

/// The index of the first member whose key is `k`, searching from `i`.
pub open spec fn member_index_from(ms: Seq<(Seq<char>, JsonView)>, k: Seq<char>, i: int) -> Option<int>
    decreases ms.len() - i,
{
    if i < 0 || i >= ms.len() {
        None
    } else if ms[i].0 == k {
        Some(i)
    } else {
        member_index_from(ms, k, i + 1)
    }
}

/// The index of the member whose key is `k`.
pub open spec fn member_index(ms: Seq<(Seq<char>, JsonView)>, k: Seq<char>) -> Option<int> {
    member_index_from(ms, k, 0)
}

/// What `member_index_from` finds is a member with that key, and none before it has it.
pub proof fn lemma_member_index_from(ms: Seq<(Seq<char>, JsonView)>, k: Seq<char>, i: int)
    requires
        0 <= i,
    ensures
        member_index_from(ms, k, i) matches Some(j) ==> i <= j < ms.len() && ms[j].0 == k && forall|m: int|
            i <= m < j ==> #[trigger] ms[m].0 != k,
        member_index_from(ms, k, i) is None ==> forall|m: int| i <= m < ms.len() ==> #[trigger] ms[m].0 != k,
    decreases ms.len() - i,
{
    if i < ms.len() && ms[i].0 != k {
        lemma_member_index_from(ms, k, i + 1);
    }
}

/// The value of key `k` in `v` (`serde_json::Value::get` with a string key): `None` unless
/// `v` is an object that has the key.
pub open spec fn json_get(v: JsonView, k: Seq<char>) -> Option<JsonView> {
    match v {
        JsonView::Object(ms) => match member_index(ms, k) {
            Some(i) => Some(ms[i].1),
            None => None,
        },
        _ => None,
    }
}

/// Following `keys` from `v`: the value reached, or the first key that is not there.
pub open spec fn json_lookup(v: JsonView, keys: Seq<Seq<char>>) -> Result<JsonView, Seq<char>>
    decreases keys.len(),
{
    if keys.len() == 0 {
        Ok(v)
    } else {
        match json_get(v, keys[0]) {
            Some(c) => json_lookup(c, keys.drop_first()),
            None => Err(keys[0]),
        }
    }
}

/// `v[k] = new` as `serde_json` performs it: `null` becomes an object with that one member,
/// an object gets the member replaced or added; any other value has no such assignment
/// (`serde_json` panics there).
pub open spec fn json_assign(v: JsonView, k: Seq<char>, new: JsonView) -> Option<JsonView> {
    match v {
        JsonView::Null => Some(JsonView::Object(seq![(k, new)])),
        JsonView::Object(ms) => match member_index(ms, k) {
            Some(i) => Some(JsonView::Object(ms.update(i, (k, new)))),
            None => Some(JsonView::Object(ms.push((k, new)))),
        },
        _ => None,
    }
}

/// How replacing the value at a path ends.
pub enum JsonEdit {
    /// The document after the replacement.
    Done(JsonView),
    /// A key on the way to the target is not there.
    MissingKey(Seq<char>),
    /// The value that should receive the last key is neither an object nor `null`.
    NotAnObject(Seq<char>),
}

/// Replaces the value at `keys` (at least one key) in `v` with `new`: every key but the last
/// must be present; the last is assigned with `json_assign`.
pub open spec fn json_replace(v: JsonView, keys: Seq<Seq<char>>, new: JsonView) -> JsonEdit
    decreases keys.len(),
{
    if keys.len() <= 1 {
        match json_assign(v, keys[0], new) {
            Some(r) => JsonEdit::Done(r),
            None => JsonEdit::NotAnObject(keys[0]),
        }
    } else {
        match json_get(v, keys[0]) {
            None => JsonEdit::MissingKey(keys[0]),
            Some(c) => match json_replace(c, keys.drop_first(), new) {
                JsonEdit::Done(c2) => JsonEdit::Done(json_assign(v, keys[0], c2).unwrap()),
                other => other,
            },
        }
    }
}

/// The index of the member of `ms` whose key is `k`.
fn member_index_exec(ms: &Vec<(String, Json)>, k: &String) -> (r: Option<usize>)
    ensures
        r matches Some(i) ==> i < ms@.len() && member_index(member_views_of(ms@), k@) == Some(
            i as int,
        ),
        r is None ==> member_index(member_views_of(ms@), k@) is None,
{
    let ghost mv = member_views_of(ms@);
    proof {
        lemma_member_views_of(ms@);
    }
    let mut i: usize = 0;
    while i < ms.len()
        invariant
            i <= ms@.len(),
            mv == member_views_of(ms@),
            mv.len() == ms@.len(),
            forall|m: int| 0 <= m < ms@.len() ==> #[trigger] mv[m] == (ms@[m].0@, view_of(ms@[m].1)),
            member_index_from(mv, k@, 0) == member_index_from(mv, k@, i as int),
        decreases ms@.len() - i,
    {
        if ms[i].0 == *k {
            return Some(i);
        }
        i = i + 1;
    }
    None
}

/// Follows `keys[i..]` from `v`: the value reached, or the index of the first key that is
/// not there.
pub fn lookup_path<'a>(v: &'a Json, keys: &Vec<String>, i: usize) -> (r: Result<&'a Json, usize>)
    requires
        i <= keys@.len(),
    ensures
        match r {
            Ok(x) => json_lookup(v@, string_views(keys@).skip(i as int)) == Ok::<JsonView, Seq<char>>(x@),
            Err(j) => i <= j < keys@.len() && json_lookup(v@, string_views(keys@).skip(i as int))
                == Err::<JsonView, Seq<char>>(keys@[j as int]@),
        },
    decreases keys@.len() - i,
{
    let ghost ks = string_views(keys@).skip(i as int);
    if i == keys.len() {
        return Ok(v);
    }
    assert(ks[0] == keys@[i as int]@);
    assert(ks.drop_first() =~= string_views(keys@).skip(i + 1));
    match v {
        Json::Object(ms) => {
            match member_index_exec(ms, &keys[i]) {
                Some(idx) => {
                    proof {
                        lemma_member_views_of(ms@);
                        assert(json_get(v@, ks[0]) == Some(view_of(ms@[idx as int].1)));
                    }
                    lookup_path(&ms[idx].1, keys, i + 1)
                },
                None => Err(i),
            }
        },
        _ => Err(i),
    }
}

/// Why a replacement in a document failed: the index of the key concerned.
pub enum EditFailure {
    MissingKey(usize),
    NotAnObject(usize),
}

/// Replaces the value at `keys[i..]` in `v` with `new` (see `json_replace`).
pub fn replace_path(v: Json, keys: &Vec<String>, i: usize, new: Json) -> (r: Result<Json, EditFailure>)
    requires
        i < keys@.len(),
    ensures
        match r {
            Ok(x) => json_replace(v@, string_views(keys@).skip(i as int), new@) == JsonEdit::Done(x@),
            Err(EditFailure::MissingKey(j)) => i <= j < keys@.len() && json_replace(
                v@,
                string_views(keys@).skip(i as int),
                new@,
            ) == JsonEdit::MissingKey(keys@[j as int]@),
            Err(EditFailure::NotAnObject(j)) => i <= j < keys@.len() && json_replace(
                v@,
                string_views(keys@).skip(i as int),
                new@,
            ) == JsonEdit::NotAnObject(keys@[j as int]@),
        },
    decreases keys@.len() - i,
{
    let ghost ks = string_views(keys@).skip(i as int);
    let ghost vv = v@;
    let ghost nv = new@;
    assert(ks[0] == keys@[i as int]@);
    assert(ks.drop_first() =~= string_views(keys@).skip(i + 1));
    let last = i == keys.len() - 1;
    match v {
        Json::Null => {
            if last {
                let mut ms: Vec<(String, Json)> = Vec::new();
                let k = copy_string(&keys[i]);
                ms.push((k, new));
                proof {
                    lemma_member_views_ext(ms@, seq![(ks[0], nv)]);
                }
                Ok(Json::Object(ms))
            } else {
                Err(EditFailure::MissingKey(i))
            }
        },
        Json::Object(mut ms) => {
            let ghost old_ms = ms@;
            let ghost mv = member_views_of(ms@);
            proof {
                lemma_member_views_of(ms@);
            }
            match member_index_exec(&ms, &keys[i]) {
                Some(idx) => {
                    proof {
                        lemma_member_index_from(mv, ks[0], 0);
                    }
                    let (k, child) = ms.remove(idx);
                    if last {
                        ms.insert(idx, (k, new));
                        proof {
                            lemma_member_views_ext(ms@, mv.update(idx as int, (ks[0], nv)));
                        }
                        Ok(Json::Object(ms))
                    } else {
                        match replace_path(child, keys, i + 1, new) {
                            Ok(c2) => {
                                let ghost c2v = c2@;
                                ms.insert(idx, (k, c2));
                                proof {
                                    lemma_member_views_ext(ms@, mv.update(idx as int, (ks[0], c2v)));
                                }
                                Ok(Json::Object(ms))
                            },
                            Err(e) => Err(e),
                        }
                    }
                },
                None => {
                    if last {
                        let k = copy_string(&keys[i]);
                        ms.push((k, new));
                        proof {
                            lemma_member_views_ext(ms@, mv.push((ks[0], nv)));
                        }
                        Ok(Json::Object(ms))
                    } else {
                        Err(EditFailure::MissingKey(i))
                    }
                },
            }
        },
        _ => {
            if last {
                Err(EditFailure::NotAnObject(i))
            } else {
                Err(EditFailure::MissingKey(i))
            }
        },
    }
}

/// A fresh string with the same characters.
pub fn copy_string(s: &String) -> (r: String)
    ensures
        r@ == s@,
{
    s.as_str().to_owned()
}

/// `s` split at every `'.'` (`str::split('.')`): one more segment than there are dots.
pub open spec fn split_on_dots(s: Seq<char>) -> Seq<Seq<char>>
    decreases s.len(),
{
    if s.len() == 0 {
        seq![seq![]]
    } else {
        let p = split_on_dots(s.drop_last());
        if s.last() == '.' {
            p.push(seq![])
        } else {
            p.update(p.len() - 1, p.last().push(s.last()))
        }
    }
}

/// The keys a selector names: its dot-separated segments that are not empty (leading dots,
/// which `trim_start_matches('.')` strips, only make empty segments).
pub open spec fn selector_keys(s: Seq<char>) -> Seq<Seq<char>> {
    split_on_dots(s).filter(|k: Seq<char>| k.len() > 0)
}

/// There is always at least one segment.
pub proof fn lemma_split_on_dots_len(s: Seq<char>)
    ensures
        split_on_dots(s).len() >= 1,
    decreases s.len(),
{
    if s.len() > 0 {
        lemma_split_on_dots_len(s.drop_last());
    }
}

/// The keys of a selector, in order.
pub fn selector_keys_exec(selector: &str) -> (keys: Vec<String>)
    ensures
        string_views(keys@) == selector_keys(selector@),
{
    let chars = crate::text::to_chars(selector);
    let ghost nonempty = |k: Seq<char>| k.len() > 0;
    let mut keys: Vec<String> = Vec::new();
    let mut cur: Vec<char> = Vec::new();
    let mut i: usize = 0;
    proof {
        assert(chars@.take(0) =~= Seq::<char>::empty());
        assert(split_on_dots(chars@.take(0)).drop_last() =~= Seq::<Seq<char>>::empty());
    }
    while i < chars.len()
        invariant
            i <= chars@.len(),
            chars@ == selector@,
            nonempty == (|k: Seq<char>| k.len() > 0),
            split_on_dots(chars@.take(i as int)).len() >= 1,
            cur@ == split_on_dots(chars@.take(i as int)).last(),
            string_views(keys@) == split_on_dots(chars@.take(i as int)).drop_last().filter(nonempty),
        decreases chars@.len() - i,
    {
        let c = chars[i];
        let ghost segs = split_on_dots(chars@.take(i as int));
        assert(chars@.take(i + 1).drop_last() =~= chars@.take(i as int));
        assert(segs.drop_last().push(segs.last()) =~= segs);
        if c == '.' {
            proof {
                segs.drop_last().lemma_filter_push(segs.last(), nonempty);
            }
            if cur.len() > 0 {
                let ghost before = string_views(keys@);
                let k = crate::text::string_from_chars(&cur, 0, cur.len());
                keys.push(k);
                assert(cur@.subrange(0, cur@.len() as int) =~= cur@);
                assert(string_views(keys@) =~= before.push(cur@));
            }
            cur = Vec::new();
            assert(split_on_dots(chars@.take(i + 1)).drop_last() =~= segs);
        } else {
            cur.push(c);
            assert(split_on_dots(chars@.take(i + 1)).drop_last() =~= segs.drop_last());
        }
        i = i + 1;
    }
    let ghost segs = split_on_dots(chars@.take(i as int));
    assert(chars@.take(i as int) =~= selector@);
    assert(segs.drop_last().push(segs.last()) =~= segs);
    proof {
        segs.drop_last().lemma_filter_push(segs.last(), nonempty);
    }
    if cur.len() > 0 {
        let ghost before = string_views(keys@);
        let k = crate::text::string_from_chars(&cur, 0, cur.len());
        keys.push(k);
        assert(cur@.subrange(0, cur@.len() as int) =~= cur@);
        assert(string_views(keys@) =~= before.push(cur@));
    }
    keys
}

/// The keys of a selector (see `selector_keys`), or `EmptySelector` when it names none.
pub fn split_selector(selector: &str) -> (r: Result<Vec<String>, EmuxError>)
    ensures
        match r {
            Ok(keys) => selector_keys(selector@).len() > 0 && string_views(keys@) == selector_keys(selector@),
            Err(e) => selector_keys(selector@).len() == 0 && e@ == ErrorView::EmptySelector,
        },
{
    let keys = selector_keys_exec(selector);
    if keys.len() == 0 {
        return Err(EmuxError::EmptySelector);
    }
    Ok(keys)
}

/// The document `serde_json::from_str` parses from `text`, or `None` where it reports an error.
pub uninterp spec fn json_parse(text: Seq<char>) -> Option<JsonView>;

/// The message (the `Display` text) of the error `serde_json::from_str` reports for `text`.
pub uninterp spec fn json_parse_message(text: Seq<char>) -> Seq<char>;

/// The text `serde_json::Value`'s `to_string` writes for a value (compact form).
pub uninterp spec fn json_compact(v: JsonView) -> Seq<char>;

/// The text `serde_json::to_string_pretty` writes for a value.
pub uninterp spec fn json_pretty(v: JsonView) -> Seq<char>;

#[verifier::external_type_specification]
#[verifier::external_body]
pub struct ExJsonValue(serde_json::Value);

#[verifier::external_type_specification]
#[verifier::external_body]
pub struct ExJsonError(serde_json::Error);

/// Converts a `serde_json::Value` into the library's model, member for member.
#[verifier::external_body]
fn from_serde(v: &serde_json::Value) -> Json {
    match v {
        serde_json::Value::Null => Json::Null,
        serde_json::Value::Bool(b) => Json::Bool(*b),
        serde_json::Value::Number(n) => Json::Number(n.to_string()),
        serde_json::Value::String(s) => Json::Str(s.clone()),
        serde_json::Value::Array(a) => Json::Array(a.iter().map(from_serde).collect()),
        serde_json::Value::Object(m) => Json::Object(
            m.iter().map(|(k, x)| (k.clone(), from_serde(x))).collect(),
        ),
    }
}

/// Converts the library's model back into a `serde_json::Value`, member for member.
#[verifier::external_body]
fn to_serde(v: &Json) -> serde_json::Value {
    match v {
        Json::Null => serde_json::Value::Null,
        Json::Bool(b) => serde_json::Value::Bool(*b),
        Json::Number(t) => t.parse().map(serde_json::Value::Number).unwrap_or(serde_json::Value::Null),
        Json::Str(s) => serde_json::Value::String(s.clone()),
        Json::Array(a) => serde_json::Value::Array(a.iter().map(to_serde).collect()),
        Json::Object(m) => serde_json::Value::Object(
            m.iter().map(|(k, x)| (k.clone(), to_serde(x))).collect(),
        ),
    }
}

/// Parses `text` with `serde_json::from_str` into a `serde_json::Value`: succeeds exactly when
/// `json_parse` gives a document, and then gives that document; otherwise gives the error's
/// message, `json_parse_message` of the text.
#[verifier::external_body]
pub(crate) fn parse_json(text: &str) -> (r: Result<Json, String>)
    ensures
        match r {
            Ok(j) => json_parse(text@) == Some(j@),
            Err(m) => json_parse(text@) is None && m@ == json_parse_message(text@),
        },
{
    serde_json::from_str::<serde_json::Value>(text).map(|v| from_serde(&v)).map_err(|e| e.to_string())
}

/// The compact text of `v`, as `serde_json::Value`'s `to_string` writes it.
#[verifier::external_body]
pub(crate) fn compact_text(v: &Json) -> (r: String)
    ensures
        r@ == json_compact(v@),
{
    to_serde(v).to_string()
}

/// The indented text of `v`, as `serde_json::to_string_pretty` writes it. Serializing a
/// `serde_json::Value` cannot fail (its keys are strings and the output is a `Vec<u8>`), so
/// the result is always `Ok`.
#[verifier::external_body]
pub(crate) fn pretty_text(v: &Json) -> (r: Result<String, serde_json::Error>)
    ensures
        r is Ok,
        r matches Ok(s) ==> s@ == json_pretty(v@),
{
    serde_json::to_string_pretty(&to_serde(v))
}

/// Replacing the member found for `k` keeps it where `member_index` finds it.
pub proof fn lemma_member_index_update(ms: Seq<(Seq<char>, JsonView)>, k: Seq<char>, x: JsonView)
    requires
        member_index(ms, k) is Some,
    ensures
        member_index(ms.update(member_index(ms, k).unwrap(), (k, x)), k) == member_index(ms, k),
{
    lemma_member_index_from(ms, k, 0);
    let i = member_index(ms, k).unwrap();
    let ms2 = ms.update(i, (k, x));
    lemma_member_index_at(ms2, k, 0, i);
}

/// The first member with key `k` from `i` on is at `j` when it has the key and none between has.
proof fn lemma_member_index_at(ms: Seq<(Seq<char>, JsonView)>, k: Seq<char>, i: int, j: int)
    requires
        0 <= i <= j < ms.len(),
        ms[j].0 == k,
        forall|m: int| i <= m < j ==> #[trigger] ms[m].0 != k,
    ensures
        member_index_from(ms, k, i) == Some(j),
    decreases j - i,
{
    if i < j {
        lemma_member_index_at(ms, k, i + 1, j);
    }
}

/// Replacing the value at a path that exists: the replacement is made, the path then leads to
/// the new value, and a later replacement at the same path is as if made on the original.
pub proof fn lemma_replace_existing(d: JsonView, keys: Seq<Seq<char>>, w: JsonView)
    requires
        keys.len() > 0,
        json_lookup(d, keys) is Ok,
    ensures
        json_replace(d, keys, w) is Done,
        json_lookup(json_replace(d, keys, w)->Done_0, keys) == Ok::<JsonView, Seq<char>>(w),
        forall|w2: JsonView| #[trigger] json_replace(json_replace(d, keys, w)->Done_0, keys, w2) == json_replace(d, keys, w2),
    decreases keys.len(),
{
    let k = keys[0];
    let ms = d->Object_0;
    lemma_member_index_from(ms, k, 0);
    let i = member_index(ms, k).unwrap();
    let child = ms[i].1;
    if keys.len() == 1 {
        assert(keys.drop_first() =~= Seq::<Seq<char>>::empty());
        lemma_member_index_update(ms, k, w);
        let d1 = JsonView::Object(ms.update(i, (k, w)));
        assert(json_replace(d, keys, w) == JsonEdit::Done(d1));
        assert(json_get(d1, k) == Some(w));
        assert(json_lookup(w, keys.drop_first()) == Ok::<JsonView, Seq<char>>(w));
        assert forall|w2: JsonView| #[trigger] json_replace(d1, keys, w2) == json_replace(d, keys, w2) by {
            assert(ms.update(i, (k, w)).update(i, (k, w2)) =~= ms.update(i, (k, w2)));
        }
    } else {
        let rest = keys.drop_first();
        lemma_replace_existing(child, rest, w);
        let c2 = json_replace(child, rest, w)->Done_0;
        lemma_member_index_update(ms, k, c2);
        let d1 = JsonView::Object(ms.update(i, (k, c2)));
        assert(json_replace(d, keys, w) == JsonEdit::Done(d1));
        assert(json_get(d1, k) == Some(c2));
        assert forall|w2: JsonView| #[trigger] json_replace(d1, keys, w2) == json_replace(d, keys, w2) by {
            assert(json_replace(c2, rest, w2) == json_replace(child, rest, w2));
            lemma_replace_existing(child, rest, w2);
            let c3 = json_replace(child, rest, w2)->Done_0;
            assert(ms.update(i, (k, c2)).update(i, (k, c3)) =~= ms.update(i, (k, c3)));
        }
    }
}

/// Replacing the value at a path by the value already there changes nothing.
pub proof fn lemma_replace_same(d: JsonView, keys: Seq<Seq<char>>, w: JsonView)
    requires
        keys.len() > 0,
        json_lookup(d, keys) == Ok::<JsonView, Seq<char>>(w),
    ensures
        json_replace(d, keys, w) == JsonEdit::Done(d),
    decreases keys.len(),
{
    let k = keys[0];
    let ms = d->Object_0;
    lemma_member_index_from(ms, k, 0);
    let i = member_index(ms, k).unwrap();
    let child = ms[i].1;
    if keys.len() == 1 {
        assert(keys.drop_first() =~= Seq::<Seq<char>>::empty());
        assert(json_lookup(child, keys.drop_first()) == Ok::<JsonView, Seq<char>>(child));
        assert(ms[i] == (k, w));
        assert(ms.update(i, (k, w)) =~= ms);
    } else {
        let rest = keys.drop_first();
        lemma_replace_same(child, rest, w);
        assert(ms.update(i, (k, child)) =~= ms);
    }
}

/// Two key paths part: at some position before either ends, they hold different keys, so
/// neither leads into the value the other names.
pub open spec fn keys_apart(k1: Seq<Seq<char>>, k2: Seq<Seq<char>>) -> bool
    decreases k1.len(),
{
    k1.len() > 0 && k2.len() > 0 && (k1[0] != k2[0] || keys_apart(k1.drop_first(), k2.drop_first()))
}

/// Where members keep their keys, each key is found at the same place.
pub proof fn lemma_member_index_keys(ms: Seq<(Seq<char>, JsonView)>, ms2: Seq<(Seq<char>, JsonView)>, k: Seq<char>, i: int)
    requires
        ms.len() == ms2.len(),
        forall|m: int| 0 <= m < ms.len() ==> #[trigger] ms[m].0 == ms2[m].0,
    ensures
        member_index_from(ms, k, i) == member_index_from(ms2, k, i),
    decreases ms.len() - i,
{
    if 0 <= i < ms.len() {
        assert(ms[i].0 == ms2[i].0);
        lemma_member_index_keys(ms, ms2, k, i + 1);
    }
}

/// Replacing the value at an existing path leaves what every path apart from it leads to.
pub proof fn lemma_replace_keeps_other(d: JsonView, k1: Seq<Seq<char>>, w: JsonView, k2: Seq<Seq<char>>)
    requires
        k1.len() > 0,
        json_lookup(d, k1) is Ok,
        keys_apart(k1, k2),
    ensures
        json_lookup(json_replace(d, k1, w)->Done_0, k2) == json_lookup(d, k2),
    decreases k1.len(),
{
    lemma_replace_existing(d, k1, w);
    let k = k1[0];
    let ms = d->Object_0;
    lemma_member_index_from(ms, k, 0);
    let i = member_index(ms, k).unwrap();
    let child = ms[i].1;
    let x = if k1.len() == 1 {
        w
    } else {
        json_replace(child, k1.drop_first(), w)->Done_0
    };
    if k1.len() > 1 {
        lemma_replace_existing(child, k1.drop_first(), w);
    }
    let ms2 = ms.update(i, (k, x));
    assert(json_replace(d, k1, w) == JsonEdit::Done(JsonView::Object(ms2)));
    lemma_member_index_keys(ms, ms2, k2[0], 0);
    if k2[0] != k {
        match member_index(ms, k2[0]) {
            Some(j) => {
                lemma_member_index_from(ms, k2[0], 0);
                assert(j != i);
                assert(ms2[j] == ms[j]);
            },
            None => {},
        }
    } else {
        assert(member_index(ms2, k2[0]) == Some(i));
        assert(keys_apart(k1.drop_first(), k2.drop_first()));
        assert(k1.drop_first().len() > 0);
        lemma_replace_keeps_other(child, k1.drop_first(), w, k2.drop_first());
    }
}

/// Replacements at two paths that part can be made in either order.
pub proof fn lemma_replace_commute(d: JsonView, k1: Seq<Seq<char>>, a: JsonView, k2: Seq<Seq<char>>, b: JsonView)
    requires
        json_lookup(d, k1) is Ok,
        json_lookup(d, k2) is Ok,
        keys_apart(k1, k2),
    ensures
        json_replace(json_replace(d, k1, a)->Done_0, k2, b) == json_replace(json_replace(d, k2, b)->Done_0, k1, a),
        json_replace(json_replace(d, k1, a)->Done_0, k2, b) is Done,
    decreases k1.len(),
{
    lemma_replace_existing(d, k1, a);
    lemma_replace_existing(d, k2, b);
    lemma_replace_keeps_other(d, k1, a, k2);
    assert(keys_apart(k2, k1)) by {
        lemma_keys_apart_symmetric(k1, k2);
    }
    lemma_replace_keeps_other(d, k2, b, k1);
    let d1 = json_replace(d, k1, a)->Done_0;
    let d2 = json_replace(d, k2, b)->Done_0;
    lemma_replace_existing(d1, k2, b);
    lemma_replace_existing(d2, k1, a);
    let ms = d->Object_0;
    lemma_member_index_from(ms, k1[0], 0);
    lemma_member_index_from(ms, k2[0], 0);
    let i1 = member_index(ms, k1[0]).unwrap();
    let i2 = member_index(ms, k2[0]).unwrap();
    let x1 = if k1.len() == 1 { a } else { json_replace(ms[i1].1, k1.drop_first(), a)->Done_0 };
    let x2 = if k2.len() == 1 { b } else { json_replace(ms[i2].1, k2.drop_first(), b)->Done_0 };
    if k1.len() > 1 {
        lemma_replace_existing(ms[i1].1, k1.drop_first(), a);
    }
    if k2.len() > 1 {
        lemma_replace_existing(ms[i2].1, k2.drop_first(), b);
    }
    let ms1 = ms.update(i1, (k1[0], x1));
    let ms2 = ms.update(i2, (k2[0], x2));
    assert(d1 == JsonView::Object(ms1));
    assert(d2 == JsonView::Object(ms2));
    lemma_member_index_keys(ms, ms1, k2[0], 0);
    lemma_member_index_keys(ms, ms2, k1[0], 0);
    if k1[0] != k2[0] {
        assert(i1 != i2);
        assert(ms1[i2] == ms[i2]);
        assert(ms2[i1] == ms[i1]);
        assert(ms1.update(i2, (k2[0], x2)) =~= ms2.update(i1, (k1[0], x1)));
    } else {
        assert(i1 == i2);
        assert(keys_apart(k1.drop_first(), k2.drop_first()));
        assert(k1.drop_first().len() > 0 && k2.drop_first().len() > 0);
        let child = ms[i1].1;
        lemma_replace_commute(child, k1.drop_first(), a, k2.drop_first(), b);
        assert(ms1[i1] == (k1[0], x1));
        assert(ms2[i1] == (k2[0], x2));
        let y = json_replace(x1, k2.drop_first(), b)->Done_0;
        assert(json_replace(x2, k1.drop_first(), a)->Done_0 == y);
        assert(ms1.update(i1, (k2[0], y)) =~= ms2.update(i1, (k1[0], y)));
    }
}

/// Parting is symmetric.
pub proof fn lemma_keys_apart_symmetric(k1: Seq<Seq<char>>, k2: Seq<Seq<char>>)
    requires
        keys_apart(k1, k2),
    ensures
        keys_apart(k2, k1),
    decreases k1.len(),
{
    if k1[0] == k2[0] {
        lemma_keys_apart_symmetric(k1.drop_first(), k2.drop_first());
    }
}

} // verus!
