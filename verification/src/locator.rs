//! Locators find where a value lives (a dotenv variable or a JSON selector) and produce
//! applicators, which rewrite that place with a new value.
use vstd::prelude::*;

use crate::env::{env_assignments, env_prefix, find_env_assignments, replace_in_content, replace_line};
use crate::error::{EmuxError, ErrorView};
use crate::paths::{normal_path, normal_path_exec};
use crate::json::{
    compact_text, copy_string, json_compact, json_lookup, json_parse, json_pretty, json_replace,
    json_parse_message, lookup_path, parse_json, pretty_text, replace_path, selector_keys,
    split_selector, string_views, EditFailure, Json, JsonEdit, JsonView,
};
use crate::text::{push_char, str_eq, to_chars, append_chars};
use crate::workspace::{ws_read, ws_write, FilesView, Workspace};

verus! {

broadcast use vstd::seq_lib::group_seq_properties;

/// A single step in a locator pipeline.
pub enum Filter {
    /// `envFile("path", "VAR")`: the variable `VAR` in a dotenv-style file.
    EnvFile { path: String, variable: String },
    /// `jsonFile("path", ".key")` or `jsonFile("path", ".parent.child")`: a value in a JSON file.
    JsonFile { path: String, selector: String },
}

/// The mathematical form of a filter.
pub enum FilterView {
    EnvFile { path: Seq<char>, variable: Seq<char> },
    JsonFile { path: Seq<char>, selector: Seq<char> },
}

impl View for Filter {
    type V = FilterView;

    open spec fn view(&self) -> FilterView {
        match self {
            Filter::EnvFile { path, variable } => FilterView::EnvFile {
                path: path@,
                variable: variable@,
            },
            Filter::JsonFile { path, selector } => FilterView::JsonFile {
                path: path@,
                selector: selector@,
            },
        }
    }
}

/// A pipeline of filters that narrows scope from the whole repo to specific locations.
pub struct Locator {
    pub filters: Vec<Filter>,
}

impl View for Locator {
    type V = Seq<FilterView>;

    open spec fn view(&self) -> Seq<FilterView> {
        self.filters@.map_values(|f: Filter| f@)
    }
}

/// How an applicator writes its value.
pub enum Writer {
    /// Replace the old value in one line of a text file.
    InFileLine { line_number: u64, variable: String },
    /// Replace the value a selector names in a JSON file.
    JsonSelector { selector: String },
}

/// The mathematical form of a writer.
pub enum WriterView {
    InFileLine(int, Seq<char>),
    JsonSelector(Seq<char>),
}

impl View for Writer {
    type V = WriterView;

    open spec fn view(&self) -> WriterView {
        match self {
            Writer::InFileLine { line_number, variable } => WriterView::InFileLine(*line_number as int, variable@),
            Writer::JsonSelector { selector } => WriterView::JsonSelector(selector@),
        }
    }
}

/// A located target: where it is, what it holds now, and how to write a new value.
pub struct Applicator {
    pub path: String,
    pub line_number: Option<u64>,
    pub old_value: String,
    pub old_line: String,
    pub writer: Writer,
}

/// The mathematical form of an applicator.
pub struct ApplicatorView {
    pub path: Seq<char>,
    pub line_number: Option<int>,
    pub old_value: Seq<char>,
    pub old_line: Seq<char>,
    pub writer: WriterView,
}

impl View for Applicator {
    type V = ApplicatorView;

    open spec fn view(&self) -> ApplicatorView {
        ApplicatorView {
            path: self.path@,
            line_number: match self.line_number {
                Some(n) => Some(n as int),
                None => None,
            },
            old_value: self.old_value@,
            old_line: self.old_line@,
            writer: self.writer@,
        }
    }
}

/// The views of a sequence of applicators.
pub open spec fn applicator_views(s: Seq<Applicator>) -> Seq<ApplicatorView> {
    s.map_values(|a: Applicator| a@)
}

/// `path` taken relative to `dir` (`Path::join` on Unix): an absolute path stands as it is,
/// a relative one is appended to `dir` with one separator between them.
pub open spec fn joined_path(dir: Seq<char>, path: Seq<char>) -> Seq<char> {
    if path.len() > 0 && path[0] == '/' {
        path
    } else if dir.len() == 0 {
        path
    } else if dir.last() == '/' {
        dir + path
    } else {
        dir + seq!['/'] + path
    }
}

/// The file `path` names relative to `dir`: the two joined, in plain spelling, so that
/// spellings of one file that differ in `.` components or doubled separators name it alike.
pub open spec fn resolve_path(dir: Seq<char>, path: Seq<char>) -> Seq<char> {
    normal_path(joined_path(dir, path))
}

/// The applicators for the assignments of `variable` in the dotenv file `abs` holding `content`.
pub open spec fn env_applicators(abs: Seq<char>, content: Seq<char>, variable: Seq<char>) -> Seq<
    ApplicatorView,
> {
    env_assignments(content, variable).map_values(
        |a: (int, Seq<char>)|
            ApplicatorView {
                path: abs,
                line_number: Some(a.0),
                old_value: a.1.skip(variable.len() as int + 1),
                old_line: a.1,
                writer: WriterView::InFileLine(a.0, variable),
            },
    )
}

/// The line shown for a JSON target: `selector: value`.
pub open spec fn json_old_line(selector: Seq<char>, value: Seq<char>) -> Seq<char> {
    selector + seq![':', ' '] + value
}

/// The applicator for `selector` in the JSON file `abs` holding `content`.
pub open spec fn json_applicators(abs: Seq<char>, content: Seq<char>, selector: Seq<char>) -> Result<
    Seq<ApplicatorView>,
    ErrorView,
> {
    match json_parse(content) {
        None => Err(ErrorView::InvalidJson(abs, json_parse_message(content))),
        Some(doc) => {
            let keys = selector_keys(selector);
            if keys.len() == 0 {
                Err(ErrorView::EmptySelector)
            } else {
                match json_lookup(doc, keys) {
                    Err(k) => Err(ErrorView::KeyNotInSelector(k, selector)),
                    Ok(v) => Ok(
                        seq![
                            ApplicatorView {
                                path: abs,
                                line_number: None,
                                old_value: json_compact(v),
                                old_line: json_old_line(selector, json_compact(v)),
                                writer: WriterView::JsonSelector(selector),
                            },
                        ],
                    ),
                }
            }
        },
    }
}

/// What `Locator::locate` gives: the targets its first filter names, found in the workspace
/// (no filter, no targets).
pub open spec fn locate_spec(filters: Seq<FilterView>, dir: Seq<char>, fs: FilesView) -> Result<
    Seq<ApplicatorView>,
    ErrorView,
> {
    if filters.len() == 0 {
        Ok(seq![])
    } else {
        match filters[0] {
            FilterView::EnvFile { path, variable } => {
                let abs = resolve_path(dir, path);
                match ws_read(fs, abs) {
                    None => Err(ErrorView::Unreadable(abs)),
                    Some(content) => Ok(env_applicators(abs, content, variable)),
                }
            },
            FilterView::JsonFile { path, selector } => {
                let abs = resolve_path(dir, path);
                match ws_read(fs, abs) {
                    None => Err(ErrorView::Unreadable(abs)),
                    Some(content) => json_applicators(abs, content, selector),
                }
            },
        }
    }
}

/// The value a JSON writer stores for `new`: a JSON number where `new` is a JSON number
/// literal (`"4327"` gives `4327`), else the string `new` itself (`"true"` gives `"true"`).
pub open spec fn json_new_value(new: Seq<char>) -> JsonView {
    match json_parse(new) {
        Some(JsonView::Number(t)) => JsonView::Number(t),
        _ => JsonView::Str(new),
    }
}

/// The new content of the JSON file `path` (holding `content`) after the value at `selector`
/// is replaced by `new`: the document written indented, with a final newline.
pub open spec fn json_write(path: Seq<char>, content: Seq<char>, selector: Seq<char>, new: Seq<char>) -> Result<
    Seq<char>,
    ErrorView,
> {
    match json_parse(content) {
        None => Err(ErrorView::InvalidJson(path, json_parse_message(content))),
        Some(doc) => {
            let keys = selector_keys(selector);
            if keys.len() == 0 {
                Err(ErrorView::EmptySelector)
            } else {
                match json_replace(doc, keys, json_new_value(new)) {
                    JsonEdit::Done(d) => Ok(json_pretty(d).push('\n')),
                    JsonEdit::MissingKey(k) => Err(ErrorView::KeyNotFound(k)),
                    JsonEdit::NotAnObject(k) => Err(ErrorView::NotAnObject(k)),
                }
            }
        },
    }
}

/// The new content of file `path` (holding `content`) after a writer replaces `old` by `new`.
pub open spec fn write_spec(w: WriterView, path: Seq<char>, content: Seq<char>, old: Seq<char>, new: Seq<char>) -> Result<
    Seq<char>,
    ErrorView,
> {
    match w {
        WriterView::InFileLine(n, x) => Ok(replace_line(content, n, env_prefix(x), new)),
        WriterView::JsonSelector(selector) => json_write(path, content, selector, new),
    }
}

/// The workspace after an applicator writes `value`.
pub open spec fn apply_spec(a: ApplicatorView, value: Seq<char>, fs: FilesView) -> Result<FilesView, ErrorView> {
    match ws_read(fs, a.path) {
        None => Err(ErrorView::Unreadable(a.path)),
        Some(content) => match write_spec(a.writer, a.path, content, a.old_value, value) {
            Ok(c) => Ok(ws_write(fs, a.path, c)),
            Err(e) => Err(e),
        },
    }
}

/// `path` joined to `dir` (see `joined_path`).
fn joined_path_exec(dir: &str, path: &str) -> (r: String)
    ensures
        r@ == joined_path(dir@, path@),
{
    let p = to_chars(path);
    if p.len() > 0 && p[0] == '/' {
        return path.to_owned();
    }
    let d = to_chars(dir);
    if d.len() == 0 {
        return path.to_owned();
    }
    let mut r = dir.to_owned();
    if d[d.len() - 1] != '/' {
        push_char(&mut r, '/');
    }
    append_chars(&mut r, &p, 0, p.len());
    assert(p@.subrange(0, p@.len() as int) =~= p@);
    r
}

/// `path` resolved against `dir`.
pub fn resolve_path_exec(dir: &str, path: &str) -> (r: String)
    ensures
        r@ == resolve_path(dir@, path@),
{
    let joined = joined_path_exec(dir, path);
    normal_path_exec(joined.as_str())
}

impl Applicator {
    /// An applicator from its parts.
    pub fn new(
        path: String,
        line_number: Option<u64>,
        old_value: String,
        old_line: String,
        writer: Writer,
    ) -> (r: Self)
        ensures
            r.path == path,
            r.line_number == line_number,
            r.old_value == old_value,
            r.old_line == old_line,
            r.writer == writer,
    {
        Applicator { path, line_number, old_value, old_line, writer }
    }
}

/// The applicators for the assignments of `variable` in `content`, the dotenv file `abs`.
fn search_env_file(abs: &str, content: &str, variable: &str) -> (r: Vec<Applicator>)
    ensures
        applicator_views(r@) == env_applicators(abs@, content@, variable@),
{
    let found = find_env_assignments(content, variable);
    let ghost target = env_applicators(abs@, content@, variable@);
    let mut out: Vec<Applicator> = Vec::new();
    let mut i: usize = 0;
    while i < found.len()
        invariant
            i <= found@.len(),
            found@.len() == env_assignments(content@, variable@).len(),
            forall|j: int|
                0 <= j < found@.len() ==> {
                    let a = #[trigger] env_assignments(content@, variable@)[j];
                    &&& found@[j].line_number == a.0
                    &&& found@[j].old_line@ == a.1
                    &&& found@[j].old_value@ == a.1.skip(variable@.len() as int + 1)
                },
            target == env_applicators(abs@, content@, variable@),
            applicator_views(out@) == target.take(i as int),
        decreases found@.len() - i,
    {
        let e = &found[i];
        let a = Applicator::new(
            abs.to_owned(),
            Some(e.line_number),
            copy_string(&e.old_value),
            copy_string(&e.old_line),
            Writer::InFileLine { line_number: e.line_number, variable: variable.to_owned() },
        );
        let ghost before = applicator_views(out@);
        out.push(a);
        assert(applicator_views(out@) =~= before.push(a@));
        assert(target.take(i + 1) =~= target.take(i as int).push(target[i as int]));
        i = i + 1;
    }
    assert(target.take(found@.len() as int) =~= target);
    out
}

/// The applicator for `selector` in `content`, the JSON file `abs`.
fn search_json_file(abs: &str, content: &str, selector: &str) -> (r: Result<Vec<Applicator>, EmuxError>)
    ensures
        match r {
            Ok(v) => json_applicators(abs@, content@, selector@) == Ok::<Seq<ApplicatorView>, ErrorView>(applicator_views(v@)),
            Err(e) => json_applicators(abs@, content@, selector@) == Err::<Seq<ApplicatorView>, ErrorView>(e@),
        },
{
    let doc = match parse_json(content) {
        Ok(d) => d,
        Err(e) => {
            return Err(EmuxError::InvalidJson { path: abs.to_owned(), message: e });
        },
    };
    let keys = match split_selector(selector) {
        Ok(keys) => keys,
        Err(e) => {
            return Err(e);
        },
    };
    assert(string_views(keys@).skip(0) =~= string_views(keys@));
    match lookup_path(&doc, &keys, 0) {
        Err(j) => Err(EmuxError::KeyNotInSelector { key: copy_string(&keys[j]), selector: selector.to_owned() }),
        Ok(v) => {
            let old_value = compact_text(v);
            let mut old_line = selector.to_owned();
            push_char(&mut old_line, ':');
            push_char(&mut old_line, ' ');
            let ov = to_chars(old_value.as_str());
            append_chars(&mut old_line, &ov, 0, ov.len());
            assert(ov@.subrange(0, ov@.len() as int) =~= ov@);
            assert(old_line@ =~= json_old_line(selector@, old_value@));
            let a = Applicator::new(
                abs.to_owned(),
                None,
                old_value,
                old_line,
                Writer::JsonSelector { selector: selector.to_owned() },
            );
            let mut out: Vec<Applicator> = Vec::new();
            out.push(a);
            assert(applicator_views(out@) =~= seq![a@]);
            Ok(out)
        },
    }
}

impl Locator {
    /// The targets the first filter names, looked up in `ws`; a relative path is taken
    /// relative to `dir`.
    pub fn locate(&self, dir: &str, ws: &Workspace) -> (r: Result<Vec<Applicator>, EmuxError>)
        ensures
            match r {
                Ok(v) => locate_spec(self@, dir@, ws@) == Ok::<Seq<ApplicatorView>, ErrorView>(applicator_views(v@)),
                Err(e) => locate_spec(self@, dir@, ws@) == Err::<Seq<ApplicatorView>, ErrorView>(e@),
            },
    {
        if self.filters.len() == 0 {
            let out: Vec<Applicator> = Vec::new();
            assert(applicator_views(out@) =~= Seq::<ApplicatorView>::empty());
            return Ok(out);
        }
        assert(self@[0] == self.filters@[0]@);
        match &self.filters[0] {
            Filter::EnvFile { path, variable } => {
                let abs = resolve_path_exec(dir, path.as_str());
                match ws.read(abs.as_str()) {
                    None => Err(EmuxError::Unreadable { path: abs }),
                    Some(content) => Ok(search_env_file(abs.as_str(), content.as_str(), variable.as_str())),
                }
            },
            Filter::JsonFile { path, selector } => {
                let abs = resolve_path_exec(dir, path.as_str());
                match ws.read(abs.as_str()) {
                    None => Err(EmuxError::Unreadable { path: abs }),
                    Some(content) => search_json_file(abs.as_str(), content.as_str(), selector.as_str()),
                }
            },
        }
    }
}

/// The new content of the JSON file `path` (holding `content`) with the value at `selector`
/// replaced by `new_val`.
fn write_json(path: &str, content: &str, selector: &str, new_val: &str) -> (r: Result<String, EmuxError>)
    ensures
        match r {
            Ok(c) => json_write(path@, content@, selector@, new_val@) == Ok::<Seq<char>, ErrorView>(c@),
            Err(e) => json_write(path@, content@, selector@, new_val@) == Err::<Seq<char>, ErrorView>(e@),
        },
{
    let json_new = match parse_json(new_val) {
        Ok(Json::Number(t)) => Json::Number(t),
        _ => Json::Str(new_val.to_owned()),
    };
    let doc = match parse_json(content) {
        Ok(d) => d,
        Err(e) => {
            return Err(EmuxError::InvalidJson { path: path.to_owned(), message: e });
        },
    };
    let keys = match split_selector(selector) {
        Ok(keys) => keys,
        Err(e) => {
            return Err(e);
        },
    };
    assert(string_views(keys@).skip(0) =~= string_views(keys@));
    match replace_path(doc, &keys, 0, json_new) {
        Ok(d) => match pretty_text(&d) {
            Ok(mut text) => {
                push_char(&mut text, '\n');
                Ok(text)
            },
            Err(_) => {
                proof {
                    assert(false);
                }
                Err(EmuxError::EmptySelector)
            },
        },
        Err(EditFailure::MissingKey(j)) => Err(EmuxError::KeyNotFound { key: copy_string(&keys[j]) }),
        Err(EditFailure::NotAnObject(j)) => Err(EmuxError::NotAnObject { key: copy_string(&keys[j]) }),
    }
}

impl Writer {
    /// The new content of file `path`, holding `content`, with `old_value` replaced by `new_val`.
    pub fn apply(&self, path: &str, content: &str, old_value: &str, new_val: &str) -> (r: Result<String, EmuxError>)
        ensures
            match r {
                Ok(c) => write_spec(self@, path@, content@, old_value@, new_val@) == Ok::<Seq<char>, ErrorView>(c@),
                Err(e) => write_spec(self@, path@, content@, old_value@, new_val@) == Err::<Seq<char>, ErrorView>(e@),
            },
    {
        match self {
            Writer::InFileLine { line_number, variable } => Ok(replace_in_content(content, *line_number, variable.as_str(), new_val)),
            Writer::JsonSelector { selector } => write_json(path, content, selector.as_str(), new_val),
        }
    }
}

impl Applicator {
    /// Writes `value` at this target in `ws`.
    pub fn apply(&self, value: &str, ws: &mut Workspace) -> (r: Result<(), EmuxError>)
        ensures
            match r {
                Ok(()) => apply_spec(self@, value@, old(ws)@) == Ok::<FilesView, ErrorView>(final(ws)@),
                Err(e) => apply_spec(self@, value@, old(ws)@) == Err::<FilesView, ErrorView>(e@)
                    && final(ws)@ == old(ws)@,
            },
    {
        let new_content = match ws.read(self.path.as_str()) {
            None => {
                return Err(EmuxError::Unreadable { path: copy_string(&self.path) });
            },
            Some(content) => self.writer.apply(self.path.as_str(), content.as_str(), self.old_value.as_str(), value),
        };
        match new_content {
            Ok(c) => {
                ws.write(self.path.as_str(), c);
                Ok(())
            },
            Err(e) => Err(e),
        }
    }
}

} // verus!
