//! Configuration entries and the operations over a whole configuration: `run` writes each
//! entry's override value, `restore` writes each entry's base value, `diff` shows the change.
use vstd::prelude::*;

use crate::error::{EmuxError, ErrorView};
use crate::env::env_prefix;
use crate::locator::{
    applicator_views, locate_spec, Applicator, ApplicatorView, FilterView, Locator, Writer, WriterView,
};
use crate::overrider::{apply_all, apply_each, override_value, Overrider};
use crate::text::{append_chars, push_char, replace_first, replace_first_exec, to_chars};
use crate::json::copy_string;
use crate::workspace::{FilesView, Workspace};

verus! {

broadcast use vstd::seq_lib::group_seq_properties;

/// One configuration entry: where the value lives, its original value, and how to override it.
pub struct ConfigEntry {
    pub locate: Vec<Locator>,
    pub base: Option<String>,
    /// The overrider (`override` is a reserved word).
    pub overrider: Overrider,
}

/// The mathematical form of a configuration entry.
pub struct EntryView {
    pub locate: Seq<Seq<FilterView>>,
    pub base: Option<Seq<char>>,
    pub overrider: Overrider,
}

impl View for ConfigEntry {
    type V = EntryView;

    open spec fn view(&self) -> EntryView {
        EntryView {
            locate: self.locate@.map_values(|l: Locator| l@),
            base: match self.base {
                Some(b) => Some(b@),
                None => None,
            },
            overrider: self.overrider,
        }
    }
}

/// A configuration: named entries, in the order they are processed.
pub struct Cfg {
    pub entries: Vec<(String, ConfigEntry)>,
}

/// The mathematical form of a configuration.
pub type CfgView = Seq<(Seq<char>, EntryView)>;

impl View for Cfg {
    type V = CfgView;

    open spec fn view(&self) -> CfgView {
        self.entries@.map_values(|e: (String, ConfigEntry)| (e.0@, e.1@))
    }
}

/// The index of the first entry named `name`, searching from `i`.
pub open spec fn cfg_index_from(c: CfgView, name: Seq<char>, i: int) -> Option<int>
    decreases c.len() - i,
{
    if i < 0 || i >= c.len() {
        None
    } else if c[i].0 == name {
        Some(i)
    } else {
        cfg_index_from(c, name, i + 1)
    }
}

/// The index of the entry named `name`.
pub open spec fn cfg_index(c: CfgView, name: Seq<char>) -> Option<int> {
    cfg_index_from(c, name, 0)
}

/// No two entries share a name: a configuration maps names to entries.
pub open spec fn names_distinct(c: CfgView) -> bool {
    forall|i: int, j: int| 0 <= i < j < c.len() ==> #[trigger] c[i].0 != #[trigger] c[j].0
}

/// What `cfg_index_from` finds is an entry with that name, and none before it has it.
pub proof fn lemma_cfg_index_from(c: CfgView, name: Seq<char>, i: int)
    requires
        0 <= i,
    ensures
        cfg_index_from(c, name, i) matches Some(j) ==> i <= j < c.len() && c[j].0 == name,
        cfg_index_from(c, name, i) is None ==> forall|m: int| i <= m < c.len() ==> #[trigger] c[m].0 != name,
    decreases c.len() - i,
{
    if i < c.len() && c[i].0 != name {
        lemma_cfg_index_from(c, name, i + 1);
    }
}

/// The targets of all locators, in order, found in `fs`; the first error stops the search.
pub open spec fn locate_all_spec(locs: Seq<Seq<FilterView>>, dir: Seq<char>, fs: FilesView) -> Result<
    Seq<ApplicatorView>,
    ErrorView,
>
    decreases locs.len(),
{
    if locs.len() == 0 {
        Ok(seq![])
    } else {
        match locate_spec(locs[0], dir, fs) {
            Err(e) => Err(e),
            Ok(a) => match locate_all_spec(locs.drop_first(), dir, fs) {
                Ok(b) => Ok(a + b),
                Err(e) => Err(e),
            },
        }
    }
}

/// Writing `value` at every target of an entry: the workspace reached, and the error that
/// stopped it, if one did.
pub open spec fn write_entry(locs: Seq<Seq<FilterView>>, value: Seq<char>, dir: Seq<char>, fs: FilesView) -> (
    FilesView,
    Option<ErrorView>,
) {
    match locate_all_spec(locs, dir, fs) {
        Err(e) => (fs, Some(e)),
        Ok(apps) => apply_all(apps, value, fs),
    }
}

/// `emux run`: each entry in turn writes its override value for the worktree at every target.
pub open spec fn run_spec(cfg: CfgView, dir: Seq<char>, worktree: Seq<char>, fs: FilesView) -> (
    FilesView,
    Option<ErrorView>,
)
    decreases cfg.len(),
{
    if cfg.len() == 0 {
        (fs, None)
    } else {
        let (name, e) = cfg[0];
        let step = write_entry(e.locate, override_value(e.overrider, worktree, name), dir, fs);
        match step.1 {
            Some(err) => step,
            None => run_spec(cfg.drop_first(), dir, worktree, step.0),
        }
    }
}

/// `emux restore`: each entry in turn writes its base value at every target; an entry with no
/// base value stops the restore.
pub open spec fn restore_spec(cfg: CfgView, dir: Seq<char>, fs: FilesView) -> (FilesView, Option<ErrorView>)
    decreases cfg.len(),
{
    if cfg.len() == 0 {
        (fs, None)
    } else {
        let (name, e) = cfg[0];
        match e.base {
            None => (fs, Some(ErrorView::MissingBase(name))),
            Some(base) => {
                let step = write_entry(e.locate, base, dir, fs);
                match step.1 {
                    Some(err) => step,
                    None => restore_spec(cfg.drop_first(), dir, step.0),
                }
            },
        }
    }
}

impl ConfigEntry {
    /// The targets of every locator of this entry, in order.
    pub fn locate_all(&self, dir: &str, ws: &Workspace) -> (r: Result<Vec<Applicator>, EmuxError>)
        ensures
            match r {
                Ok(v) => locate_all_spec(self@.locate, dir@, ws@) == Ok::<Seq<ApplicatorView>, ErrorView>(applicator_views(v@)),
                Err(e) => locate_all_spec(self@.locate, dir@, ws@) == Err::<Seq<ApplicatorView>, ErrorView>(e@),
            },
    {
        let ghost locs = self@.locate;
        let mut out: Vec<Applicator> = Vec::new();
        let mut i: usize = 0;
        assert(locs.skip(0) =~= locs);
        assert(applicator_views(out@) =~= Seq::<ApplicatorView>::empty());
        while i < self.locate.len()
            invariant
                i <= self.locate@.len(),
                locs == self@.locate,
                locs.len() == self.locate@.len(),
                locate_all_spec(locs, dir@, ws@) == match locate_all_spec(locs.skip(i as int), dir@, ws@) {
                    Ok(b) => Ok::<Seq<ApplicatorView>, ErrorView>(applicator_views(out@) + b),
                    Err(e) => Err(e),
                },
            decreases self.locate@.len() - i,
        {
            assert(locs.skip(i as int)[0] == self.locate@[i as int]@);
            assert(locs.skip(i as int).drop_first() =~= locs.skip(i + 1));
            match self.locate[i].locate(dir, ws) {
                Ok(found) => {
                    let ghost before = applicator_views(out@);
                    let ghost fv = applicator_views(found@);
                    let mut found = found;
                    out.append(&mut found);
                    assert(applicator_views(out@) =~= before + fv);
                    proof {
                        match locate_all_spec(locs.skip(i + 1), dir@, ws@) {
                            Ok(b) => {
                                assert(before + (fv + b) =~= (before + fv) + b);
                            },
                            Err(e) => {},
                        }
                    }
                },
                Err(e) => {
                    return Err(e);
                },
            }
            i = i + 1;
        }
        assert(locs.skip(i as int) =~= Seq::<Seq<FilterView>>::empty());
        assert(applicator_views(out@) + Seq::<ApplicatorView>::empty() =~= applicator_views(out@));
        Ok(out)
    }
}

/// Writes `value` at every target of `entry`.
fn write_entry_exec(entry: &ConfigEntry, value: &str, dir: &str, ws: &mut Workspace) -> (r: Result<(), EmuxError>)
    ensures
        ({
            let step = write_entry(entry@.locate, value@, dir@, old(ws)@);
            &&& final(ws)@ == step.0
            &&& match r {
                Ok(()) => step.1 is None,
                Err(e) => step.1 == Some(e@),
            }
        }),
{
    match entry.locate_all(dir, ws) {
        Err(e) => Err(e),
        Ok(apps) => apply_each(&apps, value, ws),
    }
}

/// `emux run`: writes each entry's override value at every place it names. `dir` resolves
/// relative paths; `worktree` is the absolute worktree path the override values derive from.
/// Writes made before an error stay in `ws`.
pub fn apply_cfg(cfg: &Cfg, dir: &str, worktree: &str, ws: &mut Workspace) -> (r: Result<(), EmuxError>)
    ensures
        ({
            let run = run_spec(cfg@, dir@, worktree@, old(ws)@);
            &&& final(ws)@ == run.0
            &&& match r {
                Ok(()) => run.1 is None,
                Err(e) => run.1 == Some(e@),
            }
        }),
{
    let ghost c = cfg@;
    let mut i: usize = 0;
    assert(c.skip(0) =~= c);
    while i < cfg.entries.len()
        invariant
            i <= cfg.entries@.len(),
            c == cfg@,
            c.len() == cfg.entries@.len(),
            run_spec(c, dir@, worktree@, old(ws)@) == run_spec(c.skip(i as int), dir@, worktree@, ws@),
        decreases cfg.entries@.len() - i,
    {
        let (name, entry) = (&cfg.entries[i].0, &cfg.entries[i].1);
        assert(c.skip(i as int)[0] == (name@, entry@));
        assert(c.skip(i as int).drop_first() =~= c.skip(i + 1));
        let value = match entry.overrider.value(worktree, name.as_str()) {
            Ok(v) => v,
            Err(e) => {
                return Err(e);
            },
        };
        match write_entry_exec(entry, value.as_str(), dir, ws) {
            Ok(()) => {},
            Err(e) => {
                return Err(e);
            },
        }
        i = i + 1;
    }
    assert(c.skip(i as int) =~= Seq::<(Seq<char>, EntryView)>::empty());
    Ok(())
}

/// `emux restore`: writes each entry's base value at every place it names; an entry without a
/// base value is an error. Writes made before an error stay in `ws`.
pub fn restore_cfg(cfg: &Cfg, dir: &str, ws: &mut Workspace) -> (r: Result<(), EmuxError>)
    ensures
        ({
            let run = restore_spec(cfg@, dir@, old(ws)@);
            &&& final(ws)@ == run.0
            &&& match r {
                Ok(()) => run.1 is None,
                Err(e) => run.1 == Some(e@),
            }
        }),
{
    let ghost c = cfg@;
    let mut i: usize = 0;
    assert(c.skip(0) =~= c);
    while i < cfg.entries.len()
        invariant
            i <= cfg.entries@.len(),
            c == cfg@,
            c.len() == cfg.entries@.len(),
            restore_spec(c, dir@, old(ws)@) == restore_spec(c.skip(i as int), dir@, ws@),
        decreases cfg.entries@.len() - i,
    {
        let (name, entry) = (&cfg.entries[i].0, &cfg.entries[i].1);
        assert(c.skip(i as int)[0] == (name@, entry@));
        assert(c.skip(i as int).drop_first() =~= c.skip(i + 1));
        match &entry.base {
            None => {
                return Err(EmuxError::MissingBase { entry: copy_string(name) });
            },
            Some(base) => {
                match write_entry_exec(entry, base.as_str(), dir, ws) {
                    Ok(()) => {},
                    Err(e) => {
                        return Err(e);
                    },
                }
            },
        }
        i = i + 1;
    }
    assert(c.skip(i as int) =~= Seq::<(Seq<char>, EntryView)>::empty());
    Ok(())
}

/// One line of `emux diff`: a target of an entry, what it holds, and what `run` would write.
pub struct DiffEntry {
    pub entry_name: String,
    pub path: String,
    pub line_number: Option<u64>,
    pub old_value: String,
    pub new_value: String,
    pub old_line: String,
    pub new_line: String,
}

/// The mathematical form of a diff line.
pub struct DiffView {
    pub entry_name: Seq<char>,
    pub path: Seq<char>,
    pub line_number: Option<int>,
    pub old_value: Seq<char>,
    pub new_value: Seq<char>,
    pub old_line: Seq<char>,
    pub new_line: Seq<char>,
}

impl View for DiffEntry {
    type V = DiffView;

    open spec fn view(&self) -> DiffView {
        DiffView {
            entry_name: self.entry_name@,
            path: self.path@,
            line_number: match self.line_number {
                Some(n) => Some(n as int),
                None => None,
            },
            old_value: self.old_value@,
            new_value: self.new_value@,
            old_line: self.old_line@,
            new_line: self.new_line@,
        }
    }
}

/// The views of a sequence of diff lines.
pub open spec fn diff_views(s: Seq<DiffEntry>) -> Seq<DiffView> {
    s.map_values(|d: DiffEntry| d@)
}

/// The line a target shows once `value` is written there: `x=value` for a dotenv assignment
/// of `x`; for a JSON target, its shown line with the old value replaced.
pub open spec fn new_line_of(a: ApplicatorView, value: Seq<char>) -> Seq<char> {
    match a.writer {
        WriterView::InFileLine(_, x) => env_prefix(x) + value,
        WriterView::JsonSelector(_) => replace_first(a.old_line, a.old_value, value),
    }
}

/// The diff line for one target of entry `name`, which `run` would set to `value`.
pub open spec fn diff_line(name: Seq<char>, a: ApplicatorView, value: Seq<char>) -> DiffView {
    DiffView {
        entry_name: name,
        path: a.path,
        line_number: a.line_number,
        old_value: a.old_value,
        new_value: value,
        old_line: a.old_line,
        new_line: new_line_of(a, value),
    }
}

/// `emux diff`: for each entry, every target with its current and its override value; the
/// workspace is only read.
pub open spec fn diff_spec(cfg: CfgView, dir: Seq<char>, worktree: Seq<char>, fs: FilesView) -> Result<
    Seq<DiffView>,
    ErrorView,
>
    decreases cfg.len(),
{
    if cfg.len() == 0 {
        Ok(seq![])
    } else {
        let (name, e) = cfg[0];
        match locate_all_spec(e.locate, dir, fs) {
            Err(err) => Err(err),
            Ok(apps) => {
                let value = override_value(e.overrider, worktree, name);
                match diff_spec(cfg.drop_first(), dir, worktree, fs) {
                    Err(err) => Err(err),
                    Ok(rest) => Ok(apps.map_values(|a: ApplicatorView| diff_line(name, a, value)) + rest),
                }
            },
        }
    }
}

/// `emux diff`: what `run` would change, target by target.
pub fn diff_cfg(cfg: &Cfg, dir: &str, worktree: &str, ws: &Workspace) -> (r: Result<Vec<DiffEntry>, EmuxError>)
    ensures
        match r {
            Ok(v) => diff_spec(cfg@, dir@, worktree@, ws@) == Ok::<Seq<DiffView>, ErrorView>(diff_views(v@)),
            Err(e) => diff_spec(cfg@, dir@, worktree@, ws@) == Err::<Seq<DiffView>, ErrorView>(e@),
        },
{
    let ghost c = cfg@;
    let mut out: Vec<DiffEntry> = Vec::new();
    let mut i: usize = 0;
    assert(c.skip(0) =~= c);
    assert(diff_views(out@) =~= Seq::<DiffView>::empty());
    while i < cfg.entries.len()
        invariant
            i <= cfg.entries@.len(),
            c == cfg@,
            c.len() == cfg.entries@.len(),
            diff_spec(c, dir@, worktree@, ws@) == match diff_spec(c.skip(i as int), dir@, worktree@, ws@) {
                Ok(b) => Ok::<Seq<DiffView>, ErrorView>(diff_views(out@) + b),
                Err(e) => Err(e),
            },
        decreases cfg.entries@.len() - i,
    {
        let (name, entry) = (&cfg.entries[i].0, &cfg.entries[i].1);
        assert(c.skip(i as int)[0] == (name@, entry@));
        assert(c.skip(i as int).drop_first() =~= c.skip(i + 1));
        let apps = match entry.locate_all(dir, ws) {
            Ok(a) => a,
            Err(e) => {
                return Err(e);
            },
        };
        let new_value = match entry.overrider.value(worktree, name.as_str()) {
            Ok(v) => v,
            Err(e) => {
                return Err(e);
            },
        };
        let ghost before = diff_views(out@);
        let ghost value = new_value@;
        let ghost mapped = applicator_views(apps@).map_values(|a: ApplicatorView| diff_line(name@, a, value));
        let nv = to_chars(new_value.as_str());
        let mut j: usize = 0;
        while j < apps.len()
            invariant
                j <= apps@.len(),
                nv@ == value,
                new_value@ == value,
                mapped == applicator_views(apps@).map_values(|a: ApplicatorView| diff_line(name@, a, value)),
                diff_views(out@) == before + mapped.take(j as int),
            decreases apps@.len() - j,
        {
            let a = &apps[j];
            let new_line = match &a.writer {
                Writer::InFileLine { variable, .. } => {
                    let mut line = copy_string(variable);
                    push_char(&mut line, '=');
                    append_chars(&mut line, &nv, 0, nv.len());
                    assert(nv@.subrange(0, nv@.len() as int) =~= nv@);
                    line
                },
                Writer::JsonSelector { .. } => {
                    let ol = to_chars(a.old_line.as_str());
                    let ov = to_chars(a.old_value.as_str());
                    replace_first_exec(&ol, &ov, &nv)
                },
            };
            let d = DiffEntry {
                entry_name: copy_string(name),
                path: copy_string(&a.path),
                line_number: a.line_number,
                old_value: copy_string(&a.old_value),
                new_value: copy_string(&new_value),
                old_line: copy_string(&a.old_line),
                new_line,
            };
            let ghost prev = diff_views(out@);
            out.push(d);
            assert(diff_views(out@) =~= prev.push(d@));
            assert(mapped[j as int] == diff_line(name@, a@, value));
            assert(d@ == diff_line(name@, a@, value));
            assert(mapped.take(j + 1) =~= mapped.take(j as int).push(mapped[j as int]));
            j = j + 1;
        }
        assert(mapped.take(apps@.len() as int) =~= mapped);
        proof {
            match diff_spec(c.skip(i + 1), dir@, worktree@, ws@) {
                Ok(b) => {
                    assert(before + (mapped + b) =~= (before + mapped) + b);
                },
                Err(e) => {},
            }
        }
        i = i + 1;
    }
    assert(c.skip(i as int) =~= Seq::<(Seq<char>, EntryView)>::empty());
    assert(diff_views(out@) + Seq::<DiffView>::empty() =~= diff_views(out@));
    Ok(out)
}

impl Cfg {
    /// An empty configuration.
    pub fn new() -> (c: Self)
        ensures
            c@ == Seq::<(Seq<char>, EntryView)>::empty(),
            names_distinct(c@),
    {
        let c = Cfg { entries: Vec::new() };
        assert(c@ =~= Seq::<(Seq<char>, EntryView)>::empty());
        c
    }

    /// The number of entries.
    pub fn len(&self) -> (n: usize)
        ensures
            n == self@.len(),
    {
        self.entries.len()
    }

    fn index_of(&self, name: &str) -> (r: Option<usize>)
        ensures
            r matches Some(i) ==> i < self@.len() && cfg_index(self@, name@) == Some(i as int),
            r is None ==> cfg_index(self@, name@) is None,
    {
        let mut i: usize = 0;
        while i < self.entries.len()
            invariant
                i <= self.entries@.len(),
                cfg_index_from(self@, name@, 0) == cfg_index_from(self@, name@, i as int),
            decreases self.entries@.len() - i,
        {
            if crate::text::str_eq(self.entries[i].0.as_str(), name) {
                return Some(i);
            }
            i = i + 1;
        }
        None
    }

    /// Whether an entry is named `name`.
    pub fn contains_key(&self, name: &str) -> (b: bool)
        ensures
            b == cfg_index(self@, name@) is Some,
    {
        self.index_of(name).is_some()
    }

    /// The entry named `name`.
    pub fn get(&self, name: &str) -> (r: Option<&ConfigEntry>)
        ensures
            match cfg_index(self@, name@) {
                Some(i) => r matches Some(e) && e@ == self@[i].1,
                None => r is None,
            },
    {
        match self.index_of(name) {
            Some(i) => Some(&self.entries[i].1),
            None => None,
        }
    }

    /// Sets the entry named `name`: replaces it where it exists, else adds it at the end.
    pub fn insert(&mut self, name: String, entry: ConfigEntry)
        ensures
            final(self)@ == match cfg_index(old(self)@, name@) {
                Some(i) => old(self)@.update(i, (name@, entry@)),
                None => old(self)@.push((name@, entry@)),
            },
            names_distinct(old(self)@) ==> names_distinct(final(self)@),
    {
        proof {
            lemma_cfg_index_from(self@, name@, 0);
        }
        let ghost before = self@;
        let ghost nv = name@;
        let ghost ev = entry@;
        match self.index_of(name.as_str()) {
            Some(i) => {
                let _ = self.entries.remove(i);
                self.entries.insert(i, (name, entry));
                assert(self@ =~= before.update(i as int, (nv, ev)));
            },
            None => {
                self.entries.push((name, entry));
                assert(self@ =~= before.push((nv, ev)));
            },
        }
    }
}

} // verus!
