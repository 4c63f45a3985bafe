//! Paths: the directory a configuration file sits in, the files a configuration reads, and
//! the plain spelling under which a workspace holds a file.
use vstd::prelude::*;

use crate::config::{Cfg, CfgView};
use crate::locator::{resolve_path, resolve_path_exec, Filter, FilterView};
use crate::text::{append_chars, push_char};

verus! {

/// What `std::path::Path::parent` gives for the path `p`, as text.
pub uninterp spec fn path_parent(p: Seq<char>) -> Option<Seq<char>>;

/// `Path::new(p).parent()`, as text (the input is UTF-8, so its parent is too).
#[verifier::external_body]
fn parent_of(p: &str) -> (r: Option<String>)
    ensures
        match r {
            Some(s) => path_parent(p@) == Some(s@),
            None => path_parent(p@) is None,
        },
{
    std::path::Path::new(p).parent().map(|q| q.to_string_lossy().into_owned())
}

/// The directory a configuration file sits in: its parent, or `.` where it has none.
pub fn parent_dir(file: &str) -> (r: String)
    ensures
        r@ == match path_parent(file@) {
            Some(p) => p,
            None => "."@,
        },
{
    match parent_of(file) {
        Some(p) => p,
        None => ".".to_owned(),
    }
}

/// The file a locator reads: its first filter's path, resolved against `dir`.
pub open spec fn locator_file(filters: Seq<FilterView>, dir: Seq<char>) -> Option<Seq<char>> {
    if filters.len() == 0 {
        None
    } else {
        match filters[0] {
            FilterView::EnvFile { path, .. } => Some(resolve_path(dir, path)),
            FilterView::JsonFile { path, .. } => Some(resolve_path(dir, path)),
        }
    }
}

/// The files a configuration reads, entry by entry and locator by locator.
pub open spec fn cfg_files(cfg: CfgView, dir: Seq<char>) -> Seq<Seq<char>>
    decreases cfg.len(),
{
    if cfg.len() == 0 {
        seq![]
    } else {
        locators_files(cfg[0].1.locate, dir) + cfg_files(cfg.drop_first(), dir)
    }
}

/// The files a list of locators reads.
pub open spec fn locators_files(locs: Seq<Seq<FilterView>>, dir: Seq<char>) -> Seq<Seq<char>>
    decreases locs.len(),
{
    if locs.len() == 0 {
        seq![]
    } else {
        match locator_file(locs[0], dir) {
            Some(f) => seq![f] + locators_files(locs.drop_first(), dir),
            None => locators_files(locs.drop_first(), dir),
        }
    }
}

/// The files `run`, `restore` and `diff` read for `cfg`, in the order they read them.
pub fn target_files(cfg: &Cfg, dir: &str) -> (r: Vec<String>)
    ensures
        r@.map_values(|s: String| s@) == cfg_files(cfg@, dir@),
{
    let ghost c = cfg@;
    let mut out: Vec<String> = Vec::new();
    let mut i: usize = 0;
    assert(c.skip(0) =~= c);
    assert(out@.map_values(|s: String| s@) =~= Seq::<Seq<char>>::empty());
    while i < cfg.entries.len()
        invariant
            i <= cfg.entries@.len(),
            c == cfg@,
            c.len() == cfg.entries@.len(),
            cfg_files(c, dir@) == out@.map_values(|s: String| s@) + cfg_files(c.skip(i as int), dir@),
        decreases cfg.entries@.len() - i,
    {
        let entry = &cfg.entries[i].1;
        let ghost locs = entry@.locate;
        assert(c.skip(i as int)[0].1 == entry@);
        assert(c.skip(i as int).drop_first() =~= c.skip(i + 1));
        let ghost before = out@.map_values(|s: String| s@);
        let mut j: usize = 0;
        assert(locs.skip(0) =~= locs);
        while j < entry.locate.len()
            invariant
                j <= entry.locate@.len(),
                locs == entry@.locate,
                locs.len() == entry.locate@.len(),
                locators_files(locs, dir@) == out@.map_values(|s: String| s@).skip(before.len() as int)
                    + locators_files(locs.skip(j as int), dir@),
                out@.map_values(|s: String| s@).take(before.len() as int) == before,
                out@.len() >= before.len(),
            decreases entry.locate@.len() - j,
        {
            assert(locs.skip(j as int)[0] == entry.locate@[j as int]@);
            assert(locs.skip(j as int).drop_first() =~= locs.skip(j + 1));
            let filters = &entry.locate[j].filters;
            if filters.len() > 0 {
                assert(entry.locate@[j as int]@[0] == filters@[0]@);
                let p = match &filters[0] {
                    Filter::EnvFile { path, .. } => resolve_path_exec(dir, path.as_str()),
                    Filter::JsonFile { path, .. } => resolve_path_exec(dir, path.as_str()),
                };
                let ghost prev = out@.map_values(|s: String| s@);
                out.push(p);
                assert(out@.map_values(|s: String| s@) =~= prev.push(p@));
                assert(out@.map_values(|s: String| s@).skip(before.len() as int) =~= prev.skip(
                    before.len() as int,
                ).push(p@));
                assert(out@.map_values(|s: String| s@).take(before.len() as int) =~= prev.take(
                    before.len() as int,
                ));
                assert(prev.skip(before.len() as int).push(p@) + locators_files(locs.skip(j + 1), dir@)
                    =~= prev.skip(before.len() as int) + (seq![p@] + locators_files(locs.skip(j + 1), dir@)));
            }
            j = j + 1;
        }
        assert(locs.skip(j as int) =~= Seq::<Seq<FilterView>>::empty());
        let ghost now = out@.map_values(|s: String| s@);
        assert(now =~= before + now.skip(before.len() as int));
        assert(before + (now.skip(before.len() as int) + cfg_files(c.skip(i + 1), dir@)) =~= now
            + cfg_files(c.skip(i + 1), dir@));
        i = i + 1;
    }
    assert(c.skip(i as int) =~= Seq::<(Seq<char>, crate::config::EntryView)>::empty());
    assert(out@.map_values(|s: String| s@) + Seq::<Seq<char>>::empty() =~= out@.map_values(
        |s: String| s@,
    ));
    out
}

/// `s` split at every `'/'`: one more segment than there are slashes.
pub open spec fn split_on_slashes(s: Seq<char>) -> Seq<Seq<char>>
    decreases s.len(),
{
    if s.len() == 0 {
        seq![seq![]]
    } else {
        let p = split_on_slashes(s.drop_last());
        if s.last() == '/' {
            p.push(seq![])
        } else {
            p.update(p.len() - 1, p.last().push(s.last()))
        }
    }
}

/// Whether a path component names something: it is neither empty (a doubled or trailing
/// separator) nor `.` (the directory itself).
pub open spec fn names_something(k: Seq<char>) -> bool {
    k.len() > 0 && k != seq!['.']
}

/// The components of a path that name something, in order.
pub open spec fn path_parts(p: Seq<char>) -> Seq<Seq<char>> {
    split_on_slashes(p).filter(|k: Seq<char>| names_something(k))
}

/// Components joined by single separators.
pub open spec fn join_parts(parts: Seq<Seq<char>>) -> Seq<char>
    decreases parts.len(),
{
    if parts.len() == 0 {
        seq![]
    } else if parts.len() == 1 {
        parts[0]
    } else {
        join_parts(parts.drop_last()) + seq!['/'] + parts.last()
    }
}

/// The plain spelling of a path: its components that name something, joined by single
/// separators, behind one `/` where the path is absolute; `.` for a relative path with none.
/// Two spellings of a file that differ only in `.` components and doubled separators
/// (`./.env` and `.env`) have one plain spelling.
pub open spec fn normal_path(p: Seq<char>) -> Seq<char> {
    let body = join_parts(path_parts(p));
    if p.len() > 0 && p[0] == '/' {
        seq!['/'] + body
    } else if body.len() == 0 {
        seq!['.']
    } else {
        body
    }
}

/// There is always at least one segment.
proof fn lemma_split_on_slashes_len(s: Seq<char>)
    ensures
        split_on_slashes(s).len() >= 1,
    decreases s.len(),
{
    if s.len() > 0 {
        lemma_split_on_slashes_len(s.drop_last());
    }
}

/// Splitting at a separator: the segments of `s`, then those of `t`.
proof fn lemma_split_at_separator(s: Seq<char>, t: Seq<char>)
    ensures
        split_on_slashes(s + seq!['/'] + t) == split_on_slashes(s) + split_on_slashes(t),
    decreases t.len(),
{
    let u = s + seq!['/'] + t;
    if t.len() == 0 {
        assert(u.drop_last() =~= s);
        assert(split_on_slashes(s).push(seq![]) =~= split_on_slashes(s) + split_on_slashes(t));
    } else {
        let t0 = t.drop_last();
        lemma_split_at_separator(s, t0);
        lemma_split_on_slashes_len(t0);
        assert(u.drop_last() =~= s + seq!['/'] + t0);
        assert(u.last() == t.last());
        let a = split_on_slashes(s);
        let b = split_on_slashes(t0);
        if t.last() == '/' {
            assert((a + b).push(seq![]) =~= a + b.push(seq![]));
        } else {
            assert((a + b).update((a + b).len() - 1, (a + b).last().push(t.last())) =~= a + b.update(
                b.len() - 1,
                b.last().push(t.last()),
            ));
        }
    }
}

/// The components that name something of `s`, a separator, and `t`: those of `s`, then
/// those of `t`.
proof fn lemma_parts_at_separator(s: Seq<char>, t: Seq<char>)
    ensures
        path_parts(s + seq!['/'] + t) == path_parts(s) + path_parts(t),
{
    lemma_split_at_separator(s, t);
    Seq::filter_distributes_over_add(
        split_on_slashes(s),
        split_on_slashes(t),
        |k: Seq<char>| names_something(k),
    );
}

/// A `.` component and a doubled separator name nothing: writing `a/./b` or `a//b` in place
/// of `a/b` (or `./b` in place of a relative `b`) leaves a path's plain spelling unchanged, so
/// such spellings of one file reach the same entry of a workspace.
pub proof fn law_plain_spelling(a: Seq<char>, b: Seq<char>)
    ensures
        normal_path(a + seq!['/', '.', '/'] + b) == normal_path(a + seq!['/'] + b),
        normal_path(a + seq!['/', '/'] + b) == normal_path(a + seq!['/'] + b),
        b.len() == 0 || b[0] != '/' ==> normal_path(seq!['.', '/'] + b) == normal_path(b),
{
    let dot = seq!['.'];
    let none = Seq::<char>::empty();
    lemma_parts_at_separator(a, b);
    lemma_parts_at_separator(a, dot + seq!['/'] + b);
    lemma_parts_at_separator(dot, b);
    lemma_parts_at_separator(a, none + seq!['/'] + b);
    lemma_parts_at_separator(none, b);
    assert(split_on_slashes(dot) =~= seq![dot]) by {
        assert(dot.drop_last() =~= none);
    }
    assert(split_on_slashes(dot).filter(|k: Seq<char>| names_something(k)) =~= Seq::<Seq<char>>::empty()) by {
        reveal_with_fuel(Seq::filter, 2);
        assert(seq![dot].drop_last() =~= Seq::<Seq<char>>::empty());
    }
    assert(split_on_slashes(none).filter(|k: Seq<char>| names_something(k)) =~= Seq::<Seq<char>>::empty()) by {
        reveal_with_fuel(Seq::filter, 2);
        assert(seq![none].drop_last() =~= Seq::<Seq<char>>::empty());
    }
    assert(a + seq!['/', '.', '/'] + b =~= a + seq!['/'] + (dot + seq!['/'] + b));
    assert(a + seq!['/', '/'] + b =~= a + seq!['/'] + (none + seq!['/'] + b));
    assert(seq!['.', '/'] + b =~= dot + seq!['/'] + b);
    assert(none + seq!['/'] + b =~= seq!['/'] + b);
    assert(path_parts(a) + (path_parts(dot) + path_parts(b)) =~= path_parts(a) + path_parts(b));
    assert(path_parts(a) + (path_parts(none) + path_parts(b)) =~= path_parts(a) + path_parts(b));
    assert(path_parts(dot) + path_parts(b) =~= path_parts(b));
    if a.len() == 0 {
        assert((a + seq!['/', '.', '/'] + b)[0] == '/');
        assert((a + seq!['/'] + b)[0] == '/');
        assert((a + seq!['/', '/'] + b)[0] == '/');
    } else {
        assert((a + seq!['/', '.', '/'] + b)[0] == a[0]);
        assert((a + seq!['/'] + b)[0] == a[0]);
        assert((a + seq!['/', '/'] + b)[0] == a[0]);
    }
}

/// The components of `p` that name something, as strings.
fn path_parts_exec(p: &Vec<char>) -> (parts: Vec<Vec<char>>)
    ensures
        parts@.map_values(|k: Vec<char>| k@) == path_parts(p@),
{
    let ghost keep = |k: Seq<char>| names_something(k);
    let mut parts: Vec<Vec<char>> = Vec::new();
    let mut cur: Vec<char> = Vec::new();
    let mut i: usize = 0;
    proof {
        assert(p@.take(0) =~= Seq::<char>::empty());
        assert(split_on_slashes(p@.take(0)).drop_last() =~= Seq::<Seq<char>>::empty());
        assert(parts@.map_values(|k: Vec<char>| k@) =~= Seq::<Seq<char>>::empty());
    }
    while i < p.len()
        invariant
            i <= p@.len(),
            keep == (|k: Seq<char>| names_something(k)),
            split_on_slashes(p@.take(i as int)).len() >= 1,
            cur@ == split_on_slashes(p@.take(i as int)).last(),
            parts@.map_values(|k: Vec<char>| k@) == split_on_slashes(p@.take(i as int)).drop_last().filter(keep),
        decreases p@.len() - i,
    {
        let c = p[i];
        let ghost segs = split_on_slashes(p@.take(i as int));
        assert(p@.take(i + 1).drop_last() =~= p@.take(i as int));
        assert(segs.drop_last().push(segs.last()) =~= segs);
        if c == '/' {
            proof {
                segs.drop_last().lemma_filter_push(segs.last(), keep);
            }
            let named = cur.len() > 0 && !(cur.len() == 1 && cur[0] == '.');
            assert(named == names_something(cur@)) by {
                if cur@.len() == 1 && cur@[0] == '.' {
                    assert(cur@ =~= seq!['.']);
                }
            }
            if named {
                let ghost before = parts@.map_values(|k: Vec<char>| k@);
                parts.push(cur);
                assert(parts@.map_values(|k: Vec<char>| k@) =~= before.push(segs.last()));
            }
            cur = Vec::new();
            assert(split_on_slashes(p@.take(i + 1)).drop_last() =~= segs);
        } else {
            cur.push(c);
            assert(split_on_slashes(p@.take(i + 1)).drop_last() =~= segs.drop_last());
        }
        i = i + 1;
    }
    let ghost segs = split_on_slashes(p@.take(i as int));
    assert(p@.take(i as int) =~= p@);
    assert(segs.drop_last().push(segs.last()) =~= segs);
    proof {
        segs.drop_last().lemma_filter_push(segs.last(), keep);
    }
    let named = cur.len() > 0 && !(cur.len() == 1 && cur[0] == '.');
    assert(named == names_something(cur@)) by {
        if cur@.len() == 1 && cur@[0] == '.' {
            assert(cur@ =~= seq!['.']);
        }
    }
    if named {
        let ghost before = parts@.map_values(|k: Vec<char>| k@);
        parts.push(cur);
        assert(parts@.map_values(|k: Vec<char>| k@) =~= before.push(segs.last()));
    }
    parts
}

/// The plain spelling of `p` (see `normal_path`).
pub fn normal_path_exec(p: &str) -> (r: String)
    ensures
        r@ == normal_path(p@),
{
    let chars = crate::text::to_chars(p);
    let parts = path_parts_exec(&chars);
    let ghost views = parts@.map_values(|k: Vec<char>| k@);
    let mut r = String::new();
    let absolute = chars.len() > 0 && chars[0] == '/';
    if absolute {
        push_char(&mut r, '/');
    }
    let ghost start = r@;
    let mut k: usize = 0;
    assert(views.take(0) =~= Seq::<Seq<char>>::empty());
    while k < parts.len()
        invariant
            k <= parts@.len(),
            views == parts@.map_values(|k: Vec<char>| k@),
            r@ == start + join_parts(views.take(k as int)),
        decreases parts@.len() - k,
    {
        let ghost prev = r@;
        if k > 0 {
            push_char(&mut r, '/');
        }
        append_chars(&mut r, &parts[k], 0, parts[k].len());
        proof {
            let t = views.take(k + 1);
            assert(t.drop_last() =~= views.take(k as int));
            assert(t.last() == parts@[k as int]@);
            assert(parts@[k as int]@.subrange(0, parts@[k as int]@.len() as int) =~= parts@[k as int]@);
            if k == 0 {
                assert(r@ =~= start + join_parts(t));
            } else {
                assert(r@ =~= start + join_parts(t));
            }
        }
        k = k + 1;
    }
    assert(views.take(k as int) =~= views);
    if !absolute && r.as_str().is_empty() {
        push_char(&mut r, '.');
        assert(r@ =~= seq!['.']);
    }
    proof {
        if absolute {
            assert(start =~= seq!['/']);
        } else {
            assert(start =~= Seq::<char>::empty());
            assert(r@.len() > 0 ==> start + join_parts(views) =~= join_parts(views));
        }
    }
    r
}

} // verus!
