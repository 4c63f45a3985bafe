//! What `run` and `restore` promise as a whole: running twice changes nothing more than
//! running once, and restoring after a run gives the base values back.
use vstd::prelude::*;

use crate::env::{
    ending_len, env_assignments, env_prefix, line_body, line_ending, lines, lemma_piece_parts,
    lemma_pieces_of_flatten, lemma_pieces_wf, no_newline, numbered_lines, pieces, pieces_wf,
    replace_line, rewritten_pieces,
};
use crate::config::{
    diff_line, diff_spec, locate_all_spec, new_line_of, restore_spec, run_spec, write_entry, CfgView, DiffView,
    EntryView,
};
use crate::error::ErrorView;
use crate::json::{
    json_compact, json_lookup, json_parse, json_pretty, json_replace, lemma_replace_existing, lemma_replace_same,
    selector_keys, JsonEdit, JsonView,
};
use crate::locator::{
    apply_spec, env_applicators, json_applicators, json_new_value, json_write, locate_spec,
    resolve_path, write_spec, ApplicatorView, FilterView, WriterView,
};
use crate::overrider::{apply_all, override_value};
use crate::sequence::{
    env_map, file_fold, lemma_assigned_var, lemma_env_file_state, lemma_env_state_lines,
    lemma_locate_read, lemma_plan_fold, lemma_twice_model, lemma_twice_then, lemma_writes_fixed,
    lemma_compat_fold, lemma_compat_pair, lemma_pair_file, lemma_pair_first, lemma_pair_second, lemma_rerun_along,
    same_targets, loc_writable, located, settles_along, targets_compatible,
    target_writes, targets_distinct, writes_along,
};
use crate::text::{find_from, first_occurrence, lemma_find_from, occurs_at, replace_first, starts_with};
use crate::lua::{lua_type_name, base_of, cfg_of, cfg_pairs, entry_of, field_from, lua_field, lua_text, table_spec, LuaValue};
use crate::config::{cfg_index, lemma_cfg_index_from, names_distinct};
use crate::overrider::{fnv1a_spec, port_for};
use crate::paths::{cfg_files, locators_files};
use crate::workspace::{
    lemma_read_write, lemma_write_same, lemma_write_write, ws_read, ws_write, FilesView,
};

verus! {

broadcast use vstd::seq_lib::group_seq_properties;

/// Writing with the applicators of `a` and then those of `b` is writing with `a + b`.
pub proof fn lemma_apply_all_concat(a: Seq<ApplicatorView>, b: Seq<ApplicatorView>, v: Seq<char>, fs: FilesView)
    ensures
        apply_all(a + b, v, fs) == ({
            let r = apply_all(a, v, fs);
            if r.1 is None {
                apply_all(b, v, r.0)
            } else {
                r
            }
        }),
    decreases a.len(),
{
    if a.len() == 0 {
        assert(a + b =~= b);
    } else {
        assert((a + b)[0] == a[0]);
        assert((a + b).drop_first() =~= a.drop_first() + b);
        match apply_spec(a[0], v, fs) {
            Ok(fs2) => {
                lemma_apply_all_concat(a.drop_first(), b, v, fs2);
            },
            Err(e) => {},
        }
    }
}

/// A line of a dotenv file assigns the variable whose prefix is `prefix`.
pub open spec fn env_matched(p: Seq<char>, prefix: Seq<char>) -> bool {
    starts_with(line_body(p), prefix)
}

/// What writing `v` makes of an assignment piece: the text after the prefix replaced by `v`,
/// the terminator kept.
#[verifier::opaque]
pub open spec fn written_piece(p: Seq<char>, prefix: Seq<char>, v: Seq<char>) -> Seq<char> {
    prefix + v + line_ending(p)
}

/// The pieces after the assignments among the first `m` pieces are written with `v`.
pub open spec fn written_upto(ps: Seq<Seq<char>>, prefix: Seq<char>, v: Seq<char>, m: int) -> Seq<Seq<char>> {
    ps.map(
        |i: int, p: Seq<char>|
            if i < m && env_matched(p, prefix) {
                written_piece(p, prefix, v)
            } else {
                p
            },
    )
}

/// Writing `v` into any assignment piece keeps the pieces well formed.
pub open spec fn env_write_keeps_shape(ps: Seq<Seq<char>>, prefix: Seq<char>, v: Seq<char>) -> bool {
    forall|i: int|
        0 <= i < ps.len() && env_matched(#[trigger] ps[i], prefix) ==> {
            let np = written_piece(ps[i], prefix, v);
            &&& np.len() > 0
            &&& no_newline(np.drop_last())
            &&& (i < ps.len() - 1 ==> np.last() == '\n')
        }
}

/// The applicators for the assignments among the first `m` lines.
pub open spec fn env_apps_upto(abs: Seq<char>, c: Seq<char>, x: Seq<char>, m: int) -> Seq<ApplicatorView> {
    numbered_lines(c).take(m).filter(|e: (int, Seq<char>)| starts_with(e.1, env_prefix(x))).map_values(
        |a: (int, Seq<char>)|
            ApplicatorView {
                path: abs,
                line_number: Some(a.0),
                old_value: a.1.skip(x.len() as int + 1),
                old_line: a.1,
                writer: WriterView::InFileLine(a.0, x),
            },
    )
}

/// `written_upto` keeps well-formed pieces well formed.
proof fn lemma_written_upto_wf(ps: Seq<Seq<char>>, prefix: Seq<char>, v: Seq<char>, m: int)
    requires
        pieces_wf(ps),
        env_write_keeps_shape(ps, prefix, v),
    ensures
        pieces_wf(written_upto(ps, prefix, v, m)),
{
    let w = written_upto(ps, prefix, v, m);
    assert forall|i: int| 0 <= i < w.len() implies #[trigger] w[i].len() > 0 by {
        assert(ps[i].len() > 0);
    }
    assert forall|i: int| 0 <= i < w.len() - 1 implies #[trigger] w[i].last() == '\n' by {
        assert(ps[i].last() == '\n');
    }
    assert forall|i: int| 0 <= i < w.len() implies no_newline(#[trigger] w[i].drop_last()) by {
        assert(no_newline(ps[i].drop_last()));
    }
}

/// Writing with the applicators of the assignments among the first `m` lines, one after the
/// other, gives the file whose pieces are `written_upto(.., m)`.
#[verifier::spinoff_prover]
proof fn lemma_env_apply_upto(abs: Seq<char>, c: Seq<char>, x: Seq<char>, v: Seq<char>, fs: FilesView, m: int)
    requires
        ws_read(fs, abs) == Some(c),
        env_write_keeps_shape(pieces(c), env_prefix(x), v),
        0 <= m <= pieces(c).len(),
    ensures
        apply_all(env_apps_upto(abs, c, x, m), v, fs) == (
            ws_write(fs, abs, written_upto(pieces(c), env_prefix(x), v, m).flatten()),
            None::<ErrorView>,
        ),
    decreases m,
{
    reveal(written_piece);
    let ps = pieces(c);
    let prefix = env_prefix(x);
    lemma_pieces_wf(c);
    let pred = |e: (int, Seq<char>)| starts_with(e.1, env_prefix(x));
    let f = |a: (int, Seq<char>)|
        ApplicatorView {
            path: abs,
            line_number: Some(a.0),
            old_value: a.1.skip(x.len() as int + 1),
            old_line: a.1,
            writer: WriterView::InFileLine(a.0, x),
        };
    if m == 0 {
        assert(numbered_lines(c).take(0) =~= Seq::<(int, Seq<char>)>::empty());
        assert(Seq::<(int, Seq<char>)>::empty().filter(pred) =~= Seq::<(int, Seq<char>)>::empty()) by {
            reveal(Seq::filter);
        }
        assert(env_apps_upto(abs, c, x, 0) =~= Seq::<ApplicatorView>::empty());
        assert(written_upto(ps, prefix, v, 0) =~= ps);
        crate::env::lemma_pieces_flatten(c);
        lemma_write_same(fs, abs, c);
    } else {
        let k = m - 1;
        lemma_env_apply_upto(abs, c, x, v, fs, k);
        let nl = numbered_lines(c);
        assert(nl.take(m) =~= nl.take(k).push(nl[k]));
        nl.take(k).lemma_filter_push(nl[k], pred);
        let before = nl.take(k).filter(pred);
        let wk = written_upto(ps, prefix, v, k);
        let wm = written_upto(ps, prefix, v, m);
        let ck = wk.flatten();
        let fs1 = ws_write(fs, abs, ck);
        assert(nl[k] == (k + 1, line_body(ps[k])));
        if pred(nl[k]) {
            let app = f(nl[k]);
            assert(env_apps_upto(abs, c, x, m) =~= env_apps_upto(abs, c, x, k) + seq![app]);
            lemma_apply_all_concat(env_apps_upto(abs, c, x, k), seq![app], v, fs);
            lemma_read_write(fs, abs, ck);
            lemma_written_upto_wf(ps, prefix, v, k);
            lemma_pieces_of_flatten(wk);
            assert(wk[k] == ps[k]);
            assert(prefix.len() == x.len() + 1);
            let rw = rewritten_pieces(ck, k + 1, prefix, v);
            assert(rw =~= wm);
            assert(write_spec(app.writer, abs, ck, app.old_value, v) == Ok::<Seq<char>, ErrorView>(wm.flatten()));
            lemma_write_write(fs, abs, ck, wm.flatten());
            assert(apply_all(seq![app], v, fs1) == apply_all(seq![app].drop_first(), v, ws_write(fs1, abs, wm.flatten())));
            assert(seq![app].drop_first() =~= Seq::<ApplicatorView>::empty());
        } else {
            assert(env_apps_upto(abs, c, x, m) =~= env_apps_upto(abs, c, x, k));
            assert(wm =~= wk);
        }
    }
}

/// `s` holds no carriage return.
pub open spec fn no_carriage_return(s: Seq<char>) -> bool {
    forall|j: int| 0 <= j < s.len() ==> s[j] != '\r'
}

/// A value that can be written into a line: it neither ends the line nor changes its
/// terminator.
pub open spec fn line_safe(v: Seq<char>) -> bool {
    no_newline(v) && no_carriage_return(v)
}

/// The terminator of a piece is nothing, a newline, or a carriage return and a newline; a
/// lone newline does not follow a carriage return.
pub proof fn lemma_line_ending_cases(p: Seq<char>)
    ensures
        line_ending(p) =~= seq![] || line_ending(p) =~= seq!['\n'] || line_ending(p) =~= seq!['\r', '\n'],
        line_ending(p) =~= seq!['\n'] ==> p.len() < 2 || p[p.len() - 2] != '\r',
        line_ending(p) =~= seq![] ==> p.len() == 0 || p.last() != '\n',
{
}

/// An assignment line `prefix + v` with a terminator `e` of a piece: its body is
/// `prefix + v` and its terminator is `e`.
pub proof fn lemma_assign_piece(prefix: Seq<char>, v: Seq<char>, p: Seq<char>)
    requires
        prefix.len() > 0,
        prefix.last() == '=',
        line_safe(v),
    ensures
        line_body(prefix + v + line_ending(p)) =~= prefix + v,
        line_ending(prefix + v + line_ending(p)) =~= line_ending(p),
{
    lemma_line_ending_cases(p);
    let e = line_ending(p);
    let b = prefix + v;
    let q = b + e;
    assert(b.last() != '\r' && b.last() != '\n') by {
        if v.len() > 0 {
            assert(b.last() == v[v.len() - 1]);
        } else {
            assert(b.last() == prefix.last());
        }
    }
    if e =~= seq!['\r', '\n'] {
        assert(q[q.len() - 1] == '\n' && q[q.len() - 2] == '\r');
        assert(ending_len(q) == 2);
    } else if e =~= seq!['\n'] {
        assert(q[q.len() - 1] == '\n' && q[q.len() - 2] == b.last());
        assert(ending_len(q) == 1);
    } else {
        assert(q =~= b);
        assert(ending_len(q) == 0);
    }
}

/// Writing `v` into an assignment piece gives `x=` + `v` with the
/// piece's terminator.
pub proof fn lemma_written_assignment(c: Seq<char>, x: Seq<char>, v: Seq<char>, i: int)
    requires
        0 <= i < pieces(c).len(),
        env_matched(pieces(c)[i], env_prefix(x)),
    ensures
        written_piece(pieces(c)[i], env_prefix(x), v) =~= env_prefix(x) + v + line_ending(pieces(c)[i]),
{
    reveal(written_piece);
}

/// Writing `x=v` into every assignment keeps the pieces well formed, when `v` is line-safe.
pub proof fn lemma_assignments_keep_shape(c: Seq<char>, x: Seq<char>, v: Seq<char>)
    requires
        line_safe(v),
    ensures
        env_write_keeps_shape(pieces(c), env_prefix(x), v),
{
    let ps = pieces(c);
    let prefix = env_prefix(x);
    lemma_pieces_wf(c);
    assert forall|i: int| 0 <= i < ps.len() && env_matched(#[trigger] ps[i], prefix) implies {
        let np = written_piece(ps[i], prefix, v);
        &&& np.len() > 0
        &&& no_newline(np.drop_last())
        &&& (i < ps.len() - 1 ==> np.last() == '\n')
    } by {
        lemma_written_assignment(c, x, v, i);
        lemma_piece_parts(ps[i]);
        lemma_line_ending_cases(ps[i]);
        let e = line_ending(ps[i]);
        let np = prefix + v + e;
        assert forall|j: int| 0 <= j < np.drop_last().len() implies np.drop_last()[j] != '\n' by {
            if j < prefix.len() {
                assert(prefix[j] == line_body(ps[i])[j]);
            } else if j < prefix.len() + v.len() {
            } else {
                assert(np[j] == e[j - prefix.len() - v.len()]);
            }
        }
        if i < ps.len() - 1 {
            assert(ps[i].last() == '\n');
            assert(e.len() > 0);
        }
    }
}

/// After writing `v` into every assignment, the pieces are those of the
/// written file, the assignments are the same lines, and writing `v` again changes nothing.
proof fn lemma_rewrite_fixed(c: Seq<char>, x: Seq<char>, v: Seq<char>)
    requires
        line_safe(v),
    ensures
        ({
            let ps = pieces(c);
            let w = written_upto(ps, env_prefix(x), v, ps.len() as int);
            &&& pieces(w.flatten()) == w
            &&& env_write_keeps_shape(w, env_prefix(x), v)
            &&& written_upto(w, env_prefix(x), v, w.len() as int) == w
        }),
{
    reveal(written_piece);
    let ps = pieces(c);
    let prefix = env_prefix(x);
    let w = written_upto(ps, prefix, v, ps.len() as int);
    lemma_pieces_wf(c);
    lemma_assignments_keep_shape(c, x, v);
    lemma_written_upto_wf(ps, prefix, v, ps.len() as int);
    lemma_pieces_of_flatten(w);
    assert forall|i: int| 0 <= i < w.len() && env_matched(#[trigger] w[i], prefix) implies {
        &&& env_matched(ps[i], prefix)
        &&& written_piece(w[i], prefix, v) == w[i]
    } by {
        if !env_matched(ps[i], prefix) {
            assert(w[i] == ps[i]);
        } else {
            lemma_written_assignment(c, x, v, i);
            lemma_assign_piece(prefix, v, ps[i]);
            assert(line_body(w[i]) =~= prefix + v);
            assert(line_ending(w[i]) =~= line_ending(ps[i]));
        }
    }
    assert forall|i: int| 0 <= i < w.len() && env_matched(#[trigger] w[i], prefix) implies {
        let np = written_piece(w[i], prefix, v);
        &&& np.len() > 0
        &&& no_newline(np.drop_last())
        &&& (i < w.len() - 1 ==> np.last() == '\n')
    } by {
        assert(env_matched(ps[i], prefix));
        assert(written_piece(w[i], prefix, v) == w[i]);
    }
    let w2 = written_upto(w, prefix, v, w.len() as int);
    assert forall|i: int| 0 <= i < w.len() implies #[trigger] w2[i] == w[i] by {
        if env_matched(w[i], prefix) {
            assert(written_piece(w[i], prefix, v) == w[i]);
        }
    }
    assert(w2 =~= w);
}

/// The applicators of a dotenv locator are those of all its lines.
proof fn lemma_env_apps_all(abs: Seq<char>, c: Seq<char>, x: Seq<char>)
    ensures
        env_apps_upto(abs, c, x, pieces(c).len() as int) == env_applicators(abs, c, x),
{
    assert(numbered_lines(c).len() == pieces(c).len());
    assert(numbered_lines(c).take(pieces(c).len() as int) =~= numbered_lines(c));
}

/// A locator whose first filter is `envFile(path, x)`, written with `v`: the workspace after
/// every assignment of `x` in the file is written.
proof fn lemma_env_write(filters: Seq<FilterView>, dir: Seq<char>, v: Seq<char>, fs: FilesView)
    requires
        filters.len() > 0,
        filters[0] is EnvFile,
        ws_read(fs, resolve_path(dir, filters[0]->EnvFile_path)) is Some,
        env_write_keeps_shape(
            pieces(ws_read(fs, resolve_path(dir, filters[0]->EnvFile_path)).unwrap()),
            env_prefix(filters[0]->EnvFile_variable),
            v,
        ),
    ensures
        ({
            let abs = resolve_path(dir, filters[0]->EnvFile_path);
            let c = ws_read(fs, abs).unwrap();
            let x = filters[0]->EnvFile_variable;
            let ps = pieces(c);
            write_entry(seq![filters], v, dir, fs) == (
                ws_write(fs, abs, written_upto(ps, env_prefix(x), v, ps.len() as int).flatten()),
                None::<ErrorView>,
            )
        }),
{
    let abs = resolve_path(dir, filters[0]->EnvFile_path);
    let c = ws_read(fs, abs).unwrap();
    let x = filters[0]->EnvFile_variable;
    let locs = seq![filters];
    assert(locs.drop_first() =~= Seq::<Seq<FilterView>>::empty());
    assert(locate_spec(filters, dir, fs) == Ok::<Seq<ApplicatorView>, ErrorView>(env_applicators(abs, c, x)));
    assert(env_applicators(abs, c, x) + Seq::<ApplicatorView>::empty() =~= env_applicators(abs, c, x));
    assert(locs[0] == filters);
    assert(crate::config::locate_all_spec(locs.drop_first(), dir, fs) == Ok::<Seq<ApplicatorView>, ErrorView>(seq![]));
    assert(crate::config::locate_all_spec(locs, dir, fs) == Ok::<Seq<ApplicatorView>, ErrorView>(env_applicators(abs, c, x)));
    lemma_env_apps_all(abs, c, x);
    lemma_env_apply_upto(abs, c, x, v, fs, pieces(c).len() as int);
}

/// Running a dotenv locator twice changes nothing more than running it once: the second run
/// finds the same assignments, now holding `v`, and writes `v` over `v`. It needs the file to
/// be readable and `v` to hold no newline or carriage return.
pub proof fn law_env_run_idempotent(filters: Seq<FilterView>, dir: Seq<char>, v: Seq<char>, fs: FilesView)
    requires
        filters.len() > 0,
        filters[0] is EnvFile,
        ws_read(fs, resolve_path(dir, filters[0]->EnvFile_path)) is Some,
        line_safe(v),
    ensures
        ({
            let once = write_entry(seq![filters], v, dir, fs);
            &&& once.1 is None
            &&& write_entry(seq![filters], v, dir, once.0) == once
        }),
{
    let abs = resolve_path(dir, filters[0]->EnvFile_path);
    let c = ws_read(fs, abs).unwrap();
    let x = filters[0]->EnvFile_variable;
    let ps = pieces(c);
    let prefix = env_prefix(x);
    let w = written_upto(ps, prefix, v, ps.len() as int);
    let c1 = w.flatten();
    lemma_assignments_keep_shape(c, x, v);
    lemma_env_write(filters, dir, v, fs);
    let fs1 = ws_write(fs, abs, c1);
    lemma_rewrite_fixed(c, x, v);
    lemma_read_write(fs, abs, c1);
    assert(pieces(c1) == w);
    lemma_env_write(filters, dir, v, fs1);
    lemma_write_write(fs, abs, c1, c1);
}

/// After writing `v` into every assignment, each line of the written file
/// is `x=v` where the original assigned `x`, and the original line elsewhere.
proof fn lemma_written_lines(c: Seq<char>, x: Seq<char>, v: Seq<char>)
    requires
        line_safe(v),
    ensures
        ({
            let ps = pieces(c);
            let w = written_upto(ps, env_prefix(x), v, ps.len() as int);
            let c1 = w.flatten();
            &&& lines(c1).len() == lines(c).len()
            &&& forall|i: int|
                0 <= i < lines(c).len() ==> #[trigger] lines(c1)[i] == if starts_with(
                    lines(c)[i],
                    env_prefix(x),
                ) {
                    env_prefix(x) + v
                } else {
                    lines(c)[i]
                }
        }),
{
    let ps = pieces(c);
    let prefix = env_prefix(x);
    let w = written_upto(ps, prefix, v, ps.len() as int);
    lemma_rewrite_fixed(c, x, v);
    assert forall|i: int| 0 <= i < lines(c).len() implies #[trigger] lines(w.flatten())[i] == if starts_with(
        lines(c)[i],
        prefix,
    ) {
        prefix + v
    } else {
        lines(c)[i]
    } by {
        assert(lines(w.flatten())[i] == line_body(w[i]));
        assert(lines(c)[i] == line_body(ps[i]));
        if env_matched(ps[i], prefix) {
            lemma_written_assignment(c, x, v, i);
            lemma_assign_piece(prefix, v, ps[i]);
        }
    }
}

/// The line numbers of the assignments of `x` among the first `m` lines of `c`.
pub open spec fn assignment_numbers(c: Seq<char>, x: Seq<char>, m: int) -> Seq<int> {
    numbered_lines(c).take(m).filter(|e: (int, Seq<char>)| starts_with(e.1, env_prefix(x))).map_values(
        |e: (int, Seq<char>)| e.0,
    )
}

/// Two files whose lines assign `x` at the same places have their assignments of `x` at the
/// same line numbers, among the first `m` lines and so among all.
pub proof fn lemma_assignment_numbers(c: Seq<char>, c2: Seq<char>, x: Seq<char>, m: int)
    requires
        lines(c).len() == lines(c2).len(),
        forall|i: int|
            0 <= i < lines(c).len() ==> starts_with(#[trigger] lines(c)[i], env_prefix(x)) == starts_with(
                lines(c2)[i],
                env_prefix(x),
            ),
        0 <= m <= lines(c).len(),
    ensures
        assignment_numbers(c, x, m) == assignment_numbers(c2, x, m),
    decreases m,
{
    broadcast use Seq::lemma_filter_push;

    let pred = |e: (int, Seq<char>)| starts_with(e.1, env_prefix(x));
    let nl = numbered_lines(c);
    let nl2 = numbered_lines(c2);
    if m == 0 {
        assert(nl.take(0) =~= Seq::<(int, Seq<char>)>::empty());
        assert(nl2.take(0) =~= Seq::<(int, Seq<char>)>::empty());
    } else {
        let k = m - 1;
        lemma_assignment_numbers(c, c2, x, k);
        assert(nl.take(m) =~= nl.take(k).push(nl[k]));
        assert(nl2.take(m) =~= nl2.take(k).push(nl2[k]));
        assert(nl[k] == (k + 1, lines(c)[k]));
        assert(nl2[k] == (k + 1, lines(c2)[k]));
        assert(starts_with(lines(c)[k], env_prefix(x)) == starts_with(lines(c2)[k], env_prefix(x)));
        let f = |e: (int, Seq<char>)| e.0;
        if pred(nl[k]) {
            assert(nl.take(m).filter(pred) == nl.take(k).filter(pred).push(nl[k]));
            assert(nl2.take(m).filter(pred) == nl2.take(k).filter(pred).push(nl2[k]));
            assert(assignment_numbers(c, x, m) =~= assignment_numbers(c, x, k).push(k + 1));
            assert(assignment_numbers(c2, x, m) =~= assignment_numbers(c2, x, k).push(k + 1));
        } else {
            assert(nl.take(m).filter(pred) == nl.take(k).filter(pred));
            assert(nl2.take(m).filter(pred) == nl2.take(k).filter(pred));
        }
    }
}

/// Locating is key-anchored: two contents of a dotenv locator's file whose lines assign its
/// variable at the same places (differing, say, in the values after `VAR=` or in other lines)
/// give as many targets, at the same line numbers, each written the same way.
pub proof fn law_env_locate_key_anchored(filters: Seq<FilterView>, dir: Seq<char>, fs1: FilesView, fs2: FilesView)
    requires
        filters.len() > 0,
        filters[0] is EnvFile,
        ws_read(fs1, loc_file(filters, dir)) is Some,
        ws_read(fs2, loc_file(filters, dir)) is Some,
        ({
            let c1 = ws_read(fs1, loc_file(filters, dir)).unwrap();
            let c2 = ws_read(fs2, loc_file(filters, dir)).unwrap();
            let px = env_prefix(filters[0]->EnvFile_variable);
            &&& lines(c1).len() == lines(c2).len()
            &&& forall|i: int|
                0 <= i < lines(c1).len() ==> starts_with(#[trigger] lines(c1)[i], px) == starts_with(lines(c2)[i], px)
        }),
    ensures
        locate_spec(filters, dir, fs1) matches Ok(a1) && locate_spec(filters, dir, fs2) matches Ok(a2) && a1.len()
            == a2.len() && forall|j: int|
            0 <= j < a1.len() ==> (#[trigger] a1[j]).line_number == a2[j].line_number && a1[j].writer == a2[j].writer,
{
    let abs = loc_file(filters, dir);
    let c1 = ws_read(fs1, abs).unwrap();
    let c2 = ws_read(fs2, abs).unwrap();
    let x = filters[0]->EnvFile_variable;
    let n = lines(c1).len() as int;
    lemma_assignment_numbers(c1, c2, x, n);
    assert(numbered_lines(c1).take(n) =~= numbered_lines(c1));
    assert(numbered_lines(c2).take(n) =~= numbered_lines(c2));
    let a1 = env_applicators(abs, c1, x);
    let a2 = env_applicators(abs, c2, x);
    let an1 = assignment_numbers(c1, x, n);
    let an2 = assignment_numbers(c2, x, n);
    assert(an1.len() == a1.len());
    assert(an2.len() == a2.len());
    assert forall|j: int| 0 <= j < a1.len() implies (#[trigger] a1[j]).line_number == a2[j].line_number && a1[j].writer
        == a2[j].writer by {
        assert(an1[j] == an2[j]);
    }
}

/// Locating is key-anchored for JSON too: two contents of a JSON locator's file that parse
/// and hold its selector's path, whatever the values there, give one target each, written the
/// same way.
pub proof fn law_json_locate_key_anchored(filters: Seq<FilterView>, dir: Seq<char>, fs1: FilesView, fs2: FilesView)
    requires
        filters.len() > 0,
        filters[0] is JsonFile,
        loc_ready(filters, seq![], ws_read(fs1, loc_file(filters, dir)).unwrap()),
        loc_ready(filters, seq![], ws_read(fs2, loc_file(filters, dir)).unwrap()),
        ws_read(fs1, loc_file(filters, dir)) is Some,
        ws_read(fs2, loc_file(filters, dir)) is Some,
    ensures
        locate_spec(filters, dir, fs1) matches Ok(a1) && locate_spec(filters, dir, fs2) matches Ok(a2) && a1.len() == 1
            && a2.len() == 1 && a1[0].path == a2[0].path && a1[0].writer == a2[0].writer,
{
}

/// Locating is key-anchored: writing a value through a dotenv locator moves none of its
/// targets. When the file is readable and `v` holds no newline or carriage return, the
/// write succeeds, and the locator then finds as many targets as before, at the same line
/// numbers, each written the same way.
pub proof fn law_env_locate_anchored(filters: Seq<FilterView>, dir: Seq<char>, v: Seq<char>, fs: FilesView)
    requires
        filters.len() > 0,
        filters[0] is EnvFile,
        ws_read(fs, resolve_path(dir, filters[0]->EnvFile_path)) is Some,
        line_safe(v),
    ensures
        ({
            let once = write_entry(seq![filters], v, dir, fs);
            &&& once.1 is None
            &&& locate_spec(filters, dir, fs) matches Ok(before) && locate_spec(filters, dir, once.0) matches Ok(after)
                && before.len() == after.len() && forall|j: int|
                0 <= j < before.len() ==> (#[trigger] before[j]).line_number == after[j].line_number && before[j].writer
                    == after[j].writer
        }),
{
    let abs = resolve_path(dir, filters[0]->EnvFile_path);
    let c = ws_read(fs, abs).unwrap();
    let x = filters[0]->EnvFile_variable;
    let prefix = env_prefix(x);
    let ps = pieces(c);
    let c1 = written_upto(ps, prefix, v, ps.len() as int).flatten();
    lemma_assignments_keep_shape(c, x, v);
    lemma_env_write(filters, dir, v, fs);
    lemma_written_lines(c, x, v);
    let once = write_entry(seq![filters], v, dir, fs);
    lemma_read_write(fs, abs, c1);
    assert(ws_read(once.0, abs) == Some(c1));
    assert forall|i: int| 0 <= i < lines(c).len() implies starts_with(#[trigger] lines(c)[i], prefix) == starts_with(
        lines(c1)[i],
        prefix,
    ) by {
        if starts_with(lines(c)[i], prefix) {
            assert((prefix + v).take(prefix.len() as int) =~= prefix);
        }
    }
    lemma_assignment_numbers(c, c1, x, lines(c).len() as int);
    assert(numbered_lines(c).take(lines(c).len() as int) =~= numbered_lines(c));
    assert(numbered_lines(c1).take(lines(c1).len() as int) =~= numbered_lines(c1));
    let before = env_applicators(abs, c, x);
    let after = env_applicators(abs, c1, x);
    let an = assignment_numbers(c, x, lines(c).len() as int);
    let an1 = assignment_numbers(c1, x, lines(c1).len() as int);
    assert(an.len() == before.len());
    assert(an1.len() == after.len());
    assert forall|j: int| 0 <= j < before.len() implies (#[trigger] before[j]).line_number == after[j].line_number
        && before[j].writer == after[j].writer by {
        assert(an[j] == an1[j]);
    }
}

/// Restoring after a run gives the file back, byte for byte, when every assignment of the
/// variable held the base value `x=base`: the run writes `x=v` into those lines and the
/// restore writes `x=base` back. It needs both values to hold no newline or carriage return.
pub proof fn law_env_restore_after_run(filters: Seq<FilterView>, dir: Seq<char>, v: Seq<char>, base: Seq<char>, fs: FilesView)
    requires
        filters.len() > 0,
        filters[0] is EnvFile,
        ws_read(fs, resolve_path(dir, filters[0]->EnvFile_path)) is Some,
        ({
            let c = ws_read(fs, resolve_path(dir, filters[0]->EnvFile_path)).unwrap();
            let prefix = env_prefix(filters[0]->EnvFile_variable);
            forall|i: int|
                0 <= i < lines(c).len() && starts_with(#[trigger] lines(c)[i], prefix) ==> lines(c)[i]
                    == prefix + base
        }),
        line_safe(v),
        line_safe(base),
    ensures
        ({
            let once = write_entry(seq![filters], v, dir, fs);
            &&& once.1 is None
            &&& write_entry(seq![filters], base, dir, once.0) == (fs, None::<ErrorView>)
        }),
{
    let abs = resolve_path(dir, filters[0]->EnvFile_path);
    let c = ws_read(fs, abs).unwrap();
    let x = filters[0]->EnvFile_variable;
    let ps = pieces(c);
    let prefix = env_prefix(x);
    let w = written_upto(ps, prefix, v, ps.len() as int);
    let c1 = w.flatten();
    lemma_assignments_keep_shape(c, x, v);
    lemma_env_write(filters, dir, v, fs);
    let fs1 = ws_write(fs, abs, c1);
    lemma_rewrite_fixed(c, x, v);
    lemma_written_lines(c, x, v);
    lemma_read_write(fs, abs, c1);
    lemma_assignments_keep_shape(c1, x, base);
    lemma_env_write(filters, dir, base, fs1);
    let w2 = written_upto(w, prefix, base, w.len() as int);
    lemma_pieces_wf(c);
    assert forall|i: int| 0 <= i < ps.len() implies #[trigger] w2[i] == ps[i] by {
        lemma_piece_parts(ps[i]);
        if env_matched(ps[i], prefix) {
            assert(lines(c)[i] == line_body(ps[i]));
            lemma_written_assignment(c, x, v, i);
            lemma_assign_piece(prefix, v, ps[i]);
            assert(env_matched(w[i], prefix));
            lemma_written_assignment(c1, x, base, i);
            lemma_assign_piece(prefix, base, ps[i]);
            assert(line_body(ps[i]) == prefix + base);
        } else {
            assert(w[i] == ps[i]);
        }
    }
    assert(w2 =~= ps);
    crate::env::lemma_pieces_flatten(c);
    lemma_write_write(fs, abs, c1, c);
    lemma_write_same(fs, abs, c);
}

/// The document in the file a JSON locator names.
pub open spec fn json_target_doc(filters: Seq<FilterView>, dir: Seq<char>, fs: FilesView) -> Option<JsonView> {
    match ws_read(fs, resolve_path(dir, filters[0]->JsonFile_path)) {
        Some(c) => json_parse(c),
        None => None,
    }
}

/// The document a JSON locator's write with `v` leaves, when the selector's path exists.
pub open spec fn json_written_doc(filters: Seq<FilterView>, dir: Seq<char>, v: Seq<char>, fs: FilesView) -> JsonView {
    json_replace(
        json_target_doc(filters, dir, fs).unwrap(),
        selector_keys(filters[0]->JsonFile_selector),
        json_new_value(v),
    )->Done_0
}

/// A JSON locator's write with `v`, when the file parses and the selector's path exists: the
/// file then holds the replaced document, written indented with a final newline.
proof fn lemma_json_write(filters: Seq<FilterView>, dir: Seq<char>, v: Seq<char>, fs: FilesView)
    requires
        filters.len() > 0,
        filters[0] is JsonFile,
        json_target_doc(filters, dir, fs) is Some,
        selector_keys(filters[0]->JsonFile_selector).len() > 0,
        json_lookup(json_target_doc(filters, dir, fs).unwrap(), selector_keys(filters[0]->JsonFile_selector)) is Ok,
    ensures
        write_entry(seq![filters], v, dir, fs) == (
            ws_write(
                fs,
                resolve_path(dir, filters[0]->JsonFile_path),
                json_pretty(json_written_doc(filters, dir, v, fs)).push('\n'),
            ),
            None::<ErrorView>,
        ),
{
    let abs = resolve_path(dir, filters[0]->JsonFile_path);
    let c = ws_read(fs, abs).unwrap();
    let sel = filters[0]->JsonFile_selector;
    let d = json_parse(c).unwrap();
    let keys = selector_keys(sel);
    lemma_replace_existing(d, keys, json_new_value(v));
    let locs = seq![filters];
    assert(locs.drop_first() =~= Seq::<Seq<FilterView>>::empty());
    assert(locs[0] == filters);
    let apps = json_applicators(abs, c, sel)->Ok_0;
    assert(locate_spec(filters, dir, fs) == Ok::<Seq<ApplicatorView>, ErrorView>(apps));
    assert(apps + Seq::<ApplicatorView>::empty() =~= apps);
    assert(crate::config::locate_all_spec(locs.drop_first(), dir, fs) == Ok::<Seq<ApplicatorView>, ErrorView>(seq![]));
    assert(crate::config::locate_all_spec(locs, dir, fs) == Ok::<Seq<ApplicatorView>, ErrorView>(apps));
    assert(apps.len() == 1);
    let app = apps[0];
    assert(app.path == abs);
    assert(app.writer == WriterView::JsonSelector(sel));
    let c1 = json_pretty(json_written_doc(filters, dir, v, fs)).push('\n');
    assert(json_replace(d, keys, json_new_value(v)) == JsonEdit::Done(json_written_doc(filters, dir, v, fs)));
    assert(json_write(abs, c, sel, v) == Ok::<Seq<char>, ErrorView>(c1));
    assert(write_spec(app.writer, abs, c, app.old_value, v) == Ok::<Seq<char>, ErrorView>(c1));
    assert(apply_spec(app, v, fs) == Ok::<FilesView, ErrorView>(ws_write(fs, abs, c1)));
    assert(apps.drop_first() =~= Seq::<ApplicatorView>::empty());
    assert(apply_all(apps.drop_first(), v, ws_write(fs, abs, c1)) == (ws_write(fs, abs, c1), None::<ErrorView>));
    assert(apply_all(apps, v, fs) == (ws_write(fs, abs, c1), None::<ErrorView>));
}

/// Running a JSON locator twice changes nothing more than running it once: the second run
/// finds the path again, now holding the new value, and replaces it by itself. It needs the
/// file to parse, the selector's path to exist, and `serde_json` to read back the document it
/// wrote.
pub proof fn law_json_run_idempotent(filters: Seq<FilterView>, dir: Seq<char>, v: Seq<char>, fs: FilesView)
    requires
        filters.len() > 0,
        filters[0] is JsonFile,
        json_target_doc(filters, dir, fs) is Some,
        selector_keys(filters[0]->JsonFile_selector).len() > 0,
        json_lookup(json_target_doc(filters, dir, fs).unwrap(), selector_keys(filters[0]->JsonFile_selector)) is Ok,
        json_parse(json_pretty(json_written_doc(filters, dir, v, fs)).push('\n')) == Some(
            json_written_doc(filters, dir, v, fs),
        ),
    ensures
        ({
            let once = write_entry(seq![filters], v, dir, fs);
            &&& once.1 is None
            &&& write_entry(seq![filters], v, dir, once.0) == once
        }),
{
    let abs = resolve_path(dir, filters[0]->JsonFile_path);
    let d = json_target_doc(filters, dir, fs).unwrap();
    let keys = selector_keys(filters[0]->JsonFile_selector);
    let nv = json_new_value(v);
    lemma_json_write(filters, dir, v, fs);
    lemma_replace_existing(d, keys, nv);
    let d1 = json_written_doc(filters, dir, v, fs);
    let c1 = json_pretty(d1).push('\n');
    let fs1 = ws_write(fs, abs, c1);
    lemma_read_write(fs, abs, c1);
    assert(json_target_doc(filters, dir, fs1) == Some(d1));
    assert(json_lookup(d1, keys) == Ok::<JsonView, Seq<char>>(nv));
    lemma_replace_same(d1, keys, nv);
    assert(json_written_doc(filters, dir, v, fs1) == d1);
    lemma_json_write(filters, dir, v, fs1);
    lemma_write_write(fs, abs, c1, c1);
}

/// Restoring after a run gives back the original document, when the selector's path held the
/// base value: the run replaces it by the new value and the restore puts the base value back.
/// The file then holds the original document as `serde_json` writes it. It needs the file to
/// parse and `serde_json` to read back the document the run wrote.
pub proof fn law_json_restore_after_run(filters: Seq<FilterView>, dir: Seq<char>, v: Seq<char>, base: Seq<char>, fs: FilesView)
    requires
        filters.len() > 0,
        filters[0] is JsonFile,
        json_target_doc(filters, dir, fs) is Some,
        selector_keys(filters[0]->JsonFile_selector).len() > 0,
        json_lookup(json_target_doc(filters, dir, fs).unwrap(), selector_keys(filters[0]->JsonFile_selector))
            == Ok::<JsonView, Seq<char>>(json_new_value(base)),
        json_parse(json_pretty(json_written_doc(filters, dir, v, fs)).push('\n')) == Some(
            json_written_doc(filters, dir, v, fs),
        ),
    ensures
        ({
            let once = write_entry(seq![filters], v, dir, fs);
            &&& once.1 is None
            &&& write_entry(seq![filters], base, dir, once.0) == (
                ws_write(
                    fs,
                    resolve_path(dir, filters[0]->JsonFile_path),
                    json_pretty(json_target_doc(filters, dir, fs).unwrap()).push('\n'),
                ),
                None::<ErrorView>,
            )
        }),
{
    let abs = resolve_path(dir, filters[0]->JsonFile_path);
    let d = json_target_doc(filters, dir, fs).unwrap();
    let keys = selector_keys(filters[0]->JsonFile_selector);
    let nv = json_new_value(v);
    let nb = json_new_value(base);
    lemma_json_write(filters, dir, v, fs);
    lemma_replace_existing(d, keys, nv);
    let d1 = json_written_doc(filters, dir, v, fs);
    let c1 = json_pretty(d1).push('\n');
    let fs1 = ws_write(fs, abs, c1);
    lemma_read_write(fs, abs, c1);
    assert(json_target_doc(filters, dir, fs1) == Some(d1));
    assert(json_lookup(d1, keys) == Ok::<JsonView, Seq<char>>(nv));
    assert(json_replace(d1, keys, nb) == json_replace(d, keys, nb));
    lemma_replace_same(d, keys, nb);
    assert(json_written_doc(filters, dir, base, fs1) == d);
    lemma_json_write(filters, dir, base, fs1);
    lemma_write_write(fs, abs, c1, json_pretty(d).push('\n'));
}

/// The file a locator (with at least one filter) reads and writes.
pub open spec fn loc_file(filters: Seq<FilterView>, dir: Seq<char>) -> Seq<char> {
    match filters[0] {
        FilterView::EnvFile { path, .. } => resolve_path(dir, path),
        FilterView::JsonFile { path, .. } => resolve_path(dir, path),
    }
}

/// A locator can write `v` into a file holding `c` with a result known in advance: for a
/// dotenv file, writing keeps the pieces well formed; for a JSON file, the document parses
/// and the selector's path exists.
pub open spec fn loc_ready(filters: Seq<FilterView>, v: Seq<char>, c: Seq<char>) -> bool {
    match filters[0] {
        FilterView::EnvFile { variable, .. } => env_write_keeps_shape(pieces(c), env_prefix(variable), v),
        FilterView::JsonFile { selector, .. } => {
            &&& json_parse(c) is Some
            &&& selector_keys(selector).len() > 0
            &&& json_lookup(json_parse(c).unwrap(), selector_keys(selector)) is Ok
        },
    }
}

/// The content a ready locator writes into a file holding `c`.
pub open spec fn loc_result(filters: Seq<FilterView>, v: Seq<char>, c: Seq<char>) -> Seq<char> {
    match filters[0] {
        FilterView::EnvFile { variable, .. } => written_upto(
            pieces(c),
            env_prefix(variable),
            v,
            pieces(c).len() as int,
        ).flatten(),
        FilterView::JsonFile { selector, .. } => json_pretty(
            json_replace(json_parse(c).unwrap(), selector_keys(selector), json_new_value(v))->Done_0,
        ).push('\n'),
    }
}

/// Writing `v` into a file holding `c` changes nothing.
pub open spec fn loc_fixed(filters: Seq<FilterView>, v: Seq<char>, c: Seq<char>) -> bool {
    loc_ready(filters, v, c) && loc_result(filters, v, c) == c
}

/// The file holding `c` shows `v` wherever the locator looks: every line assigning its dotenv
/// variable `x` reads `x=v`; at its JSON selector's path, the document holds the JSON that `v`
/// stands for.
pub open spec fn loc_holds(filters: Seq<FilterView>, v: Seq<char>, c: Seq<char>) -> bool {
    match filters[0] {
        FilterView::EnvFile { variable, .. } => forall|i: int|
            0 <= i < lines(c).len() && starts_with(#[trigger] lines(c)[i], env_prefix(variable)) ==> lines(c)[i].skip(
                env_prefix(variable).len() as int,
            ) == v,
        FilterView::JsonFile { selector, .. } => {
            &&& json_parse(c) is Some
            &&& selector_keys(selector).len() > 0
            &&& json_lookup(json_parse(c).unwrap(), selector_keys(selector)) == Ok::<JsonView, Seq<char>>(json_new_value(v))
        },
    }
}

/// What a locator shows as the value of each of its targets once `v` is written there: `v`
/// itself in a dotenv line; at a JSON selector's path, the JSON that `v` stands for, written
/// compactly.
pub open spec fn shown_value(filters: Seq<FilterView>, v: Seq<char>) -> Seq<char> {
    match filters[0] {
        FilterView::EnvFile { .. } => v,
        FilterView::JsonFile { .. } => json_compact(json_new_value(v)),
    }
}

/// The locator finds its targets in `fs`, and each of them shows `v` as its value.
pub open spec fn finds_value(filters: Seq<FilterView>, dir: Seq<char>, v: Seq<char>, fs: FilesView) -> bool {
    match locate_spec(filters, dir, fs) {
        Ok(apps) => forall|j: int| 0 <= j < apps.len() ==> (#[trigger] apps[j]).old_value == shown_value(filters, v),
        Err(_) => false,
    }
}

/// A file that shows `v` wherever a locator looks gives the locator targets that show `v`.
pub proof fn lemma_holds_finds(filters: Seq<FilterView>, dir: Seq<char>, v: Seq<char>, fs: FilesView)
    requires
        filters.len() > 0,
        ws_read(fs, loc_file(filters, dir)) is Some,
        loc_holds(filters, v, ws_read(fs, loc_file(filters, dir)).unwrap()),
    ensures
        finds_value(filters, dir, v, fs),
{
    let c = ws_read(fs, loc_file(filters, dir)).unwrap();
    match filters[0] {
        FilterView::EnvFile { path, variable } => {
            let abs = resolve_path(dir, path);
            let prefix = env_prefix(variable);
            let pred = |e: (int, Seq<char>)| starts_with(e.1, prefix);
            let nl = numbered_lines(c);
            let asg = env_assignments(c, variable);
            let apps = env_applicators(abs, c, variable);
            assert(asg == nl.filter(pred));
            assert forall|j: int| 0 <= j < apps.len() implies (#[trigger] apps[j]).old_value == v by {
                let e = asg[j];
                nl.lemma_filter_pred(pred, j);
                assert(asg.contains(e));
                nl.lemma_filter_contains_rev(pred, e);
                let i = choose|i: int| 0 <= i < nl.len() && nl[i] == e;
                assert(nl[i] == (i + 1, lines(c)[i]));
                assert(starts_with(lines(c)[i], prefix));
                assert(prefix.len() == variable.len() + 1);
            }
        },
        FilterView::JsonFile { path, selector } => {},
    }
}

/// A dotenv locator whose write leaves the file as it was finds `x=v` in every assignment.
pub proof fn lemma_env_fixed_holds(filters: Seq<FilterView>, v: Seq<char>, c: Seq<char>)
    requires
        filters.len() > 0,
        filters[0] is EnvFile,
        loc_fixed(filters, v, c),
    ensures
        loc_holds(filters, v, c),
{
    reveal(written_piece);
    let x = filters[0]->EnvFile_variable;
    let prefix = env_prefix(x);
    let ps = pieces(c);
    let n = ps.len() as int;
    let w = written_upto(ps, prefix, v, n);
    lemma_pieces_wf(c);
    lemma_written_upto_wf(ps, prefix, v, n);
    lemma_pieces_of_flatten(w);
    assert(ps == w);
    assert forall|i: int| 0 <= i < lines(c).len() && starts_with(#[trigger] lines(c)[i], prefix) implies lines(c)[i].skip(
        prefix.len() as int,
    ) == v by {
        let p = ps[i];
        let b = line_body(p);
        assert(lines(c)[i] == b);
        assert(env_matched(p, prefix));
        assert(w[i] == written_piece(p, prefix, v));
        lemma_piece_parts(p);
        assert(prefix + v + line_ending(p) == b + line_ending(p));
        assert(b =~= (b + line_ending(p)).take(b.len() as int));
        assert(prefix + v =~= (prefix + v + line_ending(p)).take(b.len() as int));
        assert(b.skip(prefix.len() as int) =~= v);
    }
}

/// What a locator needs of the file holding `c` for writing `v` to settle it: for a dotenv
/// file, `v` holds no newline or carriage return; for a JSON file, the document parses, the path exists, and `serde_json` reads back
/// the document it writes.
pub open spec fn loc_settles(filters: Seq<FilterView>, v: Seq<char>, c: Seq<char>) -> bool {
    match filters[0] {
        FilterView::EnvFile { .. } => line_safe(v),
        FilterView::JsonFile { selector, .. } => {
            &&& loc_ready(filters, v, c)
            &&& json_parse(loc_result(filters, v, c)) == Some(
                json_replace(json_parse(c).unwrap(), selector_keys(selector), json_new_value(v))->Done_0,
            )
        },
    }
}

/// A ready locator writes its result into its file, and nothing else.
pub proof fn lemma_loc_write(filters: Seq<FilterView>, dir: Seq<char>, v: Seq<char>, fs: FilesView)
    requires
        filters.len() > 0,
        ws_read(fs, loc_file(filters, dir)) is Some,
        loc_ready(filters, v, ws_read(fs, loc_file(filters, dir)).unwrap()),
    ensures
        write_entry(seq![filters], v, dir, fs) == (
            ws_write(fs, loc_file(filters, dir), loc_result(filters, v, ws_read(fs, loc_file(filters, dir)).unwrap())),
            None::<ErrorView>,
        ),
{
    match filters[0] {
        FilterView::EnvFile { .. } => {
            lemma_env_write(filters, dir, v, fs);
        },
        FilterView::JsonFile { .. } => {
            lemma_json_write(filters, dir, v, fs);
        },
    }
}

/// A locator that settles a file is ready for it, and its result is a fixed point.
pub proof fn lemma_loc_settles(filters: Seq<FilterView>, v: Seq<char>, c: Seq<char>)
    requires
        filters.len() > 0,
        loc_settles(filters, v, c),
    ensures
        loc_ready(filters, v, c),
        loc_fixed(filters, v, loc_result(filters, v, c)),
{
    match filters[0] {
        FilterView::EnvFile { variable, .. } => {
            lemma_assignments_keep_shape(c, variable, v);
            lemma_rewrite_fixed(c, variable, v);
        },
        FilterView::JsonFile { selector, .. } => {
            let d = json_parse(c).unwrap();
            let keys = selector_keys(selector);
            let nv = json_new_value(v);
            lemma_replace_existing(d, keys, nv);
            let d1 = json_replace(d, keys, nv)->Done_0;
            assert(json_lookup(d1, keys) == Ok::<JsonView, Seq<char>>(nv));
            lemma_replace_same(d1, keys, nv);
        },
    }
}

/// An entry whose locators all find their files already holding what they would write:
/// writing changes nothing.
proof fn lemma_entry_fixed(locs: Seq<Seq<FilterView>>, dir: Seq<char>, v: Seq<char>, fs: FilesView)
    requires
        forall|i: int| 0 <= i < locs.len() ==> #[trigger] locs[i].len() > 0,
        forall|i: int|
            0 <= i < locs.len() ==> {
                &&& ws_read(fs, loc_file(#[trigger] locs[i], dir)) is Some
                &&& loc_fixed(locs[i], v, ws_read(fs, loc_file(locs[i], dir)).unwrap())
            },
    ensures
        write_entry(locs, v, dir, fs) == (fs, None::<ErrorView>),
    decreases locs.len(),
{
    if locs.len() == 0 {
        assert(crate::config::locate_all_spec(locs, dir, fs) == Ok::<Seq<ApplicatorView>, ErrorView>(seq![]));
    } else {
        let l0 = locs[0];
        let rest = locs.drop_first();
        let f0 = loc_file(l0, dir);
        let c0 = ws_read(fs, f0).unwrap();
        lemma_loc_write(l0, dir, v, fs);
        lemma_write_same(fs, f0, c0);
        let one = seq![l0];
        assert(one.drop_first() =~= Seq::<Seq<FilterView>>::empty());
        assert(one[0] == l0);
        assert(crate::config::locate_all_spec(one.drop_first(), dir, fs) == Ok::<Seq<ApplicatorView>, ErrorView>(seq![]));
        assert(crate::config::locate_all_spec(one, dir, fs) is Ok);
        assert(locate_spec(l0, dir, fs) is Ok);
        let a0 = locate_spec(l0, dir, fs)->Ok_0;
        assert(crate::config::locate_all_spec(one, dir, fs) == Ok::<Seq<ApplicatorView>, ErrorView>(a0 + seq![]));
        assert(a0 + Seq::<ApplicatorView>::empty() =~= a0);
        assert(apply_all(a0, v, fs) == (fs, None::<ErrorView>));
        assert forall|i: int| 0 <= i < rest.len() implies {
            &&& ws_read(fs, loc_file(#[trigger] rest[i], dir)) is Some
            &&& loc_fixed(rest[i], v, ws_read(fs, loc_file(rest[i], dir)).unwrap())
        } by {
            assert(rest[i] == locs[i + 1]);
        }
        assert forall|i: int| 0 <= i < rest.len() implies #[trigger] rest[i].len() > 0 by {
            assert(rest[i] == locs[i + 1]);
        }
        lemma_entry_fixed(rest, dir, v, fs);
        let b = crate::config::locate_all_spec(rest, dir, fs)->Ok_0;
        assert(crate::config::locate_all_spec(locs, dir, fs) == Ok::<Seq<ApplicatorView>, ErrorView>(a0 + b));
        lemma_apply_all_concat(a0, b, v, fs);
    }
}

/// A sequence of entry writes, as `run` and `restore` make them: each entry's locators with
/// the value written through them; the first error stops the sequence.
pub open spec fn write_plan(plan: Seq<(Seq<Seq<FilterView>>, Seq<char>)>, dir: Seq<char>, fs: FilesView) -> (
    FilesView,
    Option<ErrorView>,
)
    decreases plan.len(),
{
    if plan.len() == 0 {
        (fs, None)
    } else {
        let step = write_entry(plan[0].0, plan[0].1, dir, fs);
        match step.1 {
            Some(e) => step,
            None => write_plan(plan.drop_first(), dir, step.0),
        }
    }
}

/// The entry writes of `run`: each entry's locators with its override value.
pub open spec fn run_plan(cfg: CfgView, worktree: Seq<char>) -> Seq<(Seq<Seq<FilterView>>, Seq<char>)> {
    cfg.map_values(|e: (Seq<char>, EntryView)| (e.1.locate, override_value(e.1.overrider, worktree, e.0)))
}

/// Every entry has a base value.
pub open spec fn has_bases(cfg: CfgView) -> bool {
    forall|k: int| 0 <= k < cfg.len() ==> (#[trigger] cfg[k]).1.base is Some
}

/// The entry writes of `restore`: each entry's locators with its base value.
pub open spec fn restore_plan(cfg: CfgView) -> Seq<(Seq<Seq<FilterView>>, Seq<char>)> {
    cfg.map_values(|e: (Seq<char>, EntryView)| (e.1.locate, e.1.base.unwrap()))
}

/// Every locator of a plan with the value written through it, entry by entry.
pub open spec fn plan_writes(plan: Seq<(Seq<Seq<FilterView>>, Seq<char>)>) -> Seq<(Seq<FilterView>, Seq<char>)>
    decreases plan.len(),
{
    if plan.len() == 0 {
        seq![]
    } else {
        plan[0].0.map_values(|l: Seq<FilterView>| (l, plan[0].1)) + plan_writes(plan.drop_first())
    }
}

/// Every locator of a configuration with the value `run` writes through it.
pub open spec fn cfg_writes(cfg: CfgView, worktree: Seq<char>) -> Seq<(Seq<FilterView>, Seq<char>)> {
    plan_writes(run_plan(cfg, worktree))
}

/// Every locator of a configuration with the value `restore` writes through it.
pub open spec fn restore_writes(cfg: CfgView) -> Seq<(Seq<FilterView>, Seq<char>)> {
    plan_writes(restore_plan(cfg))
}

/// `run` is the write of its plan.
proof fn lemma_run_plan(cfg: CfgView, dir: Seq<char>, worktree: Seq<char>, fs: FilesView)
    ensures
        run_spec(cfg, dir, worktree, fs) == write_plan(run_plan(cfg, worktree), dir, fs),
    decreases cfg.len(),
{
    if cfg.len() > 0 {
        let p = run_plan(cfg, worktree);
        assert(p.drop_first() =~= run_plan(cfg.drop_first(), worktree));
        let step = write_entry(p[0].0, p[0].1, dir, fs);
        lemma_run_plan(cfg.drop_first(), dir, worktree, step.0);
    }
}

/// `restore` over a configuration whose entries all have a base value is the write of its plan.
proof fn lemma_restore_plan(cfg: CfgView, dir: Seq<char>, fs: FilesView)
    requires
        has_bases(cfg),
    ensures
        restore_spec(cfg, dir, fs) == write_plan(restore_plan(cfg), dir, fs),
    decreases cfg.len(),
{
    if cfg.len() > 0 {
        let p = restore_plan(cfg);
        assert(cfg[0].1.base is Some);
        assert(p.drop_first() =~= restore_plan(cfg.drop_first()));
        assert(has_bases(cfg.drop_first())) by {
            assert forall|k: int| 0 <= k < cfg.drop_first().len() implies (#[trigger] cfg.drop_first()[k]).1.base is Some by {
                assert(cfg.drop_first()[k] == cfg[k + 1]);
            }
        }
        let step = write_entry(p[0].0, p[0].1, dir, fs);
        lemma_restore_plan(cfg.drop_first(), dir, step.0);
    }
}

/// The writes of a plan: those of its first entry, then those of the rest.
pub proof fn lemma_plan_writes_shape(plan: Seq<(Seq<Seq<FilterView>>, Seq<char>)>)
    requires
        plan.len() > 0,
    ensures
        ({
            let w = plan_writes(plan);
            let n = plan[0].0.len();
            let rest = plan_writes(plan.drop_first());
            &&& w.len() == n + rest.len()
            &&& forall|i: int| 0 <= i < n ==> #[trigger] w[i] == (plan[0].0[i], plan[0].1)
            &&& forall|i: int| 0 <= i < rest.len() ==> #[trigger] w[n + i] == rest[i]
        }),
{
    let w = plan_writes(plan);
    let n = plan[0].0.len() as int;
    let first = plan[0].0.map_values(|l: Seq<FilterView>| (l, plan[0].1));
    let rest = plan_writes(plan.drop_first());
    assert(w == first + rest);
    assert forall|i: int| 0 <= i < n implies #[trigger] w[i] == (plan[0].0[i], plan[0].1) by {
        assert(w[i] == first[i]);
    }
    assert forall|i: int| 0 <= i < rest.len() implies #[trigger] w[n + i] == rest[i] by {
        assert(w[n + i] == rest[i]);
    }
}

/// Two plans with the same locators, entry by entry, write through the same locators.
proof fn lemma_same_locs(p1: Seq<(Seq<Seq<FilterView>>, Seq<char>)>, p2: Seq<(Seq<Seq<FilterView>>, Seq<char>)>)
    requires
        p1.len() == p2.len(),
        forall|k: int| 0 <= k < p1.len() ==> #[trigger] p1[k].0 == p2[k].0,
    ensures
        plan_writes(p1).len() == plan_writes(p2).len(),
        forall|i: int| 0 <= i < plan_writes(p1).len() ==> #[trigger] plan_writes(p1)[i].0 == plan_writes(p2)[i].0,
    decreases p1.len(),
{
    if p1.len() > 0 {
        assert forall|k: int| 0 <= k < p1.drop_first().len() implies #[trigger] p1.drop_first()[k].0
            == p2.drop_first()[k].0 by {
            assert(p1.drop_first()[k] == p1[k + 1]);
            assert(p2.drop_first()[k] == p2[k + 1]);
        }
        lemma_same_locs(p1.drop_first(), p2.drop_first());
        lemma_plan_writes_shape(p1);
        lemma_plan_writes_shape(p2);
        let n = p1[0].0.len() as int;
        assert forall|i: int| 0 <= i < plan_writes(p1).len() implies #[trigger] plan_writes(p1)[i].0
            == plan_writes(p2)[i].0 by {
            if i >= n {
                assert(plan_writes(p1)[n + (i - n)] == plan_writes(p1.drop_first())[i - n]);
                assert(plan_writes(p2)[n + (i - n)] == plan_writes(p2.drop_first())[i - n]);
            }
        }
    }
}

/// A plan whose files all already hold what it would write changes nothing.
proof fn lemma_plan_fixed(plan: Seq<(Seq<Seq<FilterView>>, Seq<char>)>, dir: Seq<char>, fs: FilesView)
    requires
        forall|i: int| 0 <= i < plan_writes(plan).len() ==> #[trigger] plan_writes(plan)[i].0.len() > 0,
        forall|i: int|
            0 <= i < plan_writes(plan).len() ==> {
                let (l, v) = #[trigger] plan_writes(plan)[i];
                &&& ws_read(fs, loc_file(l, dir)) is Some
                &&& loc_fixed(l, v, ws_read(fs, loc_file(l, dir)).unwrap())
            },
    ensures
        write_plan(plan, dir, fs) == (fs, None::<ErrorView>),
    decreases plan.len(),
{
    if plan.len() > 0 {
        lemma_plan_writes_shape(plan);
        let locs = plan[0].0;
        let v = plan[0].1;
        let w = plan_writes(plan);
        let n = locs.len() as int;
        let rest = plan_writes(plan.drop_first());
        assert forall|i: int| 0 <= i < n implies #[trigger] locs[i].len() > 0 by {
            assert(w[i] == (locs[i], v));
        }
        assert forall|i: int| 0 <= i < n implies {
            &&& ws_read(fs, loc_file(#[trigger] locs[i], dir)) is Some
            &&& loc_fixed(locs[i], v, ws_read(fs, loc_file(locs[i], dir)).unwrap())
        } by {
            assert(w[i] == (locs[i], v));
        }
        lemma_entry_fixed(locs, dir, v, fs);
        assert forall|j: int| 0 <= j < rest.len() implies #[trigger] rest[j].0.len() > 0 by {
            assert(w[n + j] == rest[j]);
        }
        assert forall|j: int| 0 <= j < rest.len() implies {
            let (l, v2) = #[trigger] rest[j];
            &&& ws_read(fs, loc_file(l, dir)) is Some
            &&& loc_fixed(l, v2, ws_read(fs, loc_file(l, dir)).unwrap())
        } by {
            assert(w[n + j] == rest[j]);
        }
        lemma_plan_fixed(plan.drop_first(), dir, fs);
    }
}

/// Two plans through the same locators, the first's writes not getting in each other's way
/// (see `targets_compatible`), where the writes of the first and then the second can each be
/// made along the way (see `writes_along`), and so can those of the second alone: writing the
/// first and then the second succeeds, and leaves every file as writing the second alone does.
proof fn lemma_plan_pair(
    p1: Seq<(Seq<Seq<FilterView>>, Seq<char>)>,
    p2: Seq<(Seq<Seq<FilterView>>, Seq<char>)>,
    dir: Seq<char>,
    fs: FilesView,
)
    requires
        p1.len() == p2.len(),
        forall|k: int| 0 <= k < p1.len() ==> #[trigger] p1[k].0 == p2[k].0,
        targets_compatible(plan_writes(p1), dir),
        writes_along(plan_writes(p1) + plan_writes(p2), dir, fs),
        writes_along(plan_writes(p2), dir, fs),
    ensures
        ({
            let first = write_plan(p1, dir, fs);
            let both = write_plan(p2, dir, first.0);
            let second = write_plan(p2, dir, fs);
            &&& first.1 is None
            &&& both.1 is None
            &&& second.1 is None
            &&& forall|g: Seq<char>| ws_read(both.0, g) == ws_read(second.0, g)
        }),
{
    let w1 = plan_writes(p1);
    let w2 = plan_writes(p2);
    lemma_same_locs(p1, p2);
    assert(same_targets(w1, w2)) by {
        assert forall|k: int| 0 <= k < w1.len() implies (#[trigger] w1[k]).0 == w2[k].0 by {}
    }
    lemma_pair_first(w1, w2, dir, fs);
    lemma_plan_fold(p1, dir, fs);
    let first = write_plan(p1, dir, fs);
    lemma_pair_second(w1, w2, dir, fs, first.0);
    lemma_plan_fold(p2, dir, first.0);
    lemma_compat_pair(w1, w2, dir);
    lemma_compat_fold(w2, dir, fs);
    lemma_plan_fold(p2, dir, fs);
    let both = write_plan(p2, dir, first.0);
    let second = write_plan(p2, dir, fs);
    assert forall|g: Seq<char>| ws_read(both.0, g) == ws_read(second.0, g) by {
        assert(ws_read(both.0, g) == match ws_read(first.0, g) {
            Some(c) => Some(file_fold(w2, g, dir, c)),
            None => None::<Seq<char>>,
        });
        assert(ws_read(first.0, g) == match ws_read(fs, g) {
            Some(c) => Some(file_fold(w1, g, dir, c)),
            None => None::<Seq<char>>,
        });
        assert(ws_read(second.0, g) == match ws_read(fs, g) {
            Some(c) => Some(file_fold(w2, g, dir, c)),
            None => None::<Seq<char>>,
        });
        if ws_read(fs, g) is Some {
            lemma_pair_file(w1, w2, dir, fs, g);
        }
    }
}

/// A plan whose writes do not get in each other's way (see `targets_compatible`), written twice
/// over with each write able to be made along the way: both writes succeed, and the second
/// leaves every file reading as the first left it.
proof fn lemma_plan_rerun(plan: Seq<(Seq<Seq<FilterView>>, Seq<char>)>, dir: Seq<char>, fs: FilesView)
    requires
        targets_compatible(plan_writes(plan), dir),
        writes_along(plan_writes(plan) + plan_writes(plan), dir, fs),
    ensures
        ({
            let once = write_plan(plan, dir, fs);
            let again = write_plan(plan, dir, once.0);
            &&& once.1 is None
            &&& again.1 is None
            &&& forall|g: Seq<char>| ws_read(again.0, g) == ws_read(once.0, g)
        }),
{
    lemma_rerun_along(plan_writes(plan), dir, fs);
    lemma_plan_pair(plan, plan, dir, fs);
}

/// `emux run` is idempotent: when the configuration's writes do not get in each other's way
/// (see `targets_compatible`: locators may share a file, a dotenv variable or a JSON path) and
/// each write of running twice can be made into its file as the writes before it left it (see
/// `writes_along`), the first run succeeds, and a second run succeeds and leaves every file
/// reading as the first left it.
pub proof fn law_run_idempotent(cfg: CfgView, dir: Seq<char>, worktree: Seq<char>, fs: FilesView)
    requires
        targets_compatible(cfg_writes(cfg, worktree), dir),
        writes_along(cfg_writes(cfg, worktree) + cfg_writes(cfg, worktree), dir, fs),
    ensures
        ({
            let once = run_spec(cfg, dir, worktree, fs);
            let again = run_spec(cfg, dir, worktree, once.0);
            &&& once.1 is None
            &&& again.1 is None
            &&& forall|g: Seq<char>| ws_read(again.0, g) == ws_read(once.0, g)
        }),
{
    lemma_plan_rerun(run_plan(cfg, worktree), dir, fs);
    lemma_run_plan(cfg, dir, worktree, fs);
    lemma_run_plan(cfg, dir, worktree, run_spec(cfg, dir, worktree, fs).0);
}

/// `emux restore` is idempotent: when every entry has a base value, the configuration's writes
/// do not get in each other's way, and each write of restoring twice can be made into its file
/// as the writes before it left it, the first restore succeeds, and a second succeeds and
/// leaves every file reading as the first left it.
pub proof fn law_restore_idempotent(cfg: CfgView, dir: Seq<char>, fs: FilesView)
    requires
        has_bases(cfg),
        targets_compatible(restore_writes(cfg), dir),
        writes_along(restore_writes(cfg) + restore_writes(cfg), dir, fs),
    ensures
        ({
            let once = restore_spec(cfg, dir, fs);
            let again = restore_spec(cfg, dir, once.0);
            &&& once.1 is None
            &&& again.1 is None
            &&& forall|g: Seq<char>| ws_read(again.0, g) == ws_read(once.0, g)
        }),
{
    lemma_plan_rerun(restore_plan(cfg), dir, fs);
    lemma_restore_plan(cfg, dir, fs);
    lemma_restore_plan(cfg, dir, restore_spec(cfg, dir, fs).0);
}

/// Each locator of each entry of a plan is among the plan's writes, with the entry's value.
proof fn lemma_plan_writes_member(plan: Seq<(Seq<Seq<FilterView>>, Seq<char>)>, k: int, j: int)
    requires
        0 <= k < plan.len(),
        0 <= j < plan[k].0.len(),
    ensures
        exists|i: int| 0 <= i < plan_writes(plan).len() && #[trigger] plan_writes(plan)[i] == (plan[k].0[j], plan[k].1),
    decreases k,
{
    lemma_plan_writes_shape(plan);
    let n = plan[0].0.len() as int;
    if k == 0 {
        assert(plan_writes(plan)[j] == (plan[0].0[j], plan[0].1));
    } else {
        let rest = plan.drop_first();
        lemma_plan_writes_member(rest, k - 1, j);
        let i = choose|i: int| 0 <= i < plan_writes(rest).len() && #[trigger] plan_writes(rest)[i] == (rest[k - 1].0[j], rest[k - 1].1);
        assert(plan_writes(plan)[n + i] == plan_writes(rest)[i]);
    }
}

/// A plan whose writes (under `targets_distinct`) each settle their file as the writes before
/// them left it: the write succeeds, and every locator of every entry then finds the entry's
/// value at each of its targets.
proof fn lemma_plan_finds(plan: Seq<(Seq<Seq<FilterView>>, Seq<char>)>, dir: Seq<char>, fs: FilesView)
    requires
        targets_distinct(plan_writes(plan), dir),
        settles_along(plan_writes(plan), dir, fs),
    ensures
        ({
            let once = write_plan(plan, dir, fs);
            &&& once.1 is None
            &&& forall|k: int, j: int|
                0 <= k < plan.len() && 0 <= j < plan[k].0.len() ==> finds_value(#[trigger] plan[k].0[j], dir, plan[k].1, once.0)
        }),
{
    let w = plan_writes(plan);
    lemma_writes_fixed(w, dir, fs);
    lemma_plan_fold(plan, dir, fs);
    let once = write_plan(plan, dir, fs);
    assert forall|i: int| 0 <= i < w.len() implies finds_value((#[trigger] w[i]).0, dir, w[i].1, once.0) by {
        let f = loc_file(w[i].0, dir);
        assert(ws_read(fs, f) is Some);
        assert(ws_read(once.0, f) == Some(file_fold(w, f, dir, ws_read(fs, f).unwrap())));
        lemma_holds_finds(w[i].0, dir, w[i].1, once.0);
    }
    assert forall|k: int, j: int| 0 <= k < plan.len() && 0 <= j < plan[k].0.len() implies finds_value(
        #[trigger] plan[k].0[j],
        dir,
        plan[k].1,
        once.0,
    ) by {
        lemma_plan_writes_member(plan, k, j);
        let i = choose|i: int| 0 <= i < w.len() && #[trigger] w[i] == (plan[k].0[j], plan[k].1);
        assert(w[i] == w[i]);
    }
}

/// `emux run` writes each entry's override value at every located position: when no two of
/// the configuration's locators write the same place (see `targets_distinct`) and each write
/// settles its file as the writes before it left it (see `settles_along`), the run succeeds,
/// and every locator of every entry then finds, at each of its targets, the value the entry's
/// overrider gives for the worktree (see `finds_value`).
pub proof fn law_run_sets_values(cfg: CfgView, dir: Seq<char>, worktree: Seq<char>, fs: FilesView)
    requires
        targets_distinct(cfg_writes(cfg, worktree), dir),
        settles_along(cfg_writes(cfg, worktree), dir, fs),
    ensures
        ({
            let run = run_spec(cfg, dir, worktree, fs);
            &&& run.1 is None
            &&& forall|k: int, j: int|
                0 <= k < cfg.len() && 0 <= j < cfg[k].1.locate.len() ==> finds_value(
                    #[trigger] cfg[k].1.locate[j],
                    dir,
                    override_value(cfg[k].1.overrider, worktree, cfg[k].0),
                    run.0,
                )
        }),
{
    let p = run_plan(cfg, worktree);
    lemma_plan_finds(p, dir, fs);
    lemma_run_plan(cfg, dir, worktree, fs);
    assert forall|k: int, j: int| 0 <= k < cfg.len() && 0 <= j < cfg[k].1.locate.len() implies finds_value(
        #[trigger] cfg[k].1.locate[j],
        dir,
        override_value(cfg[k].1.overrider, worktree, cfg[k].0),
        run_spec(cfg, dir, worktree, fs).0,
    ) by {
        assert(p[k] == (cfg[k].1.locate, override_value(cfg[k].1.overrider, worktree, cfg[k].0)));
        assert(p[k].0[j] == cfg[k].1.locate[j]);
    }
}

/// `emux restore` returns each located value to its base: when every entry has a base value,
/// no two of the configuration's locators write the same place, and each write of a base value
/// settles its file as the writes before it left it, the restore succeeds, and every locator of
/// every entry then finds the entry's base value at each of its targets.
pub proof fn law_restore_sets_base(cfg: CfgView, dir: Seq<char>, fs: FilesView)
    requires
        has_bases(cfg),
        targets_distinct(restore_writes(cfg), dir),
        settles_along(restore_writes(cfg), dir, fs),
    ensures
        ({
            let back = restore_spec(cfg, dir, fs);
            &&& back.1 is None
            &&& forall|k: int, j: int|
                0 <= k < cfg.len() && 0 <= j < cfg[k].1.locate.len() ==> finds_value(
                    #[trigger] cfg[k].1.locate[j],
                    dir,
                    cfg[k].1.base.unwrap(),
                    back.0,
                )
        }),
{
    let p = restore_plan(cfg);
    lemma_plan_finds(p, dir, fs);
    lemma_restore_plan(cfg, dir, fs);
    assert forall|k: int, j: int| 0 <= k < cfg.len() && 0 <= j < cfg[k].1.locate.len() implies finds_value(
        #[trigger] cfg[k].1.locate[j],
        dir,
        cfg[k].1.base.unwrap(),
        restore_spec(cfg, dir, fs).0,
    ) by {
        assert(p[k] == (cfg[k].1.locate, cfg[k].1.base.unwrap()));
        assert(p[k].0[j] == cfg[k].1.locate[j]);
    }
}

/// Two plans through the same locators, the first's writes under `targets_distinct`, where the
/// writes of the first and then the second can each be made along the way (see `writes_along`),
/// and so can those of the second alone: writing the first and then the second succeeds, and
/// leaves every file as writing the second alone does.
proof fn lemma_plan_last_wins(
    p1: Seq<(Seq<Seq<FilterView>>, Seq<char>)>,
    p2: Seq<(Seq<Seq<FilterView>>, Seq<char>)>,
    dir: Seq<char>,
    fs: FilesView,
)
    requires
        p1.len() == p2.len(),
        forall|k: int| 0 <= k < p1.len() ==> #[trigger] p1[k].0 == p2[k].0,
        targets_distinct(plan_writes(p1), dir),
        writes_along(plan_writes(p1) + plan_writes(p2), dir, fs),
        writes_along(plan_writes(p2), dir, fs),
    ensures
        ({
            let first = write_plan(p1, dir, fs);
            let both = write_plan(p2, dir, first.0);
            let second = write_plan(p2, dir, fs);
            &&& first.1 is None
            &&& both.1 is None
            &&& second.1 is None
            &&& forall|g: Seq<char>| ws_read(both.0, g) == ws_read(second.0, g)
        }),
{
    let w1 = plan_writes(p1);
    let w2 = plan_writes(p2);
    lemma_same_locs(p1, p2);
    assert forall|k: int| 0 <= k < w1.len() implies (#[trigger] w1[k]).0 == w2[k].0 by {}
    lemma_twice_model(w1, w2, dir, fs);
    lemma_plan_fold(p1, dir, fs);
    let first = write_plan(p1, dir, fs);
    lemma_twice_then(w1, w2, dir, fs, first.0);
    lemma_plan_fold(p2, dir, first.0);
    lemma_plan_fold(p2, dir, fs);
    let both = write_plan(p2, dir, first.0);
    let second = write_plan(p2, dir, fs);
    assert forall|g: Seq<char>| ws_read(both.0, g) == ws_read(second.0, g) by {
        assert(ws_read(both.0, g) == match ws_read(first.0, g) {
            Some(c) => Some(file_fold(w2, g, dir, c)),
            None => None::<Seq<char>>,
        });
        assert(ws_read(first.0, g) == match ws_read(fs, g) {
            Some(c) => Some(file_fold(w1, g, dir, c)),
            None => None::<Seq<char>>,
        });
        assert(ws_read(second.0, g) == match ws_read(fs, g) {
            Some(c) => Some(file_fold(w2, g, dir, c)),
            None => None::<Seq<char>>,
        });
        if ws_read(fs, g) is Some {
            assert(ws_read(fs, g) is Some);
        }
    }
}

/// `run` and `restore` write through the same locators, in the same order.
proof fn lemma_run_restore_locs(cfg: CfgView, worktree: Seq<char>)
    ensures
        run_plan(cfg, worktree).len() == restore_plan(cfg).len(),
        forall|k: int| 0 <= k < cfg.len() ==> #[trigger] run_plan(cfg, worktree)[k].0 == restore_plan(cfg)[k].0,
        cfg_writes(cfg, worktree).len() == restore_writes(cfg).len(),
        forall|i: int| 0 <= i < cfg_writes(cfg, worktree).len() ==> #[trigger] cfg_writes(cfg, worktree)[i].0
            == restore_writes(cfg)[i].0,
{
    let p1 = run_plan(cfg, worktree);
    let p2 = restore_plan(cfg);
    assert forall|k: int| 0 <= k < p1.len() implies #[trigger] p1[k].0 == p2[k].0 by {}
    lemma_same_locs(p1, p2);
}

/// Restoring after a run: when every entry has a base value, the configuration's writes do not
/// get in each other's way (see `targets_compatible`: locators may share a file, a dotenv
/// variable or a JSON path), and each write of the run and then the restore, and of the
/// restore alone, can be made into its file as the writes before it left it and settles it
/// there for the writes after it (see `writes_along`), the run and the restore after it
/// succeed, and every file then reads as a restore alone leaves it. Where every file already
/// held its base values (restoring it changes nothing), every file reads as it did before the
/// run.
pub proof fn law_restore_after_run(cfg: CfgView, dir: Seq<char>, worktree: Seq<char>, fs: FilesView)
    requires
        has_bases(cfg),
        targets_compatible(cfg_writes(cfg, worktree), dir),
        writes_along(cfg_writes(cfg, worktree) + restore_writes(cfg), dir, fs),
        writes_along(restore_writes(cfg), dir, fs),
    ensures
        ({
            let run = run_spec(cfg, dir, worktree, fs);
            let back = restore_spec(cfg, dir, run.0);
            let alone = restore_spec(cfg, dir, fs);
            &&& run.1 is None
            &&& back.1 is None
            &&& alone.1 is None
            &&& forall|g: Seq<char>| ws_read(back.0, g) == ws_read(alone.0, g)
            &&& (forall|i: int|
                0 <= i < restore_writes(cfg).len() ==> {
                    let (l, b) = #[trigger] restore_writes(cfg)[i];
                    loc_fixed(l, b, ws_read(fs, loc_file(l, dir)).unwrap())
                }) ==> forall|g: Seq<char>| ws_read(back.0, g) == ws_read(fs, g)
        }),
{
    lemma_run_restore_locs(cfg, worktree);
    lemma_plan_pair(run_plan(cfg, worktree), restore_plan(cfg), dir, fs);
    lemma_run_plan(cfg, dir, worktree, fs);
    let run = run_spec(cfg, dir, worktree, fs);
    lemma_restore_plan(cfg, dir, run.0);
    lemma_restore_plan(cfg, dir, fs);
    let w = restore_writes(cfg);
    if forall|i: int|
        0 <= i < w.len() ==> {
            let (l, b) = #[trigger] w[i];
            loc_fixed(l, b, ws_read(fs, loc_file(l, dir)).unwrap())
        } {
        assert forall|i: int| 0 <= i < w.len() implies #[trigger] w[i].0.len() > 0 by {
            assert(cfg_writes(cfg, worktree)[i].0 == w[i].0);
            assert(cfg_writes(cfg, worktree)[i] == cfg_writes(cfg, worktree)[i]);
        }
        assert forall|i: int| 0 <= i < w.len() implies {
            let (l, b) = #[trigger] w[i];
            &&& ws_read(fs, loc_file(l, dir)) is Some
            &&& loc_fixed(l, b, ws_read(fs, loc_file(l, dir)).unwrap())
        } by {
            assert(cfg_writes(cfg, worktree)[i].0 == w[i].0);
        }
        lemma_plan_fixed(restore_plan(cfg), dir, fs);
    }
}

/// Restoring after a run finds the base values again: when every entry has a base value, no
/// two of the configuration's locators write the same place (see `targets_distinct`; where two
/// do, the later base value wins there), each write of the run and then the restore, and of
/// the restore alone, can be made along the way (see `writes_along`), and each write of a base
/// value settles its file (see `settles_along`), the run and the restore after it succeed, and
/// every locator of every entry then finds its base value.
pub proof fn law_restore_after_run_finds_bases(cfg: CfgView, dir: Seq<char>, worktree: Seq<char>, fs: FilesView)
    requires
        has_bases(cfg),
        targets_distinct(cfg_writes(cfg, worktree), dir),
        writes_along(cfg_writes(cfg, worktree) + restore_writes(cfg), dir, fs),
        writes_along(restore_writes(cfg), dir, fs),
        settles_along(restore_writes(cfg), dir, fs),
    ensures
        ({
            let run = run_spec(cfg, dir, worktree, fs);
            let back = restore_spec(cfg, dir, run.0);
            &&& run.1 is None
            &&& back.1 is None
            &&& forall|k: int, j: int|
                0 <= k < cfg.len() && 0 <= j < cfg[k].1.locate.len() ==> finds_value(
                    #[trigger] cfg[k].1.locate[j],
                    dir,
                    cfg[k].1.base.unwrap(),
                    back.0,
                )
        }),
{
    lemma_run_restore_locs(cfg, worktree);
    lemma_plan_last_wins(run_plan(cfg, worktree), restore_plan(cfg), dir, fs);
    lemma_twice_model(cfg_writes(cfg, worktree), restore_writes(cfg), dir, fs);
    law_restore_sets_base(cfg, dir, fs);
    let run = run_spec(cfg, dir, worktree, fs);
    lemma_run_plan(cfg, dir, worktree, fs);
    lemma_restore_plan(cfg, dir, run.0);
    lemma_restore_plan(cfg, dir, fs);
    let back = restore_spec(cfg, dir, run.0);
    let alone = restore_spec(cfg, dir, fs);
    assert forall|k: int, j: int| 0 <= k < cfg.len() && 0 <= j < cfg[k].1.locate.len() implies finds_value(
        #[trigger] cfg[k].1.locate[j],
        dir,
        cfg[k].1.base.unwrap(),
        back.0,
    ) by {
        let l = cfg[k].1.locate[j];
        assert(finds_value(l, dir, cfg[k].1.base.unwrap(), alone.0));
        if l.len() > 0 {
            assert(ws_read(back.0, loc_file(l, dir)) == ws_read(alone.0, loc_file(l, dir)));
        }
        assert(locate_spec(l, dir, back.0) == locate_spec(l, dir, alone.0));
    }
}

/// Running after a restore: when every entry has a base value, the configuration's writes do
/// not get in each other's way (see `targets_compatible`), and each write of the restore and
/// then the run, and of the run alone, can be made into its file as the writes before it left
/// it and settles it there for the writes after it (see `writes_along`), the restore and the
/// run after it succeed, and every file then reads as a run alone leaves it.
pub proof fn law_run_after_restore(cfg: CfgView, dir: Seq<char>, worktree: Seq<char>, fs: FilesView)
    requires
        has_bases(cfg),
        targets_compatible(restore_writes(cfg), dir),
        writes_along(restore_writes(cfg) + cfg_writes(cfg, worktree), dir, fs),
        writes_along(cfg_writes(cfg, worktree), dir, fs),
    ensures
        ({
            let restored = restore_spec(cfg, dir, fs);
            let again = run_spec(cfg, dir, worktree, restored.0);
            let alone = run_spec(cfg, dir, worktree, fs);
            &&& restored.1 is None
            &&& again.1 is None
            &&& alone.1 is None
            &&& forall|g: Seq<char>| ws_read(again.0, g) == ws_read(alone.0, g)
        }),
{
    lemma_run_restore_locs(cfg, worktree);
    let p1 = restore_plan(cfg);
    let p2 = run_plan(cfg, worktree);
    assert forall|k: int| 0 <= k < p1.len() implies #[trigger] p1[k].0 == p2[k].0 by {
        assert(p2[k].0 == p1[k].0);
    }
    lemma_plan_pair(p1, p2, dir, fs);
    lemma_restore_plan(cfg, dir, fs);
    let restored = restore_spec(cfg, dir, fs);
    lemma_run_plan(cfg, dir, worktree, restored.0);
    lemma_run_plan(cfg, dir, worktree, fs);
}

/// A plan none of whose entries finds a target writes nothing, and succeeds.
proof fn lemma_plan_no_targets(plan: Seq<(Seq<Seq<FilterView>>, Seq<char>)>, dir: Seq<char>, fs: FilesView)
    requires
        forall|k: int| 0 <= k < plan.len() ==> locate_all_spec(#[trigger] plan[k].0, dir, fs) == Ok::<Seq<ApplicatorView>, ErrorView>(seq![]),
    ensures
        write_plan(plan, dir, fs) == (fs, None::<ErrorView>),
    decreases plan.len(),
{
    if plan.len() > 0 {
        assert(locate_all_spec(plan[0].0, dir, fs) == Ok::<Seq<ApplicatorView>, ErrorView>(seq![]));
        assert(apply_all(seq![], plan[0].1, fs) == (fs, None::<ErrorView>));
        assert forall|k: int| 0 <= k < plan.drop_first().len() implies locate_all_spec(
            #[trigger] plan.drop_first()[k].0,
            dir,
            fs,
        ) == Ok::<Seq<ApplicatorView>, ErrorView>(seq![]) by {
            assert(plan.drop_first()[k] == plan[k + 1]);
        }
        lemma_plan_no_targets(plan.drop_first(), dir, fs);
    }
}

/// Zero located positions is no error: when no locator of any entry finds a target (a dotenv
/// variable assigned nowhere, say), `run` succeeds and changes nothing, and so does `restore`
/// when every entry has a base value.
pub proof fn law_no_targets_no_op(cfg: CfgView, dir: Seq<char>, worktree: Seq<char>, fs: FilesView)
    requires
        forall|k: int| 0 <= k < cfg.len() ==> locate_all_spec((#[trigger] cfg[k]).1.locate, dir, fs) == Ok::<
            Seq<ApplicatorView>,
            ErrorView,
        >(seq![]),
    ensures
        run_spec(cfg, dir, worktree, fs) == (fs, None::<ErrorView>),
        has_bases(cfg) ==> restore_spec(cfg, dir, fs) == (fs, None::<ErrorView>),
{
    let p1 = run_plan(cfg, worktree);
    assert forall|k: int| 0 <= k < p1.len() implies locate_all_spec(#[trigger] p1[k].0, dir, fs) == Ok::<
        Seq<ApplicatorView>,
        ErrorView,
    >(seq![]) by {
        assert(p1[k].0 == cfg[k].1.locate);
    }
    lemma_plan_no_targets(p1, dir, fs);
    lemma_run_plan(cfg, dir, worktree, fs);
    if has_bases(cfg) {
        let p2 = restore_plan(cfg);
        assert forall|k: int| 0 <= k < p2.len() implies locate_all_spec(#[trigger] p2[k].0, dir, fs) == Ok::<
            Seq<ApplicatorView>,
            ErrorView,
        >(seq![]) by {
            assert(p2[k].0 == cfg[k].1.locate);
        }
        lemma_plan_no_targets(p2, dir, fs);
        lemma_restore_plan(cfg, dir, fs);
    }
}

/// `run` does not read base values: two configurations that differ only in them run alike.
pub proof fn law_run_ignores_base(cfg1: CfgView, cfg2: CfgView, dir: Seq<char>, worktree: Seq<char>, fs: FilesView)
    requires
        cfg1.len() == cfg2.len(),
        forall|k: int|
            0 <= k < cfg1.len() ==> {
                &&& (#[trigger] cfg1[k]).0 == cfg2[k].0
                &&& cfg1[k].1.locate == cfg2[k].1.locate
                &&& cfg1[k].1.overrider == cfg2[k].1.overrider
            },
    ensures
        run_spec(cfg1, dir, worktree, fs) == run_spec(cfg2, dir, worktree, fs),
{
    assert(run_plan(cfg1, worktree) =~= run_plan(cfg2, worktree));
    lemma_run_plan(cfg1, dir, worktree, fs);
    lemma_run_plan(cfg2, dir, worktree, fs);
}

/// `a` is a target that the locator `l` finds in `fs`.
pub open spec fn located_by(a: ApplicatorView, l: Seq<FilterView>, dir: Seq<char>, fs: FilesView) -> bool {
    locate_spec(l, dir, fs) matches Ok(apps) && apps.contains(a)
}

/// A diff line shows the target `a` and the line written there with `v`: the first
/// occurrence of the old value replaced.
pub open spec fn previews(d: DiffView, a: ApplicatorView, v: Seq<char>) -> bool {
    &&& d.path == a.path
    &&& d.line_number == a.line_number
    &&& d.new_line == new_line_of(a, v)
}

/// The index of the locator that finds the `m`-th target of `locate_all_spec(locs, ..)`.
pub open spec fn locate_owner(locs: Seq<Seq<FilterView>>, dir: Seq<char>, fs: FilesView, m: int) -> int
    decreases locs.len(),
{
    if locs.len() == 0 {
        0
    } else if m < locate_spec(locs[0], dir, fs)->Ok_0.len() {
        0
    } else {
        1 + locate_owner(locs.drop_first(), dir, fs, m - locate_spec(locs[0], dir, fs)->Ok_0.len())
    }
}

/// Every target that locators find together is one that one of them finds.
proof fn lemma_locate_all_members(locs: Seq<Seq<FilterView>>, dir: Seq<char>, fs: FilesView)
    requires
        forall|t: int| 0 <= t < locs.len() ==> #[trigger] locate_spec(locs[t], dir, fs) is Ok,
    ensures
        locate_all_spec(locs, dir, fs) is Ok,
        forall|m: int|
            0 <= m < locate_all_spec(locs, dir, fs)->Ok_0.len() ==> {
                let t = #[trigger] locate_owner(locs, dir, fs, m);
                &&& 0 <= t < locs.len()
                &&& located_by(locate_all_spec(locs, dir, fs)->Ok_0[m], locs[t], dir, fs)
            },
    decreases locs.len(),
{
    if locs.len() > 0 {
        let rest = locs.drop_first();
        assert forall|t: int| 0 <= t < rest.len() implies #[trigger] locate_spec(rest[t], dir, fs) is Ok by {
            assert(rest[t] == locs[t + 1]);
        }
        assert(locate_spec(locs[0], dir, fs) is Ok);
        lemma_locate_all_members(rest, dir, fs);
        let a = locate_spec(locs[0], dir, fs)->Ok_0;
        let b = locate_all_spec(rest, dir, fs)->Ok_0;
        let all = locate_all_spec(locs, dir, fs)->Ok_0;
        assert(all == a + b);
        assert forall|m: int| 0 <= m < all.len() implies {
            let t = #[trigger] locate_owner(locs, dir, fs, m);
            &&& 0 <= t < locs.len()
            &&& located_by(all[m], locs[t], dir, fs)
        } by {
            if m < a.len() {
                assert(all[m] == a[m]);
                assert(a.contains(a[m]));
            } else {
                assert(all[m] == b[m - a.len()]);
                let t = locate_owner(rest, dir, fs, m - a.len());
                assert(rest[t] == locs[t + 1]);
            }
        }
    } else {
        assert(locate_all_spec(locs, dir, fs) == Ok::<Seq<ApplicatorView>, ErrorView>(seq![]));
    }
}

/// The write index and the target behind the `j`-th line of `diff`.
pub open spec fn diff_owner(cfg: CfgView, dir: Seq<char>, fs: FilesView, j: int) -> (int, ApplicatorView)
    decreases cfg.len(),
{
    if cfg.len() == 0 {
        (0, arbitrary())
    } else {
        let apps = locate_all_spec(cfg[0].1.locate, dir, fs)->Ok_0;
        if j < apps.len() {
            (locate_owner(cfg[0].1.locate, dir, fs, j), apps[j])
        } else {
            let (i, a) = diff_owner(cfg.drop_first(), dir, fs, j - apps.len());
            (cfg[0].1.locate.len() + i, a)
        }
    }
}

/// Every line of `diff` previews a target that one of the configuration's locators finds,
/// with the value `run` writes through that locator.
proof fn lemma_diff_lines(cfg: CfgView, dir: Seq<char>, worktree: Seq<char>, fs: FilesView)
    requires
        forall|i: int|
            0 <= i < cfg_writes(cfg, worktree).len() ==> #[trigger] locate_spec(cfg_writes(cfg, worktree)[i].0, dir, fs) is Ok,
    ensures
        diff_spec(cfg, dir, worktree, fs) is Ok,
        forall|j: int|
            0 <= j < diff_spec(cfg, dir, worktree, fs)->Ok_0.len() ==> {
                let (i, a) = #[trigger] diff_owner(cfg, dir, fs, j);
                &&& 0 <= i < cfg_writes(cfg, worktree).len()
                &&& located_by(a, cfg_writes(cfg, worktree)[i].0, dir, fs)
                &&& previews(diff_spec(cfg, dir, worktree, fs)->Ok_0[j], a, cfg_writes(cfg, worktree)[i].1)
            },
    decreases cfg.len(),
{
    if cfg.len() > 0 {
        let plan = run_plan(cfg, worktree);
        let w = cfg_writes(cfg, worktree);
        lemma_plan_writes_shape(plan);
        assert(plan.drop_first() =~= run_plan(cfg.drop_first(), worktree));
        let name = cfg[0].0;
        let e = cfg[0].1;
        let v = override_value(e.overrider, worktree, name);
        assert(plan[0] == (e.locate, v));
        let n = e.locate.len() as int;
        let rest = cfg_writes(cfg.drop_first(), worktree);
        assert forall|t: int| 0 <= t < n implies #[trigger] locate_spec(e.locate[t], dir, fs) is Ok by {
            assert(w[t] == (e.locate[t], v));
            assert(locate_spec(w[t].0, dir, fs) is Ok);
        }
        lemma_locate_all_members(e.locate, dir, fs);
        assert forall|i: int| 0 <= i < rest.len() implies #[trigger] locate_spec(rest[i].0, dir, fs) is Ok by {
            assert(w[n + i] == rest[i]);
            assert(locate_spec(w[n + i].0, dir, fs) is Ok);
        }
        lemma_diff_lines(cfg.drop_first(), dir, worktree, fs);
        let apps = locate_all_spec(e.locate, dir, fs)->Ok_0;
        let mine = apps.map_values(|a: ApplicatorView| diff_line(name, a, v));
        let tail = diff_spec(cfg.drop_first(), dir, worktree, fs)->Ok_0;
        let ds = diff_spec(cfg, dir, worktree, fs)->Ok_0;
        assert(ds == mine + tail);
        assert forall|j: int| 0 <= j < ds.len() implies {
            let (i, a) = #[trigger] diff_owner(cfg, dir, fs, j);
            &&& 0 <= i < w.len()
            &&& located_by(a, w[i].0, dir, fs)
            &&& previews(ds[j], a, w[i].1)
        } by {
            if j < mine.len() {
                assert(ds[j] == diff_line(name, apps[j], v));
                let t = locate_owner(e.locate, dir, fs, j);
                assert(w[t] == (e.locate[t], v));
            } else {
                let k = j - mine.len();
                assert(ds[j] == tail[k]);
                let i2 = diff_owner(cfg.drop_first(), dir, fs, k).0;
                assert(w[n + i2] == rest[i2]);
            }
        }
    }
}

/// A target of a dotenv locator is an assignment line of its variable, and shows `x=v` once `v`
/// is written there.
proof fn lemma_env_preview(l: Seq<FilterView>, dir: Seq<char>, v: Seq<char>, fs: FilesView, a: ApplicatorView)
    requires
        l.len() > 0,
        l[0] is EnvFile,
        ws_read(fs, loc_file(l, dir)) is Some,
        located_by(a, l, dir, fs),
    ensures
        ({
            let c = ws_read(fs, loc_file(l, dir)).unwrap();
            let prefix = env_prefix(l[0]->EnvFile_variable);
            &&& a.path == loc_file(l, dir)
            &&& a.line_number matches Some(n) && 1 <= n <= pieces(c).len() && env_matched(pieces(c)[n - 1], prefix)
            &&& new_line_of(a, v) == prefix + v
        }),
{
    let abs = loc_file(l, dir);
    let c = ws_read(fs, abs).unwrap();
    let x = l[0]->EnvFile_variable;
    let prefix = env_prefix(x);
    let pred = |e: (int, Seq<char>)| starts_with(e.1, env_prefix(x));
    let asg = env_assignments(c, x);
    let apps = env_applicators(abs, c, x);
    assert(locate_spec(l, dir, fs) == Ok::<Seq<ApplicatorView>, ErrorView>(apps));
    let u = choose|u: int| 0 <= u < apps.len() && apps[u] == a;
    let e = asg[u];
    numbered_lines(c).lemma_filter_pred(pred, u);
    assert(asg.contains(e));
    numbered_lines(c).lemma_filter_contains_rev(pred, e);
    let k = choose|k: int| 0 <= k < numbered_lines(c).len() && numbered_lines(c)[k] == e;
    assert(e == (k + 1, lines(c)[k]));
    let s = lines(c)[k];
    assert(s == line_body(pieces(c)[k]));
    assert(starts_with(s, prefix));
}

/// `emux diff` previews `run` on dotenv files: when no two of the configuration's locators
/// write the same place (see `targets_distinct`) and each write settles its file as the writes
/// before it left it (see `settles_along`), the diff succeeds, and every diff line with a line
/// number shows the line that `run` then leaves at that number in that file.
#[verifier::spinoff_prover]
#[verifier::rlimit(40)]
pub proof fn law_diff_previews_run(cfg: CfgView, dir: Seq<char>, worktree: Seq<char>, fs: FilesView)
    requires
        targets_distinct(cfg_writes(cfg, worktree), dir),
        settles_along(cfg_writes(cfg, worktree), dir, fs),
    ensures
        ({
            let run = run_spec(cfg, dir, worktree, fs);
            let diff = diff_spec(cfg, dir, worktree, fs);
            &&& diff is Ok
            &&& forall|j: int|
                0 <= j < diff->Ok_0.len() && (#[trigger] diff->Ok_0[j]).line_number is Some ==> {
                    let d = diff->Ok_0[j];
                    let n = d.line_number.unwrap();
                    &&& ws_read(run.0, d.path) is Some
                    &&& 1 <= n <= lines(ws_read(run.0, d.path).unwrap()).len()
                    &&& lines(ws_read(run.0, d.path).unwrap())[n - 1] == d.new_line
                }
        }),
{
    let w = cfg_writes(cfg, worktree);
    lemma_writes_fixed(w, dir, fs);
    assert forall|i: int| 0 <= i < w.len() implies #[trigger] locate_spec(w[i].0, dir, fs) is Ok by {
        let f = loc_file(w[i].0, dir);
        let c = ws_read(fs, f).unwrap();
        assert(w.take(0) =~= Seq::<(Seq<FilterView>, Seq<char>)>::empty());
        assert(w.take(0) == w.take(0) && w[i] == w[i]);
        assert(target_writes(located(w[i].0, dir, file_fold(w.take(0), f, dir, c))) == target_writes(
            located(w[i].0, dir, file_fold(w.take(i), f, dir, c)),
        ));
        lemma_locate_read(w[i].0, dir, fs);
    }
    lemma_diff_lines(cfg, dir, worktree, fs);
    lemma_plan_fold(run_plan(cfg, worktree), dir, fs);
    lemma_run_plan(cfg, dir, worktree, fs);
    let run = run_spec(cfg, dir, worktree, fs);
    let ds = diff_spec(cfg, dir, worktree, fs)->Ok_0;
    assert forall|j: int| 0 <= j < ds.len() && (#[trigger] ds[j]).line_number is Some implies {
        let d = ds[j];
        let n = d.line_number.unwrap();
        &&& ws_read(run.0, d.path) is Some
        &&& 1 <= n <= lines(ws_read(run.0, d.path).unwrap()).len()
        &&& lines(ws_read(run.0, d.path).unwrap())[n - 1] == d.new_line
    } by {
        let (i, a) = diff_owner(cfg, dir, fs, j);
        let l = w[i].0;
        let f = loc_file(l, dir);
        let c = ws_read(fs, f).unwrap();
        assert(ws_read(run.0, f) == Some(file_fold(w, f, dir, c)));
        match l[0] {
            FilterView::EnvFile { variable, .. } => {
                lemma_env_preview(l, dir, w[i].1, fs, a);
                lemma_env_file_state(w, dir, fs, i);
                let e = env_map(w, f, dir);
                let n = a.line_number.unwrap();
                lemma_env_state_lines(c, e);
                lemma_assigned_var(pieces(c)[n - 1], e, variable);
                assert(lines(c).len() == pieces(c).len());
            },
            FilterView::JsonFile { path, selector } => {
                let apps = locate_spec(l, dir, fs)->Ok_0;
                let u = choose|u: int| 0 <= u < apps.len() && apps[u] == a;
                assert(apps.len() == 1);
            },
        }
    }
}


/// Once an entry named `name` is put in, the configuration holds one: its name is found, and
/// every other name stays found.
proof fn lemma_cfg_insert_names(c: CfgView, name: Seq<char>, e: EntryView)
    requires
        names_distinct(c),
    ensures
        names_distinct(crate::lua::cfg_insert(c, name, e)),
        cfg_index(crate::lua::cfg_insert(c, name, e), name) is Some,
        forall|m: Seq<char>| cfg_index(c, m) is Some ==> #[trigger] cfg_index(crate::lua::cfg_insert(c, name, e), m) is Some,
        ({
            let c2 = crate::lua::cfg_insert(c, name, e);
            let p = cfg_index(c2, name).unwrap();
            &&& 0 <= p < c2.len()
            &&& c2[p] == (name, e)
            &&& forall|q: int| 0 <= q < c2.len() && q != p ==> #[trigger] c2[q].0 != name
            &&& forall|q: int| 0 <= q < c2.len() && q != p ==> q < c.len() && #[trigger] c2[q] == c[q]
            &&& c2.len() >= c.len()
        }),
{
    let c2 = crate::lua::cfg_insert(c, name, e);
    lemma_cfg_index_from(c, name, 0);
    match cfg_index(c, name) {
        Some(i) => {
            assert(c2 == c.update(i, (name, e)));
        },
        None => {
            assert(c2 == c.push((name, e)));
        },
    }
    assert(names_distinct(c2));
    lemma_cfg_index_from(c2, name, 0);
    assert(c2.len() > 0);
    let p = if cfg_index(c, name) is Some { cfg_index(c, name).unwrap() } else { c.len() as int };
    assert(c2[p].0 == name);
    if cfg_index(c2, name) is None {
        assert(c2[p].0 != name);
    }
    let p2 = cfg_index(c2, name).unwrap();
    assert(p2 == p) by {
        if p2 != p {
            assert(c2[p2].0 == name);
        }
    }
    assert forall|m: Seq<char>| cfg_index(c, m) is Some implies #[trigger] cfg_index(c2, m) is Some by {
        lemma_cfg_index_from(c, m, 0);
        lemma_cfg_index_from(c2, m, 0);
        let i = cfg_index(c, m).unwrap();
        if cfg_index(c2, m) is None {
            if m == name {
            } else {
                assert(c2[i] == c[i]);
            }
        }
    }
}

/// The `q`-th entry of `c` is named by the key of one of the first `n` pairs of `t`, the last
/// of them whose key reads as that name, and holds what that pair's value reads as.
pub open spec fn read_from_last_key(t: Seq<(LuaValue, LuaValue)>, n: int, c: CfgView, q: int) -> bool {
    exists|i: int|
        0 <= i < n && #[trigger] lua_text(t[i].0) == Some(c[q].0) && entry_of(t[i].1) == Ok::<EntryView, ErrorView>(c[q].1)
            && forall|i2: int| i < i2 < n ==> lua_text(#[trigger] t[i2].0) != Some(c[q].0)
}

/// Where the first `n` pairs read, each of them reads as an entry.
proof fn lemma_pairs_read(t: Seq<(LuaValue, LuaValue)>, n: nat, i: int)
    requires
        n <= t.len(),
        cfg_pairs(t, n) is Ok,
        0 <= i < n,
    ensures
        lua_text(t[i].0) is Some,
        entry_of(t[i].1) is Ok,
    decreases n,
{
    if i < n - 1 {
        lemma_pairs_read(t, (n - 1) as nat, i);
    }
}

/// The `i`-th pair of `t` is the first of the first `n` that does not read: its key does not
/// read as text (`e` is `NotAString` for the configuration) or its value does not read as an
/// entry (`e` is that error), and every pair before it reads.
pub open spec fn first_bad_pair(t: Seq<(LuaValue, LuaValue)>, n: int, e: ErrorView) -> bool {
    exists|i: int|
        0 <= i < n && ((#[trigger] lua_text(t[i].0) is None && e == ErrorView::NotAString("Cfg"@)) || (lua_text(t[i].0) is Some
            && entry_of(t[i].1) == Err::<EntryView, ErrorView>(e))) && forall|i2: int|
            0 <= i2 < i ==> (#[trigger] lua_text(t[i2].0)) is Some && entry_of(t[i2].1) is Ok
}

/// What reading the first `n` pairs of a table gives: every pair's key reads as text and
/// names an entry; every entry is named by a key, and holds what the last pair with that key
/// reads as; no two entries share a name.
#[verifier::spinoff_prover]
#[verifier::rlimit(30)]
proof fn lemma_cfg_pairs_keys(t: Seq<(LuaValue, LuaValue)>, n: nat)
    requires
        n <= t.len(),
    ensures
        (forall|i: int| 0 <= i < n ==> (#[trigger] lua_text(t[i].0)) is Some && entry_of(t[i].1) is Ok) ==> cfg_pairs(
            t,
            n,
        ) is Ok,
        cfg_pairs(t, n) matches Err(e) ==> first_bad_pair(t, n as int, e),
        cfg_pairs(t, n) matches Ok(c) ==> {
            &&& names_distinct(c)
            &&& forall|i: int|
                0 <= i < n ==> (#[trigger] lua_text(t[i].0)) is Some && cfg_index(c, lua_text(t[i].0).unwrap()) is Some
            &&& forall|q: int| 0 <= q < c.len() ==> #[trigger] read_from_last_key(t, n as int, c, q)
        },
    decreases n,
{
    if n > 0 {
        lemma_cfg_pairs_keys(t, (n - 1) as nat);
        if forall|i: int| 0 <= i < n ==> (#[trigger] lua_text(t[i].0)) is Some && entry_of(t[i].1) is Ok {
            assert(lua_text(t[n - 1].0) is Some);
            assert forall|i: int| 0 <= i < n - 1 implies (#[trigger] lua_text(t[i].0)) is Some && entry_of(t[i].1) is Ok by {
                assert(lua_text(t[i].0) is Some);
            }
        }
        if cfg_pairs(t, n) is Err {
            let e = cfg_pairs(t, n)->Err_0;
            if cfg_pairs(t, (n - 1) as nat) is Err {
                assert(first_bad_pair(t, n - 1, e));
                let i = choose|i: int|
                    0 <= i < n - 1 && ((#[trigger] lua_text(t[i].0) is None && e == ErrorView::NotAString("Cfg"@)) || (lua_text(
                        t[i].0,
                    ) is Some && entry_of(t[i].1) == Err::<EntryView, ErrorView>(e))) && forall|i2: int|
                        0 <= i2 < i ==> (#[trigger] lua_text(t[i2].0)) is Some && entry_of(t[i2].1) is Ok;
                assert(lua_text(t[i].0) is None || lua_text(t[i].0) is Some);
            } else {
                let c = cfg_pairs(t, (n - 1) as nat)->Ok_0;
                let i = n - 1;
                assert forall|i2: int| 0 <= i2 < i implies (#[trigger] lua_text(t[i2].0)) is Some && entry_of(t[i2].1) is Ok by {
                    assert(lua_text(t[i2].0) is Some);
                    assert(cfg_index(c, lua_text(t[i2].0).unwrap()) is Some);
                    lemma_pairs_read(t, (n - 1) as nat, i2);
                }
                assert(lua_text(t[i].0) is None || lua_text(t[i].0) is Some);
            }
        }
        if cfg_pairs(t, n) is Ok {
            let c = cfg_pairs(t, (n - 1) as nat)->Ok_0;
            let name = lua_text(t[n - 1].0).unwrap();
            let en = entry_of(t[n - 1].1)->Ok_0;
            let c2 = cfg_pairs(t, n)->Ok_0;
            assert(c2 == crate::lua::cfg_insert(c, name, en));
            lemma_cfg_insert_names(c, name, en);
            let p = cfg_index(c2, name).unwrap();
            assert forall|i: int|
                0 <= i < n implies (#[trigger] lua_text(t[i].0)) is Some && cfg_index(c2, lua_text(t[i].0).unwrap()) is Some by {
                if i < n - 1 {
                    assert(cfg_index(c, lua_text(t[i].0).unwrap()) is Some);
                }
            }
            assert forall|q: int| 0 <= q < c2.len() implies #[trigger] read_from_last_key(t, n as int, c2, q) by {
                if q == p {
                    let i = n - 1;
                    assert(lua_text(t[i].0) == Some(c2[q].0));
                    assert(entry_of(t[i].1) == Ok::<EntryView, ErrorView>(c2[q].1));
                    assert(forall|i2: int| i < i2 < n ==> lua_text(#[trigger] t[i2].0) != Some(c2[q].0));
                } else {
                    assert(c2[q] == c[q]);
                    assert(read_from_last_key(t, n - 1, c, q));
                    let i = choose|i: int|
                        0 <= i < n - 1 && #[trigger] lua_text(t[i].0) == Some(c[q].0) && entry_of(t[i].1) == Ok::<EntryView, ErrorView>(
                            c[q].1,
                        ) && forall|i2: int| i < i2 < n - 1 ==> lua_text(#[trigger] t[i2].0) != Some(c[q].0);
                    assert(c2[q].0 != name);
                    assert forall|i2: int| i < i2 < n implies lua_text(#[trigger] t[i2].0) != Some(c2[q].0) by {
                        if i2 == n - 1 {
                            assert(lua_text(t[i2].0) == Some(name));
                        }
                    }
                    assert(lua_text(t[i].0) == Some(c2[q].0));
                    assert(entry_of(t[i].1) == Ok::<EntryView, ErrorView>(c2[q].1));
                }
            }
        }
    }
}

/// Loading a configuration reads every key of the table a configuration file evaluates to:
/// it succeeds on a table whose every key reads as text and whose every value reads as an
/// entry, and otherwise fails with the error of the first pair that does not read (or
/// `NotATable` for a value that is no table); where it succeeds, the value is a table, each of its keys reads as text and names an
/// entry, each entry is named by one of its keys and holds what the last pair with that key
/// reads as, and no two entries share a name, so there are as many entries as distinct key
/// texts.
#[verifier::spinoff_prover]
#[verifier::rlimit(30)]
pub proof fn law_cfg_reads_every_key(v: LuaValue)
    ensures
        cfg_of(v) matches Err(e) ==> match v {
            LuaValue::Table(t) => first_bad_pair(t@, t@.len() as int, e),
            _ => e == ErrorView::NotATable("Cfg"@, lua_type_name(v)),
        },
        (v matches LuaValue::Table(t) && forall|i: int|
            0 <= i < t@.len() ==> (#[trigger] lua_text(t@[i].0)) is Some && entry_of(t@[i].1) is Ok) ==> cfg_of(v) is Ok,
        cfg_of(v) matches Ok(c) ==> (v matches LuaValue::Table(t) && {
            let p = t@;
            &&& names_distinct(c)
            &&& forall|i: int|
                0 <= i < p.len() ==> (#[trigger] lua_text(p[i].0)) is Some && cfg_index(c, lua_text(p[i].0).unwrap()) is Some
            &&& forall|q: int| 0 <= q < c.len() ==> #[trigger] read_from_last_key(p, p.len() as int, c, q)
        }),
{
    match v {
        LuaValue::Table(t) => {
            lemma_cfg_pairs_keys(t@, t@.len());
        },
        _ => {},
    }
}

/// A base that reads as text is kept as it is: where an entry reads, its base is the string
/// or the number's text that the table holds at `base`, and none only where `base` is `nil`.
pub proof fn law_entry_keeps_base(v: LuaValue)
    ensures
        entry_of(v) matches Ok(e) ==> (v matches LuaValue::Table(t) && match lua_field(t@, "base"@) {
            LuaValue::Str(s) => e.base == Some(s@),
            LuaValue::Number(s) => e.base == Some(s@),
            LuaValue::Nil => e.base is None,
            _ => false,
        }),
{
}

/// The port of an entry is FNV-1a of the whole seed, the worktree's UTF-8, a NUL and the
/// entry name's UTF-8, however long: `49152 + fnv1a(seed) % 16384`.
pub proof fn law_port_hashes_whole_seed(worktree: Seq<char>, entry_name: Seq<char>)
    ensures
        port_for(worktree, entry_name) as int == 49152 + fnv1a_spec(
            vstd::utf8::encode_utf8(worktree + seq!['\0'] + entry_name),
        ) as int % 16384,
{
}

/// The files the locators of a list read include every locator's file.
proof fn lemma_locators_files_cover(locs: Seq<Seq<FilterView>>, dir: Seq<char>)
    ensures
        forall|j: int| 0 <= j < locs.len() && locs[j].len() > 0 ==> locators_files(locs, dir).contains(loc_file(#[trigger] locs[j], dir)),
        forall|m: int| 0 <= m < locators_files(locs, dir).len() ==> exists|j: int|
            0 <= j < locs.len() && locs[j].len() > 0 && #[trigger] locators_files(locs, dir)[m] == loc_file(#[trigger] locs[j], dir),
    decreases locs.len(),
{
    if locs.len() > 0 {
        let rest = locs.drop_first();
        lemma_locators_files_cover(rest, dir);
        let lf = locators_files(locs, dir);
        let rf = locators_files(rest, dir);
        if locs[0].len() > 0 {
            assert(lf == seq![loc_file(locs[0], dir)] + rf);
        } else {
            assert(lf == rf);
        }
        assert forall|j: int| 0 <= j < locs.len() && locs[j].len() > 0 implies lf.contains(loc_file(#[trigger] locs[j], dir)) by {
            if j == 0 {
                assert(lf[0] == loc_file(locs[0], dir));
            } else {
                assert(rest[j - 1] == locs[j]);
                assert(rf.contains(loc_file(rest[j - 1], dir)));
                let m = choose|m: int| 0 <= m < rf.len() && rf[m] == loc_file(rest[j - 1], dir);
                if locs[0].len() > 0 {
                    assert(lf[m + 1] == rf[m]);
                } else {
                    assert(lf[m] == rf[m]);
                }
            }
        }
        assert forall|m: int| 0 <= m < lf.len() implies exists|j: int|
            0 <= j < locs.len() && locs[j].len() > 0 && #[trigger] lf[m] == loc_file(#[trigger] locs[j], dir) by {
            if locs[0].len() > 0 && m == 0 {
                assert(lf[0] == loc_file(locs[0], dir));
            } else {
                let m2 = if locs[0].len() > 0 { m - 1 } else { m };
                assert(lf[m] == rf[m2]);
                let j = choose|j: int|
                    0 <= j < rest.len() && rest[j].len() > 0 && #[trigger] rf[m2] == loc_file(#[trigger] rest[j], dir);
                assert(rest[j] == locs[j + 1]);
            }
        }
    }
}

/// `f` is the file some locator of some entry of `cfg` resolves to, relative to `dir`.
pub open spec fn locator_file_of(cfg: CfgView, dir: Seq<char>, f: Seq<char>) -> bool {
    exists|k: int, j: int|
        0 <= k < cfg.len() && 0 <= j < cfg[k].1.locate.len() && cfg[k].1.locate[j].len() > 0 && f == loc_file(
            #[trigger] cfg[k].1.locate[j],
            dir,
        )
}

/// The files `run`, `restore` and `diff` read are exactly those the locators of the
/// configuration resolve to, dotenv and JSON alike: every locator's file, relative to `dir`,
/// is among them, and each of them is some locator's file.
pub proof fn law_target_files_are_locator_files(cfg: CfgView, dir: Seq<char>)
    ensures
        forall|k: int, j: int|
            0 <= k < cfg.len() && 0 <= j < cfg[k].1.locate.len() && cfg[k].1.locate[j].len() > 0 ==> cfg_files(cfg, dir).contains(
                loc_file(#[trigger] cfg[k].1.locate[j], dir),
            ),
        forall|m: int| 0 <= m < cfg_files(cfg, dir).len() ==> #[trigger] locator_file_of(cfg, dir, cfg_files(cfg, dir)[m]),
    decreases cfg.len(),
{
    if cfg.len() > 0 {
        let rest = cfg.drop_first();
        law_target_files_are_locator_files(rest, dir);
        let locs = cfg[0].1.locate;
        lemma_locators_files_cover(locs, dir);
        let lf = locators_files(locs, dir);
        let rf = cfg_files(rest, dir);
        let all = cfg_files(cfg, dir);
        assert(all == lf + rf);
        assert forall|k: int, j: int|
            0 <= k < cfg.len() && 0 <= j < cfg[k].1.locate.len() && cfg[k].1.locate[j].len() > 0 implies all.contains(
                loc_file(#[trigger] cfg[k].1.locate[j], dir),
            ) by {
            if k == 0 {
                assert(lf.contains(loc_file(locs[j], dir)));
                let m = choose|m: int| 0 <= m < lf.len() && lf[m] == loc_file(locs[j], dir);
                assert(all[m] == lf[m]);
            } else {
                assert(rest[k - 1] == cfg[k]);
                assert(rf.contains(loc_file(rest[k - 1].1.locate[j], dir)));
                let m = choose|m: int| 0 <= m < rf.len() && rf[m] == loc_file(rest[k - 1].1.locate[j], dir);
                assert(all[lf.len() + m] == rf[m]);
            }
        }
        assert forall|m: int| 0 <= m < all.len() implies #[trigger] locator_file_of(cfg, dir, all[m]) by {
            if m < lf.len() {
                assert(all[m] == lf[m]);
                let j = choose|j: int| 0 <= j < locs.len() && locs[j].len() > 0 && #[trigger] lf[m] == loc_file(#[trigger] locs[j], dir);
                assert(cfg[0].1.locate[j] == locs[j]);
                assert(all[m] == loc_file(cfg[0].1.locate[j], dir));
            } else {
                assert(all[m] == rf[m - lf.len()]);
                assert(locator_file_of(rest, dir, rf[m - lf.len()]));
                let (k, j) = choose|k: int, j: int|
                    0 <= k < rest.len() && 0 <= j < rest[k].1.locate.len() && rest[k].1.locate[j].len() > 0
                        && rf[m - lf.len()] == loc_file(#[trigger] rest[k].1.locate[j], dir);
                assert(rest[k] == cfg[k + 1]);
                assert(cfg[k + 1].1.locate[j] == rest[k].1.locate[j]);
            }
        }
    }
}


/// How a JSON target's diff line reads: its shown line is `selector: old`; the new value
/// occurs in the new line; and where the old value first occurs after `selector: `, the new
/// line is `selector: new`, the line the target shows once `run` writes the new value.
pub open spec fn json_preview(d: DiffView) -> bool {
    let n = d.old_line.len() - d.old_value.len() - 2;
    &&& n >= 0
    &&& d.old_line == d.old_line.take(n) + seq![':', ' '] + d.old_value
    &&& exists|k: int| #[trigger] occurs_at(d.new_line, d.new_value, k)
    &&& (forall|m: int| 0 <= m < n + 2 ==> !#[trigger] occurs_at(d.old_line, d.old_value, m)) ==> d.new_line
        == d.old_line.take(n) + seq![':', ' '] + d.new_value
}

/// The shape of a target found by locators: one without a line number is a JSON target
/// showing `selector: value`.
pub open spec fn json_target_shaped(a: ApplicatorView) -> bool {
    &&& a.line_number is None ==> a.writer is JsonSelector && a.old_line == a.writer->JsonSelector_0 + seq![':', ' ']
        + a.old_value
    &&& a.line_number is Some ==> a.writer is InFileLine && a.old_line == env_prefix(a.writer->InFileLine_1) + a.old_value
}

/// How a dotenv target's diff line reads: its shown line is `VAR=old`, and the new line is
/// `VAR=new`, the line `run` leaves there.
pub open spec fn env_preview(d: DiffView) -> bool {
    let n = d.old_line.len() - d.old_value.len();
    &&& n >= 1
    &&& d.old_line[n - 1] == '='
    &&& d.old_line == d.old_line.take(n) + d.old_value
    &&& d.new_line == d.old_line.take(n) + d.new_value
}

/// `d` is about one of the targets `apps`: its file, line number, value and line.
pub open spec fn about_target(apps: Seq<ApplicatorView>, d: DiffView) -> bool {
    exists|i: int|
        0 <= i < apps.len() && #[trigger] apps[i].path == d.path && apps[i].line_number == d.line_number
            && apps[i].old_value == d.old_value && apps[i].old_line == d.old_line
}

/// The diff line `d` is about a target that a locator of an entry of `cfg` named as `d` says
/// finds in `fs`, and shows that entry's override value.
pub open spec fn shows_entry_value(cfg: CfgView, dir: Seq<char>, worktree: Seq<char>, fs: FilesView, d: DiffView) -> bool {
    exists|k: int|
        0 <= k < cfg.len() && #[trigger] cfg[k].0 == d.entry_name && d.new_value == override_value(
            cfg[k].1.overrider,
            worktree,
            cfg[k].0,
        ) && locate_all_spec(cfg[k].1.locate, dir, fs) is Ok && about_target(
            locate_all_spec(cfg[k].1.locate, dir, fs)->Ok_0,
            d,
        )
}

/// Every target that locators find has the shape `json_target_shaped` describes.
proof fn lemma_located_shaped(locs: Seq<Seq<FilterView>>, dir: Seq<char>, fs: FilesView)
    ensures
        locate_all_spec(locs, dir, fs) matches Ok(apps) ==> forall|i: int| 0 <= i < apps.len() ==> #[trigger] json_target_shaped(apps[i]),
    decreases locs.len(),
{
    if locs.len() > 0 {
        lemma_located_shaped(locs.drop_first(), dir, fs);
        if locate_all_spec(locs, dir, fs) is Ok {
            let a = locate_spec(locs[0], dir, fs)->Ok_0;
            let b = locate_all_spec(locs.drop_first(), dir, fs)->Ok_0;
            assert forall|i: int| 0 <= i < a.len() implies #[trigger] json_target_shaped(a[i]) by {
                let l = locs[0];
                if l.len() > 0 {
                    match l[0] {
                        FilterView::EnvFile { path, variable } => {
                            let abs = resolve_path(dir, path);
                            let c = ws_read(fs, abs).unwrap();
                            assert(a == env_applicators(abs, c, variable));
                            assert(a[i].line_number is Some);
                            let asg = env_assignments(c, variable);
                            let pred = |e: (int, Seq<char>)| starts_with(e.1, env_prefix(variable));
                            assert(asg == numbered_lines(c).filter(pred));
                            numbered_lines(c).lemma_filter_pred(pred, i);
                            assert(a[i].old_line == asg[i].1);
                            assert(a[i].old_line =~= env_prefix(variable) + a[i].old_value);
                        },
                        FilterView::JsonFile { path, selector } => {},
                    }
                }
            }
            let all = locate_all_spec(locs, dir, fs)->Ok_0;
            assert(all == a + b);
            assert forall|i: int| 0 <= i < all.len() implies #[trigger] json_target_shaped(all[i]) by {
                if i < a.len() {
                    assert(all[i] == a[i]);
                } else {
                    assert(all[i] == b[i - a.len()]);
                }
            }
        }
    }
}

/// The diff line of a JSON target reads as `json_preview` says.
#[verifier::spinoff_prover]
#[verifier::rlimit(40)]
proof fn lemma_json_line_preview(name: Seq<char>, a: ApplicatorView, value: Seq<char>)
    requires
        json_target_shaped(a),
        a.line_number is None,
    ensures
        json_preview(diff_line(name, a, value)),
{
    let d = diff_line(name, a, value);
    let sel = a.writer->JsonSelector_0;
    let n = sel.len() as int;
    assert(d.old_line.take(n) =~= sel);
    assert(occurs_at(d.old_line, d.old_value, n + 2)) by {
        assert(d.old_line.subrange(n + 2, n + 2 + d.old_value.len()) =~= d.old_value);
    }
    lemma_find_from(d.old_line, d.old_value, 0);
    let k = first_occurrence(d.old_line, d.old_value).unwrap();
    assert(0 <= k <= n + 2);
    assert(d.new_line == d.old_line.take(k) + value + d.old_line.skip(k + d.old_value.len()));
    assert(occurs_at(d.new_line, d.new_value, k)) by {
        assert(d.new_line.subrange(k, k + value.len()) =~= value);
    }
    if forall|m: int| 0 <= m < n + 2 ==> !#[trigger] occurs_at(d.old_line, d.old_value, m) {
        assert(k == n + 2);
        assert(d.old_line.skip(k + d.old_value.len()) =~= Seq::<char>::empty());
        assert(d.new_line =~= d.old_line.take(n) + seq![':', ' '] + d.new_value);
    }
}

/// The diff line of a dotenv target reads as `env_preview` says.
#[verifier::spinoff_prover]
proof fn lemma_env_line_preview(name: Seq<char>, a: ApplicatorView, value: Seq<char>)
    requires
        json_target_shaped(a),
        a.line_number is Some,
    ensures
        env_preview(diff_line(name, a, value)),
{
    let d = diff_line(name, a, value);
    let px = env_prefix(a.writer->InFileLine_1);
    let n = px.len() as int;
    assert(d.old_line.take(n) =~= px);
    assert(d.new_line =~= d.old_line.take(n) + d.new_value);
}

/// What a diff line of `cfg` must show (see `law_diff_shows_run_values`).
pub open spec fn diff_line_ok(cfg: CfgView, dir: Seq<char>, worktree: Seq<char>, fs: FilesView, d: DiffView) -> bool {
    &&& d.line_number is None ==> json_preview(d)
    &&& d.line_number is Some ==> env_preview(d)
    &&& shows_entry_value(cfg, dir, worktree, fs, d)
}

/// A diff line showing the value of an entry of the rest of a configuration shows that of an
/// entry of the whole.
proof fn lemma_diff_line_ok_rest(cfg: CfgView, dir: Seq<char>, worktree: Seq<char>, fs: FilesView, d: DiffView)
    requires
        cfg.len() > 0,
        diff_line_ok(cfg.drop_first(), dir, worktree, fs, d),
    ensures
        diff_line_ok(cfg, dir, worktree, fs, d),
{
    let r = cfg.drop_first();
    let k = choose|k: int|
        0 <= k < r.len() && #[trigger] r[k].0 == d.entry_name && d.new_value == override_value(r[k].1.overrider, worktree, r[k].0)
            && locate_all_spec(r[k].1.locate, dir, fs) is Ok && about_target(locate_all_spec(r[k].1.locate, dir, fs)->Ok_0, d);
    assert(cfg[k + 1] == r[k]);
}

/// A diff line of the first entry of a configuration shows what it must.
proof fn lemma_diff_line_ok_head(cfg: CfgView, dir: Seq<char>, worktree: Seq<char>, fs: FilesView, i: int)
    requires
        cfg.len() > 0,
        locate_all_spec(cfg[0].1.locate, dir, fs) is Ok,
        0 <= i < locate_all_spec(cfg[0].1.locate, dir, fs)->Ok_0.len(),
        json_target_shaped(locate_all_spec(cfg[0].1.locate, dir, fs)->Ok_0[i]),
    ensures
        diff_line_ok(
            cfg,
            dir,
            worktree,
            fs,
            diff_line(cfg[0].0, locate_all_spec(cfg[0].1.locate, dir, fs)->Ok_0[i], override_value(cfg[0].1.overrider, worktree, cfg[0].0)),
        ),
{
    let apps = locate_all_spec(cfg[0].1.locate, dir, fs)->Ok_0;
    let a = apps[i];
    let name = cfg[0].0;
    let value = override_value(cfg[0].1.overrider, worktree, name);
    if a.line_number is None {
        lemma_json_line_preview(name, a, value);
    } else {
        lemma_env_line_preview(name, a, value);
    }
    assert(cfg[0].0 == diff_line(name, a, value).entry_name);
    assert(about_target(apps, diff_line(name, a, value))) by {
        assert(apps[i].path == diff_line(name, a, value).path);
    }
}

/// `emux diff` shows, for every target, the value `run` would write there: each diff line is
/// about a target a locator of the entry it names finds, and its new value is that entry's
/// override value; a JSON target (no line number)
/// shows `selector: old` as its current line and a new line holding the new value, exactly
/// `selector: new` where the old value first occurs after `selector: `; a dotenv target shows
/// `VAR=old` and `VAR=new`.
pub proof fn law_diff_shows_run_values(cfg: CfgView, dir: Seq<char>, worktree: Seq<char>, fs: FilesView)
    ensures
        diff_spec(cfg, dir, worktree, fs) matches Ok(ds) ==> forall|j: int|
            0 <= j < ds.len() ==> #[trigger] diff_line_ok(cfg, dir, worktree, fs, ds[j]),
    decreases cfg.len(),
{
    if cfg.len() > 0 {
        law_diff_shows_run_values(cfg.drop_first(), dir, worktree, fs);
        if diff_spec(cfg, dir, worktree, fs) is Ok {
            let (name, e) = cfg[0];
            lemma_located_shaped(e.locate, dir, fs);
            let apps = locate_all_spec(e.locate, dir, fs)->Ok_0;
            let value = override_value(e.overrider, worktree, name);
            let rest = diff_spec(cfg.drop_first(), dir, worktree, fs)->Ok_0;
            let head = apps.map_values(|a: ApplicatorView| diff_line(name, a, value));
            let ds = diff_spec(cfg, dir, worktree, fs)->Ok_0;
            assert(ds == head + rest);
            assert forall|j: int| 0 <= j < ds.len() implies #[trigger] diff_line_ok(cfg, dir, worktree, fs, ds[j]) by {
                if j < head.len() {
                    assert(ds[j] == diff_line(name, apps[j], value));
                    assert(json_target_shaped(apps[j]));
                    lemma_diff_line_ok_head(cfg, dir, worktree, fs, j);
                } else {
                    assert(ds[j] == rest[j - head.len()]);
                    lemma_diff_line_ok_rest(cfg, dir, worktree, fs, rest[j - head.len()]);
                }
            }
        }
    }
}

/// The table `t` with its `base` field, if any, set to `nil`.
pub open spec fn without_base(t: Seq<(LuaValue, LuaValue)>) -> Seq<(LuaValue, LuaValue)> {
    t.map_values(
        |p: (LuaValue, LuaValue)|
            if (p.0 matches LuaValue::Str(k) && k@ == "base"@) {
                (p.0, LuaValue::Nil)
            } else {
                p
            },
    )
}

/// Setting the `base` field to `nil` leaves every other field as it was.
proof fn lemma_without_base_field(t: Seq<(LuaValue, LuaValue)>, key: Seq<char>, i: int)
    requires
        0 <= i,
    ensures
        field_from(without_base(t), key, i) == if key == "base"@ {
            LuaValue::Nil
        } else {
            field_from(t, key, i)
        },
    decreases t.len() - i,
{
    if i < t.len() {
        lemma_without_base_field(t, key, i + 1);
        assert(without_base(t)[i].0 == t[i].0);
    }
}

/// A base that is a string or a number never makes reading an entry fail, and is kept as it
/// is: an entry table whose `base` is such a value reads exactly when the same table with no
/// base reads, to the same locators and overrider, with that text as its base.
pub proof fn law_text_base_is_kept(v1: LuaValue, v2: LuaValue)
    requires
        v1 is Table,
        v2 is Table,
        v2->Table_0@ == without_base(v1->Table_0@),
        lua_field(v1->Table_0@, "base"@) is Str || lua_field(v1->Table_0@, "base"@) is Number,
    ensures
        entry_of(v1) is Ok <==> entry_of(v2) is Ok,
        entry_of(v1) matches Ok(e1) ==> entry_of(v2) matches Ok(e2) && e1.locate == e2.locate && e1.overrider
            == e2.overrider && e2.base is None && e1.base == lua_text(lua_field(v1->Table_0@, "base"@)),
{
    let t1 = v1->Table_0@;
    let t2 = v2->Table_0@;
    lemma_without_base_field(t1, "locate"@, 0);
    lemma_without_base_field(t1, "base"@, 0);
    lemma_without_base_field(t1, "override"@, 0);
    reveal_strlit("locate");
    reveal_strlit("base");
    reveal_strlit("override");
    assert("locate"@ != "base"@) by {
        assert("locate"@.len() != "base"@.len());
    }
    assert("override"@ != "base"@) by {
        assert("override"@.len() != "base"@.len());
    }
    assert(lua_field(t2, "locate"@) == lua_field(t1, "locate"@));
    assert(lua_field(t2, "override"@) == lua_field(t1, "override"@));
    assert(lua_field(t2, "base"@) == LuaValue::Nil);
}


/// How many targets the locators of the entries of `cfg` find in `fs` (those that find
/// theirs).
pub open spec fn targets_found(cfg: CfgView, dir: Seq<char>, fs: FilesView) -> nat
    decreases cfg.len(),
{
    if cfg.len() == 0 {
        0
    } else {
        let here = match locate_all_spec(cfg[0].1.locate, dir, fs) {
            Ok(apps) => apps.len(),
            Err(_) => 0,
        };
        here + targets_found(cfg.drop_first(), dir, fs)
    }
}

/// `emux diff` covers every target: it succeeds exactly when every entry's locators find
/// their targets, and then shows one line per target found.
pub proof fn law_diff_covers_every_target(cfg: CfgView, dir: Seq<char>, worktree: Seq<char>, fs: FilesView)
    ensures
        diff_spec(cfg, dir, worktree, fs) is Ok <==> forall|k: int|
            0 <= k < cfg.len() ==> locate_all_spec(#[trigger] cfg[k].1.locate, dir, fs) is Ok,
        diff_spec(cfg, dir, worktree, fs) matches Ok(ds) ==> ds.len() == targets_found(cfg, dir, fs),
    decreases cfg.len(),
{
    if cfg.len() > 0 {
        let r = cfg.drop_first();
        law_diff_covers_every_target(r, dir, worktree, fs);
        assert forall|k: int| 0 <= k < r.len() implies #[trigger] r[k] == cfg[k + 1] by {}
        if forall|k: int| 0 <= k < cfg.len() ==> locate_all_spec(#[trigger] cfg[k].1.locate, dir, fs) is Ok {
            assert(locate_all_spec(cfg[0].1.locate, dir, fs) is Ok);
            assert forall|k: int| 0 <= k < r.len() implies locate_all_spec(#[trigger] r[k].1.locate, dir, fs) is Ok by {
                assert(r[k] == cfg[k + 1]);
                assert(locate_all_spec(cfg[k + 1].1.locate, dir, fs) is Ok);
            }
        }
        if diff_spec(cfg, dir, worktree, fs) is Ok {
            assert forall|k: int| 0 <= k < cfg.len() implies locate_all_spec(#[trigger] cfg[k].1.locate, dir, fs) is Ok by {
                if k > 0 {
                    assert(r[k - 1] == cfg[k]);
                    assert(locate_all_spec(r[k - 1].1.locate, dir, fs) is Ok);
                }
            }
        }
    }
}

} // verus!
