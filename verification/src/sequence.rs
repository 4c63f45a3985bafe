//! What a sequence of writes leaves in each file: each file's content is the fold of the
//! writes that name it, in order, over its original content.
use vstd::prelude::*;

use crate::config::{locate_all_spec, write_entry};
use crate::error::ErrorView;
use crate::env::{
    env_assignments, env_prefix, line_body, line_ending, lines, lemma_piece_parts, lemma_pieces_of_flatten,
    lemma_pieces_wf, no_newline, numbered_lines, pieces, pieces_wf,
};
use crate::laws::{
    env_matched, env_write_keeps_shape, lemma_apply_all_concat, lemma_assign_piece,
    lemma_assignments_keep_shape, lemma_line_ending_cases, lemma_loc_write, lemma_plan_writes_shape,
    assignment_numbers, lemma_assignment_numbers, lemma_env_fixed_holds, lemma_loc_settles, lemma_written_assignment, line_safe, loc_file, loc_fixed, loc_holds,
    loc_ready, loc_result, loc_settles, plan_writes, write_plan, written_piece, written_upto,
};
use crate::json::{
    json_lookup, json_parse, json_pretty, json_replace, keys_apart, lemma_keys_apart_symmetric,
    lemma_replace_commute, lemma_replace_existing, lemma_replace_keeps_other, lemma_replace_same,
    selector_keys, JsonView,
};
use crate::locator::json_new_value;
use crate::text::{first_occurrence, lemma_replace_first_self, starts_with};
use crate::locator::{
    apply_spec, env_applicators, json_applicators, locate_spec, resolve_path, ApplicatorView, FilterView, WriterView,
};
use crate::overrider::apply_all;
use crate::workspace::{lemma_read_other, lemma_read_write, ws_read, ws_write, FilesView};

verus! {

broadcast use vstd::seq_lib::group_seq_properties;

/// The content of the file `f` after the writes `w`, in order, starting from `c`: each write
/// through a locator that names `f` leaves its locator's result.
pub open spec fn file_fold(w: Seq<(Seq<FilterView>, Seq<char>)>, f: Seq<char>, dir: Seq<char>, c: Seq<char>) -> Seq<char>
    decreases w.len(),
{
    if w.len() == 0 {
        c
    } else {
        let prev = file_fold(w.drop_last(), f, dir, c);
        if loc_file(w.last().0, dir) == f {
            loc_result(w.last().0, w.last().1, prev)
        } else {
            prev
        }
    }
}

/// The targets a locator (with at least one filter) finds in its file when it holds `c`.
pub open spec fn located(l: Seq<FilterView>, dir: Seq<char>, c: Seq<char>) -> Result<Seq<ApplicatorView>, ErrorView> {
    match l[0] {
        FilterView::EnvFile { path, variable } => Ok(env_applicators(resolve_path(dir, path), c, variable)),
        FilterView::JsonFile { path, selector } => json_applicators(resolve_path(dir, path), c, selector),
    }
}

/// Each write has a filter, finds its file in `fs`, and can be made into what the writes
/// before it left there.
pub open spec fn fold_ready(w: Seq<(Seq<FilterView>, Seq<char>)>, dir: Seq<char>, fs: FilesView) -> bool {
    forall|k: int|
        0 <= k < w.len() ==> {
            &&& (#[trigger] w[k]).0.len() > 0
            &&& ws_read(fs, loc_file(w[k].0, dir)) is Some
            &&& loc_ready(
                w[k].0,
                w[k].1,
                file_fold(w.take(k), loc_file(w[k].0, dir), dir, ws_read(fs, loc_file(w[k].0, dir)).unwrap()),
            )
        }
}

/// What writing through the targets a locator finds does: the file and the writer of each.
pub open spec fn target_writes(r: Result<Seq<ApplicatorView>, ErrorView>) -> Result<Seq<(Seq<char>, WriterView)>, ErrorView> {
    match r {
        Ok(s) => Ok(s.map_values(|a: ApplicatorView| (a.path, a.writer))),
        Err(e) => Err(e),
    }
}

/// What each locator finds to write does not change while the writes before it are made.
pub open spec fn fold_stable(w: Seq<(Seq<FilterView>, Seq<char>)>, dir: Seq<char>, fs: FilesView) -> bool {
    forall|s: int, k: int|
        #![trigger w.take(s), w[k]]
        0 <= s <= k < w.len() ==> {
            let f = loc_file(w[k].0, dir);
            let c = ws_read(fs, f).unwrap();
            target_writes(located(w[k].0, dir, file_fold(w.take(s), f, dir, c))) == target_writes(
                located(w[k].0, dir, file_fold(w.take(k), f, dir, c)),
            )
        }
}

/// Targets with the same files and writers write alike: the old values they show play no
/// part.
pub proof fn lemma_apply_same_writes(s1: Seq<ApplicatorView>, s2: Seq<ApplicatorView>, v: Seq<char>, fs: FilesView)
    requires
        s1.map_values(|a: ApplicatorView| (a.path, a.writer)) == s2.map_values(|a: ApplicatorView| (a.path, a.writer)),
    ensures
        apply_all(s1, v, fs) == apply_all(s2, v, fs),
    decreases s1.len(),
{
    let pw = |a: ApplicatorView| (a.path, a.writer);
    assert(s1.len() == s1.map_values(pw).len());
    if s1.len() > 0 {
        assert(s1.map_values(pw)[0] == s2.map_values(pw)[0]);
        assert(s1[0].path == s2[0].path && s1[0].writer == s2[0].writer);
        assert(apply_spec(s1[0], v, fs) == apply_spec(s2[0], v, fs));
        assert(s1.drop_first().map_values(pw) =~= s1.map_values(pw).drop_first());
        assert(s2.drop_first().map_values(pw) =~= s2.map_values(pw).drop_first());
        match apply_spec(s1[0], v, fs) {
            Ok(fs2) => {
                lemma_apply_same_writes(s1.drop_first(), s2.drop_first(), v, fs2);
            },
            Err(e) => {},
        }
    }
}

/// Every file of `fs2` holds the fold of the writes `w` over what it holds in `fs`, and no
/// file is added.
pub open spec fn reads_fold(fs2: FilesView, w: Seq<(Seq<FilterView>, Seq<char>)>, dir: Seq<char>, fs: FilesView) -> bool {
    forall|g: Seq<char>|
        #[trigger] ws_read(fs2, g) == match ws_read(fs, g) {
            Some(c) => Some(file_fold(w, g, dir, c)),
            None => None::<Seq<char>>,
        }
}

/// Folding `a` and then `b` is folding `a + b`.
pub proof fn lemma_fold_concat(
    a: Seq<(Seq<FilterView>, Seq<char>)>,
    b: Seq<(Seq<FilterView>, Seq<char>)>,
    f: Seq<char>,
    dir: Seq<char>,
    c: Seq<char>,
)
    ensures
        file_fold(a + b, f, dir, c) == file_fold(b, f, dir, file_fold(a, f, dir, c)),
    decreases b.len(),
{
    if b.len() == 0 {
        assert(a + b =~= a);
    } else {
        assert((a + b).drop_last() =~= a + b.drop_last());
        assert((a + b).last() == b.last());
        lemma_fold_concat(a, b.drop_last(), f, dir, c);
    }
}

/// Folding a single write.
pub proof fn lemma_fold_one(l: Seq<FilterView>, v: Seq<char>, f: Seq<char>, dir: Seq<char>, c: Seq<char>)
    ensures
        file_fold(seq![(l, v)], f, dir, c) == if loc_file(l, dir) == f {
            loc_result(l, v, c)
        } else {
            c
        },
{
    let w = seq![(l, v)];
    assert(w.drop_last() =~= Seq::<(Seq<FilterView>, Seq<char>)>::empty());
    assert(file_fold(w.drop_last(), f, dir, c) == c);
}

/// A locator reads its file: what it finds there is what it finds in the file's content.
pub proof fn lemma_locate_read(l: Seq<FilterView>, dir: Seq<char>, fs: FilesView)
    requires
        l.len() > 0,
        ws_read(fs, loc_file(l, dir)) is Some,
    ensures
        locate_spec(l, dir, fs) == located(l, dir, ws_read(fs, loc_file(l, dir)).unwrap()),
{
}

/// One entry's write of `v`, its targets found in `a` and written into `b`: when each
/// locator finds in `a` what it would find in its file once the writes before it are made in
/// `b`, and each write can be made, every file of the result holds the fold of the writes.
#[verifier::rlimit(60)]
#[verifier::spinoff_prover]
proof fn lemma_entry_fold(locs: Seq<Seq<FilterView>>, v: Seq<char>, dir: Seq<char>, a: FilesView, b: FilesView)
    requires
        fold_ready(locs.map_values(|l: Seq<FilterView>| (l, v)), dir, b),
        forall|k: int|
            0 <= k < locs.len() ==> {
                let f = loc_file(#[trigger] locs[k], dir);
                &&& ws_read(a, f) is Some
                &&& target_writes(located(locs[k], dir, ws_read(a, f).unwrap())) == target_writes(
                    located(
                        locs[k],
                        dir,
                        file_fold(locs.map_values(|l: Seq<FilterView>| (l, v)).take(k), f, dir, ws_read(b, f).unwrap()),
                    ),
                )
            },
    ensures
        locate_all_spec(locs, dir, a) is Ok,
        apply_all(locate_all_spec(locs, dir, a)->Ok_0, v, b).1 is None,
        reads_fold(apply_all(locate_all_spec(locs, dir, a)->Ok_0, v, b).0, locs.map_values(|l: Seq<FilterView>| (l, v)), dir, b),
    decreases locs.len(),
{
    let w = locs.map_values(|l: Seq<FilterView>| (l, v));
    if locs.len() == 0 {
        assert(locate_all_spec(locs, dir, a) == Ok::<Seq<ApplicatorView>, ErrorView>(seq![]));
        assert(apply_all(seq![], v, b) == (b, None::<ErrorView>));
        assert forall|g: Seq<char>| #[trigger] ws_read(b, g) == match ws_read(b, g) {
            Some(c) => Some(file_fold(w, g, dir, c)),
            None => None::<Seq<char>>,
        } by {}
    } else {
        let l0 = locs[0];
        let rest = locs.drop_first();
        let wr = rest.map_values(|l: Seq<FilterView>| (l, v));
        assert(w[0] == (l0, v));
        assert(w.take(0) =~= Seq::<(Seq<FilterView>, Seq<char>)>::empty());
        let f0 = loc_file(l0, dir);
        let c0 = ws_read(b, f0).unwrap();
        assert(loc_ready(l0, v, c0));
        lemma_locate_read(l0, dir, a);
        lemma_locate_read(l0, dir, b);
        assert(target_writes(locate_spec(l0, dir, a)) == target_writes(locate_spec(l0, dir, b)));
        lemma_loc_write(l0, dir, v, b);
        let one = seq![l0];
        assert(one[0] == l0);
        assert(one.drop_first() =~= Seq::<Seq<FilterView>>::empty());
        assert(locate_all_spec(one.drop_first(), dir, b) == Ok::<Seq<ApplicatorView>, ErrorView>(seq![]));
        let apps0 = locate_spec(l0, dir, a)->Ok_0;
        let appsb = locate_spec(l0, dir, b)->Ok_0;
        assert(appsb + Seq::<ApplicatorView>::empty() =~= appsb);
        lemma_apply_same_writes(apps0, appsb, v, b);
        let r0 = loc_result(l0, v, c0);
        let b1 = ws_write(b, f0, r0);
        assert(apply_all(apps0, v, b) == (b1, None::<ErrorView>));
        let w1 = w.take(1);
        assert(w1 =~= seq![(l0, v)]);
        assert(w =~= w1 + wr);
        // What `b1` holds is the fold of the first write.
        assert forall|g: Seq<char>| #[trigger] ws_read(b1, g) == match ws_read(b, g) {
            Some(c) => Some(file_fold(w1, g, dir, c)),
            None => None::<Seq<char>>,
        } by {
            match ws_read(b, g) {
                Some(c) => {
                    lemma_fold_one(l0, v, g, dir, c);
                },
                None => {},
            }
            if g == f0 {
                lemma_read_write(b, f0, r0);
            } else {
                lemma_read_other(b, f0, r0, g);
            }
        }
        assert forall|k: int| 0 <= k < wr.len() implies {
            &&& (#[trigger] wr[k]).0.len() > 0
            &&& ws_read(b1, loc_file(wr[k].0, dir)) is Some
            &&& loc_ready(
                wr[k].0,
                wr[k].1,
                file_fold(wr.take(k), loc_file(wr[k].0, dir), dir, ws_read(b1, loc_file(wr[k].0, dir)).unwrap()),
            )
        } by {
            assert(wr[k] == w[k + 1]);
            let f = loc_file(wr[k].0, dir);
            assert(w.take(k + 1) =~= w1 + wr.take(k));
            lemma_fold_concat(w1, wr.take(k), f, dir, ws_read(b, f).unwrap());
            assert(ws_read(b1, f) == Some(file_fold(w1, f, dir, ws_read(b, f).unwrap())));
        }
        assert forall|k: int| 0 <= k < rest.len() implies {
            let f = loc_file(#[trigger] rest[k], dir);
            &&& ws_read(a, f) is Some
            &&& target_writes(located(rest[k], dir, ws_read(a, f).unwrap())) == target_writes(
                located(rest[k], dir, file_fold(wr.take(k), f, dir, ws_read(b1, f).unwrap())),
            )
        } by {
            assert(rest[k] == locs[k + 1]);
            assert(w[k + 1] == (rest[k], v));
            let f = loc_file(rest[k], dir);
            assert(ws_read(b, loc_file(w[k + 1].0, dir)) is Some);
            assert(w.take(k + 1) =~= w1 + wr.take(k));
            lemma_fold_concat(w1, wr.take(k), f, dir, ws_read(b, f).unwrap());
            assert(ws_read(b1, f) == Some(file_fold(w1, f, dir, ws_read(b, f).unwrap())));
        }
        lemma_entry_fold(rest, v, dir, a, b1);
        let bs = locate_all_spec(rest, dir, a)->Ok_0;
        assert(locate_all_spec(locs, dir, a) == Ok::<Seq<ApplicatorView>, ErrorView>(apps0 + bs));
        lemma_apply_all_concat(apps0, bs, v, b);
        let fin = apply_all(bs, v, b1).0;
        assert forall|g: Seq<char>| #[trigger] ws_read(fin, g) == match ws_read(b, g) {
            Some(c) => Some(file_fold(w, g, dir, c)),
            None => None::<Seq<char>>,
        } by {
            assert(ws_read(fin, g) == match ws_read(b1, g) {
                Some(c) => Some(file_fold(wr, g, dir, c)),
                None => None::<Seq<char>>,
            });
            assert(ws_read(b1, g) == match ws_read(b, g) {
                Some(c) => Some(file_fold(w1, g, dir, c)),
                None => None::<Seq<char>>,
            });
            match ws_read(b, g) {
                Some(c) => {
                    lemma_fold_concat(w1, wr, g, dir, c);
                },
                None => {},
            }
        }
    }
}

/// The write of a plan whose writes can each be made, and whose locators find the same
/// targets however many of the writes before them are made: it succeeds, and every file then
/// holds the fold of the plan's writes over what it held.
#[verifier::rlimit(100)]
#[verifier::spinoff_prover]
pub proof fn lemma_plan_fold(plan: Seq<(Seq<Seq<FilterView>>, Seq<char>)>, dir: Seq<char>, fs: FilesView)
    requires
        fold_ready(plan_writes(plan), dir, fs),
        fold_stable(plan_writes(plan), dir, fs),
    ensures
        write_plan(plan, dir, fs).1 is None,
        reads_fold(write_plan(plan, dir, fs).0, plan_writes(plan), dir, fs),
    decreases plan.len(),
{
    let w = plan_writes(plan);
    if plan.len() == 0 {
        assert forall|g: Seq<char>| #[trigger] ws_read(fs, g) == match ws_read(fs, g) {
            Some(c) => Some(file_fold(w, g, dir, c)),
            None => None::<Seq<char>>,
        } by {}
    } else {
        lemma_plan_writes_shape(plan);
        let locs = plan[0].0;
        let v = plan[0].1;
        let n = locs.len() as int;
        let we = locs.map_values(|l: Seq<FilterView>| (l, v));
        let wr = plan_writes(plan.drop_first());
        assert(w =~= we + wr);
        assert(w.take(n) =~= we);
        assert forall|k: int| 0 <= k < we.len() implies {
            &&& (#[trigger] we[k]).0.len() > 0
            &&& ws_read(fs, loc_file(we[k].0, dir)) is Some
            &&& loc_ready(
                we[k].0,
                we[k].1,
                file_fold(we.take(k), loc_file(we[k].0, dir), dir, ws_read(fs, loc_file(we[k].0, dir)).unwrap()),
            )
        } by {
            assert(w[k] == we[k]);
            assert(w.take(k) =~= we.take(k));
        }
        assert forall|k: int| 0 <= k < locs.len() implies {
            let f = loc_file(#[trigger] locs[k], dir);
            &&& ws_read(fs, f) is Some
            &&& target_writes(located(locs[k], dir, ws_read(fs, f).unwrap())) == target_writes(
                located(locs[k], dir, file_fold(we.take(k), f, dir, ws_read(fs, f).unwrap())),
            )
        } by {
            assert(w[k] == we[k]);
            assert(we[k] == (locs[k], v));
            assert(w.take(k) =~= we.take(k));
            assert(w.take(0) =~= Seq::<(Seq<FilterView>, Seq<char>)>::empty());
            assert(w[k] == w[k] && w.take(0) == w.take(0));
        }
        lemma_entry_fold(locs, v, dir, fs, fs);
        let s1 = write_entry(locs, v, dir, fs).0;
        assert forall|k: int| 0 <= k < wr.len() implies {
            &&& (#[trigger] wr[k]).0.len() > 0
            &&& ws_read(s1, loc_file(wr[k].0, dir)) is Some
            &&& loc_ready(
                wr[k].0,
                wr[k].1,
                file_fold(wr.take(k), loc_file(wr[k].0, dir), dir, ws_read(s1, loc_file(wr[k].0, dir)).unwrap()),
            )
        } by {
            assert(w[n + k] == wr[k]);
            let f = loc_file(wr[k].0, dir);
            assert(w.take(n + k) =~= we + wr.take(k));
            lemma_fold_concat(we, wr.take(k), f, dir, ws_read(fs, f).unwrap());
            assert(ws_read(s1, f) == Some(file_fold(we, f, dir, ws_read(fs, f).unwrap())));
        }
        assert forall|s: int, k: int|
            #![trigger wr.take(s), wr[k]]
            0 <= s <= k < wr.len() implies {
            let f = loc_file(wr[k].0, dir);
            let c = ws_read(s1, f).unwrap();
            target_writes(located(wr[k].0, dir, file_fold(wr.take(s), f, dir, c))) == target_writes(
                located(wr[k].0, dir, file_fold(wr.take(k), f, dir, c)),
            )
        } by {
            assert(w[n + k] == wr[k]);
            let f = loc_file(wr[k].0, dir);
            let c = ws_read(fs, f).unwrap();
            assert(w.take(n + k) =~= we + wr.take(k));
            assert(w.take(n + s) =~= we + wr.take(s));
            lemma_fold_concat(we, wr.take(k), f, dir, c);
            lemma_fold_concat(we, wr.take(s), f, dir, c);
            assert(ws_read(s1, f) == Some(file_fold(we, f, dir, c)));
            assert(w.take(n + s) == w.take(n + s) && w[n + k] == w[n + k]);
        }
        lemma_plan_fold(plan.drop_first(), dir, s1);
        let fin = write_plan(plan.drop_first(), dir, s1).0;
        assert(write_plan(plan, dir, fs) == write_plan(plan.drop_first(), dir, s1));
        assert forall|g: Seq<char>| #[trigger] ws_read(fin, g) == match ws_read(fs, g) {
            Some(c) => Some(file_fold(w, g, dir, c)),
            None => None::<Seq<char>>,
        } by {
            assert(ws_read(fin, g) == match ws_read(s1, g) {
                Some(c) => Some(file_fold(wr, g, dir, c)),
                None => None::<Seq<char>>,
            });
            assert(ws_read(s1, g) == match ws_read(fs, g) {
                Some(c) => Some(file_fold(we, g, dir, c)),
                None => None::<Seq<char>>,
            });
            match ws_read(fs, g) {
                Some(c) => {
                    lemma_fold_concat(we, wr, g, dir, c);
                },
                None => {},
            }
        }
    }
}

/// `x` holds no `=`.
pub open spec fn no_equals(x: Seq<char>) -> bool {
    forall|i: int| 0 <= i < x.len() ==> x[i] != '='
}

/// Two variables are the same, or neither holds `=`: then no line assigns both.
pub open spec fn vars_apart(x: Seq<char>, y: Seq<char>) -> bool {
    x == y || (no_equals(x) && no_equals(y))
}

/// The variables of `m` are pairwise apart.
pub open spec fn map_apart(m: Map<Seq<char>, Seq<char>>) -> bool {
    forall|x: Seq<char>, y: Seq<char>|
        #![trigger m.dom().contains(x), m.dom().contains(y)]
        m.dom().contains(x) && m.dom().contains(y) ==> vars_apart(x, y)
}

/// Every value of `m` is line-safe.
pub open spec fn map_line_safe(m: Map<Seq<char>, Seq<char>>) -> bool {
    forall|x: Seq<char>| #[trigger] m.dom().contains(x) ==> line_safe(m[x])
}

/// A line that assigns two variables that are apart assigns one variable.
pub proof fn lemma_one_assignment(b: Seq<char>, x: Seq<char>, y: Seq<char>)
    requires
        vars_apart(x, y),
        starts_with(b, env_prefix(x)),
        starts_with(b, env_prefix(y)),
    ensures
        x == y,
{
    if x != y {
        if x.len() < y.len() {
            assert(b[x.len() as int] == env_prefix(x)[x.len() as int]);
            assert(b[x.len() as int] == env_prefix(y)[x.len() as int]);
            assert(y[x.len() as int] == '=');
        } else if y.len() < x.len() {
            assert(b[y.len() as int] == env_prefix(y)[y.len() as int]);
            assert(b[y.len() as int] == env_prefix(x)[y.len() as int]);
            assert(x[y.len() as int] == '=');
        } else {
            assert forall|i: int| 0 <= i < x.len() implies x[i] == y[i] by {
                assert(b[i] == env_prefix(x)[i]);
                assert(b[i] == env_prefix(y)[i]);
            }
            assert(x =~= y);
        }
    }
}

/// A piece of a dotenv file assigns a variable of `m`.
pub open spec fn assigned_in(p: Seq<char>, m: Map<Seq<char>, Seq<char>>) -> bool {
    exists|x: Seq<char>| m.dom().contains(x) && #[trigger] env_matched(p, env_prefix(x))
}

/// The variable of `m` that a piece assigns.
pub open spec fn assigned_var(p: Seq<char>, m: Map<Seq<char>, Seq<char>>) -> Seq<char> {
    choose|x: Seq<char>| m.dom().contains(x) && #[trigger] env_matched(p, env_prefix(x))
}

/// A piece with its assignment, if it makes one of a variable of `m`, set to that variable's
/// value, the terminator kept.
pub open spec fn set_piece(p: Seq<char>, m: Map<Seq<char>, Seq<char>>) -> Seq<char> {
    if assigned_in(p, m) {
        env_prefix(assigned_var(p, m)) + m[assigned_var(p, m)] + line_ending(p)
    } else {
        p
    }
}

/// The pieces of `c` with every assignment of a variable of `m` set to its value.
pub open spec fn set_pieces(c: Seq<char>, m: Map<Seq<char>, Seq<char>>) -> Seq<Seq<char>> {
    pieces(c).map_values(|p: Seq<char>| set_piece(p, m))
}

/// The dotenv file `c` with every assignment of a variable of `m` set to its value.
pub open spec fn env_state(c: Seq<char>, m: Map<Seq<char>, Seq<char>>) -> Seq<char> {
    set_pieces(c, m).flatten()
}

/// A piece that assigns a variable of `m` (apart) assigns the one `assigned_var` names, and
/// no other.
pub proof fn lemma_assigned_var(p: Seq<char>, m: Map<Seq<char>, Seq<char>>, x: Seq<char>)
    requires
        map_apart(m),
        m.dom().contains(x),
        env_matched(p, env_prefix(x)),
    ensures
        assigned_in(p, m),
        assigned_var(p, m) == x,
{
    assert(m.dom().contains(x) && env_matched(p, env_prefix(x)));
    let y = assigned_var(p, m);
    assert(m.dom().contains(x) && m.dom().contains(y));
    lemma_one_assignment(line_body(p), x, y);
}

/// The shape of the set pieces: each keeps its terminator, and its line is `x=` and the value
/// where it assigns a variable `x` of `m`, the original line elsewhere.
pub proof fn lemma_set_pieces(c: Seq<char>, m: Map<Seq<char>, Seq<char>>)
    requires
        map_line_safe(m),
    ensures
        ({
            let ps = pieces(c);
            let q = set_pieces(c, m);
            &&& q.len() == ps.len()
            &&& pieces_wf(q)
            &&& pieces(env_state(c, m)) == q
            &&& lines(env_state(c, m)).len() == lines(c).len()
            &&& forall|i: int|
                0 <= i < ps.len() ==> {
                    &&& line_ending(#[trigger] q[i]) == line_ending(ps[i])
                    &&& line_body(q[i]) == if assigned_in(ps[i], m) {
                        env_prefix(assigned_var(ps[i], m)) + m[assigned_var(ps[i], m)]
                    } else {
                        line_body(ps[i])
                    }
                }
        }),
{
    let ps = pieces(c);
    let q = set_pieces(c, m);
    lemma_pieces_wf(c);
    assert forall|i: int| 0 <= i < ps.len() implies {
        &&& line_ending(#[trigger] q[i]) == line_ending(ps[i])
        &&& line_body(q[i]) == if assigned_in(ps[i], m) {
            env_prefix(assigned_var(ps[i], m)) + m[assigned_var(ps[i], m)]
        } else {
            line_body(ps[i])
        }
        &&& q[i].len() > 0
        &&& no_newline(q[i].drop_last())
        &&& (i < ps.len() - 1 ==> q[i].last() == '\n')
    } by {
        let p = ps[i];
        if assigned_in(p, m) {
            let x = assigned_var(p, m);
            let prefix = env_prefix(x);
            let v = m[x];
            assert(line_safe(v));
            lemma_assign_piece(prefix, v, p);
            lemma_piece_parts(p);
            lemma_line_ending_cases(p);
            let e = line_ending(p);
            let np = prefix + v + e;
            assert(q[i] == np);
            assert forall|j: int| 0 <= j < np.drop_last().len() implies np.drop_last()[j] != '\n' by {
                if j < prefix.len() {
                    assert(prefix[j] == line_body(p)[j]);
                } else if j < prefix.len() + v.len() {
                } else {
                    assert(np[j] == e[j - prefix.len() - v.len()]);
                }
            }
            if i < ps.len() - 1 {
                assert(p.last() == '\n');
                assert(e.len() > 0);
            }
        } else {
            assert(q[i] == p);
        }
    }
    assert(pieces_wf(q));
    lemma_pieces_of_flatten(q);
}

/// The lines of a dotenv file with the assignments of `m` set.
pub proof fn lemma_env_state_lines(c: Seq<char>, m: Map<Seq<char>, Seq<char>>)
    requires
        map_line_safe(m),
    ensures
        lines(env_state(c, m)).len() == lines(c).len(),
        forall|i: int|
            0 <= i < lines(c).len() ==> #[trigger] lines(env_state(c, m))[i] == if assigned_in(pieces(c)[i], m) {
                env_prefix(assigned_var(pieces(c)[i], m)) + m[assigned_var(pieces(c)[i], m)]
            } else {
                lines(c)[i]
            },
{
    lemma_set_pieces(c, m);
    let q = set_pieces(c, m);
    assert forall|i: int| 0 <= i < lines(c).len() implies #[trigger] lines(env_state(c, m))[i] == if assigned_in(
        pieces(c)[i],
        m,
    ) {
        env_prefix(assigned_var(pieces(c)[i], m)) + m[assigned_var(pieces(c)[i], m)]
    } else {
        lines(c)[i]
    } by {
        assert(lines(env_state(c, m))[i] == line_body(q[i]));
        assert(lines(c)[i] == line_body(pieces(c)[i]));
    }
}

/// A map's variables stay apart when one is removed from consideration: those of a smaller map.
pub proof fn lemma_map_apart_insert(m: Map<Seq<char>, Seq<char>>, x: Seq<char>, v: Seq<char>)
    requires
        map_apart(m.insert(x, v)),
    ensures
        map_apart(m),
        forall|y: Seq<char>| #[trigger] m.dom().contains(y) ==> vars_apart(x, y),
{
    let m2 = m.insert(x, v);
    assert forall|y: Seq<char>, z: Seq<char>|
        #![trigger m.dom().contains(y), m.dom().contains(z)]
        m.dom().contains(y) && m.dom().contains(z) implies vars_apart(y, z) by {
        assert(m2.dom().contains(y) && m2.dom().contains(z));
    }
    assert forall|y: Seq<char>| #[trigger] m.dom().contains(y) implies vars_apart(x, y) by {
        assert(m2.dom().contains(x) && m2.dom().contains(y));
    }
}

/// Writing `v` through a dotenv locator of variable `x` into a file whose assignments of the
/// variables of `m` are set: it can be made, and sets `x` to `v` as well. It needs the
/// variables apart and the values line-safe.
pub proof fn lemma_env_state_write(l: Seq<FilterView>, c: Seq<char>, m: Map<Seq<char>, Seq<char>>, v: Seq<char>)
    requires
        l.len() > 0,
        l[0] is EnvFile,
        map_apart(m.insert(l[0]->EnvFile_variable, v)),
        map_line_safe(m),
        line_safe(v),
    ensures
        loc_ready(l, v, env_state(c, m)),
        loc_result(l, v, env_state(c, m)) == env_state(c, m.insert(l[0]->EnvFile_variable, v)),
{
    let x = l[0]->EnvFile_variable;
    let px = env_prefix(x);
    let ps = pieces(c);
    let q = set_pieces(c, m);
    let c1 = env_state(c, m);
    let m2 = m.insert(x, v);
    lemma_map_apart_insert(m, x, v);
    lemma_set_pieces(c, m);
    lemma_env_state_lines(c, m);
    lemma_assignments_keep_shape(c1, x, v);
    let w = written_upto(q, px, v, q.len() as int);
    let q2 = set_pieces(c, m2);
    assert forall|i: int| 0 <= i < ps.len() implies #[trigger] w[i] == q2[i] by {
        let p = ps[i];
        if env_matched(q[i], px) {
            lemma_written_assignment(c1, x, v, i);
            if assigned_in(p, m) {
                let y = assigned_var(p, m);
                lemma_one_assignment(line_body(q[i]), x, y);
            } else {
                assert(q[i] == p);
            }
            assert(env_matched(p, px));
            lemma_assigned_var(p, m2, x);
        } else {
            assert(w[i] == q[i]);
            assert(!env_matched(p, px)) by {
                if env_matched(p, px) {
                    if m.dom().contains(x) {
                        lemma_assigned_var(p, m, x);
                    } else if assigned_in(p, m) {
                        let y = assigned_var(p, m);
                        lemma_one_assignment(line_body(p), x, y);
                    } else {
                        assert(q[i] == p);
                    }
                }
            }
            assert(assigned_in(p, m2) == assigned_in(p, m)) by {
                if assigned_in(p, m2) {
                    let z = assigned_var(p, m2);
                    assert(z != x);
                    assert(m.dom().contains(z) && env_matched(p, env_prefix(z)));
                }
                if assigned_in(p, m) {
                    let z = assigned_var(p, m);
                    assert(m2.dom().contains(z) && env_matched(p, env_prefix(z)));
                }
            }
            if assigned_in(p, m) {
                let z1 = assigned_var(p, m);
                let z2 = assigned_var(p, m2);
                assert(z2 != x);
                assert(m.dom().contains(z2));
                lemma_one_assignment(line_body(p), z1, z2);
            }
        }
    }
    assert(w =~= q2);
}

/// A dotenv locator of a variable `x` of `m`, writing `m[x]`, finds the file with the
/// assignments of `m` set already holding what it would write.
pub proof fn lemma_env_state_fixed(l: Seq<FilterView>, c: Seq<char>, m: Map<Seq<char>, Seq<char>>)
    requires
        l.len() > 0,
        l[0] is EnvFile,
        m.dom().contains(l[0]->EnvFile_variable),
        map_apart(m),
        map_line_safe(m),
    ensures
        loc_fixed(l, m[l[0]->EnvFile_variable], env_state(c, m)),
{
    reveal(written_piece);
    let x = l[0]->EnvFile_variable;
    let px = env_prefix(x);
    let v = m[x];
    let ps = pieces(c);
    let q = set_pieces(c, m);
    let c1 = env_state(c, m);
    lemma_set_pieces(c, m);
    crate::env::lemma_pieces_flatten(c1);
    assert forall|i: int| 0 <= i < q.len() && env_matched(#[trigger] q[i], px) implies written_piece(q[i], px, v)
        == q[i] by {
        let p = ps[i];
        if assigned_in(p, m) {
            let y = assigned_var(p, m);
            lemma_one_assignment(line_body(q[i]), x, y);
            assert(line_body(q[i]).skip(px.len() as int) =~= v);
            lemma_replace_first_self(px + v, v);
            lemma_piece_parts(q[i]);
        } else {
            assert(q[i] == p);
            lemma_assigned_var(p, m, x);
        }
    }
    assert(env_write_keeps_shape(q, px, v));
    let w = written_upto(q, px, v, q.len() as int);
    assert forall|i: int| 0 <= i < q.len() implies #[trigger] w[i] == q[i] by {}
    assert(w =~= q);
}

/// Filtering two sequences that agree on the predicate, and on every element it keeps, keeps
/// the same elements.
pub proof fn lemma_filter_same(s1: Seq<(int, Seq<char>)>, s2: Seq<(int, Seq<char>)>, p: spec_fn((int, Seq<char>)) -> bool)
    requires
        s1.len() == s2.len(),
        forall|i: int| 0 <= i < s1.len() ==> #[trigger] p(s1[i]) == p(s2[i]) && (p(s1[i]) ==> s1[i] == s2[i]),
    ensures
        s1.filter(p) == s2.filter(p),
    decreases s1.len(),
{
    reveal(Seq::filter);
    if s1.len() > 0 {
        assert forall|i: int| 0 <= i < s1.drop_last().len() implies #[trigger] p(s1.drop_last()[i]) == p(
            s2.drop_last()[i],
        ) && (p(s1.drop_last()[i]) ==> s1.drop_last()[i] == s2.drop_last()[i]) by {
            assert(p(s1[i]) == p(s2[i]));
        }
        lemma_filter_same(s1.drop_last(), s2.drop_last(), p);
        assert(p(s1[s1.len() - 1]) == p(s2[s1.len() - 1]));
    }
}

/// A dotenv file with no assignment set is the file itself.
pub proof fn lemma_env_state_empty(c: Seq<char>)
    ensures
        env_state(c, Map::<Seq<char>, Seq<char>>::empty()) == c,
{
    let m = Map::<Seq<char>, Seq<char>>::empty();
    assert(set_pieces(c, m) =~= pieces(c));
    crate::env::lemma_pieces_flatten(c);
}

/// A dotenv locator of `x`, apart from every variable of `m` and `m2`, finds the same targets
/// in the file with the assignments of `m` set as with those of `m2`, when `x` has the same
/// value in both, or is in neither.
pub proof fn lemma_env_state_locate(
    abs: Seq<char>,
    c: Seq<char>,
    m: Map<Seq<char>, Seq<char>>,
    m2: Map<Seq<char>, Seq<char>>,
    x: Seq<char>,
)
    requires
        forall|y: Seq<char>| #[trigger] m.dom().contains(y) ==> vars_apart(x, y),
        forall|y: Seq<char>| #[trigger] m2.dom().contains(y) ==> vars_apart(x, y),
        map_line_safe(m),
        map_line_safe(m2),
        m.dom().contains(x) == m2.dom().contains(x),
        m.dom().contains(x) ==> m[x] == m2[x],
    ensures
        env_applicators(abs, env_state(c, m), x) == env_applicators(abs, env_state(c, m2), x),
{
    let c1 = env_state(c, m);
    let c2 = env_state(c, m2);
    let px = env_prefix(x);
    let ps = pieces(c);
    lemma_env_state_lines(c, m);
    lemma_env_state_lines(c, m2);
    let pred = |e: (int, Seq<char>)| starts_with(e.1, env_prefix(x));
    let n1 = numbered_lines(c1);
    let n2 = numbered_lines(c2);
    assert forall|i: int| 0 <= i < n1.len() implies #[trigger] pred(n1[i]) == pred(n2[i]) && (pred(n1[i]) ==> n1[i]
        == n2[i]) by {
        assert(n1[i] == (i + 1, lines(c1)[i]));
        assert(n2[i] == (i + 1, lines(c2)[i]));
        assert(lines(c)[i] == line_body(ps[i]));
        let orig = env_matched(ps[i], px);
        assert(pred(n1[i]) == orig && (orig ==> lines(c1)[i] == if m.dom().contains(x) {
            px + m[x]
        } else {
            lines(c)[i]
        })) by {
            if assigned_in(ps[i], m) {
                let y = assigned_var(ps[i], m);
                if starts_with(lines(c1)[i], px) {
                    lemma_one_assignment(lines(c1)[i], x, y);
                }
                if orig {
                    lemma_one_assignment(line_body(ps[i]), x, y);
                }
            } else if orig && m.dom().contains(x) {
                lemma_assigned_var(ps[i], m, x);
            }
        }
        assert(pred(n2[i]) == orig && (orig ==> lines(c2)[i] == if m2.dom().contains(x) {
            px + m2[x]
        } else {
            lines(c)[i]
        })) by {
            if assigned_in(ps[i], m2) {
                let y = assigned_var(ps[i], m2);
                if starts_with(lines(c2)[i], px) {
                    lemma_one_assignment(lines(c2)[i], x, y);
                }
                if orig {
                    lemma_one_assignment(line_body(ps[i]), x, y);
                }
            } else if orig && m2.dom().contains(x) {
                lemma_assigned_var(ps[i], m2, x);
            }
        }
    }
    lemma_filter_same(n1, n2, pred);
    assert(env_assignments(c1, x) == env_assignments(c2, x));
}

/// The variable a dotenv locator names.
pub open spec fn env_var(l: Seq<FilterView>) -> Seq<char> {
    l[0]->EnvFile_variable
}

/// The variables the dotenv writes among `w` to the file `f` set, with the value each last
/// wrote.
pub open spec fn env_map(w: Seq<(Seq<FilterView>, Seq<char>)>, f: Seq<char>, dir: Seq<char>) -> Map<Seq<char>, Seq<char>>
    decreases w.len(),
{
    if w.len() == 0 {
        Map::empty()
    } else {
        let m = env_map(w.drop_last(), f, dir);
        if loc_file(w.last().0, dir) == f {
            m.insert(env_var(w.last().0), w.last().1)
        } else {
            m
        }
    }
}

/// What the writes to a dotenv file `f` need, starting from `c` with the assignments of `m0`
/// set: each is a dotenv write of a variable no other of them writes, all variables (those of
/// `m0` too) are apart, and every value is line-safe.
pub open spec fn env_writes_ok(
    w: Seq<(Seq<FilterView>, Seq<char>)>,
    f: Seq<char>,
    dir: Seq<char>,
    c: Seq<char>,
    m0: Map<Seq<char>, Seq<char>>,
) -> bool {
    &&& map_apart(m0)
    &&& map_line_safe(m0)
    &&& forall|i: int|
        0 <= i < w.len() && loc_file((#[trigger] w[i]).0, dir) == f ==> {
            &&& w[i].0.len() > 0
            &&& w[i].0[0] is EnvFile
            &&& line_safe(w[i].1)
            &&& forall|y: Seq<char>| #[trigger] m0.dom().contains(y) ==> vars_apart(env_var(w[i].0), y)
        }
    &&& forall|i: int, j: int|
        #![trigger w[i], w[j]]
        0 <= i < w.len() && 0 <= j < w.len() && i != j && loc_file(w[i].0, dir) == f && loc_file(w[j].0, dir) == f
            ==> env_var(w[i].0) != env_var(w[j].0) && vars_apart(env_var(w[i].0), env_var(w[j].0))
}

/// The writes among the first `k` to a dotenv file leave it with their variables set, over
/// those of `m0`.
pub proof fn lemma_env_fold(
    w: Seq<(Seq<FilterView>, Seq<char>)>,
    f: Seq<char>,
    dir: Seq<char>,
    c: Seq<char>,
    m0: Map<Seq<char>, Seq<char>>,
    k: int,
)
    requires
        0 <= k <= w.len(),
        env_writes_ok(w, f, dir, c, m0),
    ensures
        file_fold(w.take(k), f, dir, env_state(c, m0)) == env_state(c, m0.union_prefer_right(env_map(w.take(k), f, dir))),
        forall|i: int|
            0 <= i < k && loc_file((#[trigger] w[i]).0, dir) == f ==> env_map(w.take(k), f, dir).dom().contains(
                env_var(w[i].0),
            ) && env_map(w.take(k), f, dir)[env_var(w[i].0)] == w[i].1,
        forall|y: Seq<char>|
            #[trigger] env_map(w.take(k), f, dir).dom().contains(y) ==> exists|i: int|
                0 <= i < k && loc_file((#[trigger] w[i]).0, dir) == f && env_var(w[i].0) == y,
        map_line_safe(m0.union_prefer_right(env_map(w.take(k), f, dir))),
    decreases k,
{
    let e0 = Map::<Seq<char>, Seq<char>>::empty();
    if k == 0 {
        assert(w.take(0) =~= Seq::<(Seq<FilterView>, Seq<char>)>::empty());
        assert(env_map(w.take(0), f, dir) == e0);
        assert(m0.union_prefer_right(e0) =~= m0);
    } else {
        let j = k - 1;
        lemma_env_fold(w, f, dir, c, m0, j);
        let wk = w.take(k);
        assert(wk.drop_last() =~= w.take(j));
        assert(wk.last() == w[j]);
        let ej = env_map(w.take(j), f, dir);
        let mj = m0.union_prefer_right(ej);
        if loc_file(w[j].0, dir) == f {
            let l = w[j].0;
            let x = env_var(l);
            let v = w[j].1;
            assert(!ej.dom().contains(x)) by {
                if ej.dom().contains(x) {
                    let i = choose|i: int| 0 <= i < j && loc_file((#[trigger] w[i]).0, dir) == f && env_var(w[i].0) == x;
                    assert(w[i] == w[i] && w[j] == w[j]);
                }
            }
            assert(map_apart(mj.insert(x, v))) by {
                let mm = mj.insert(x, v);
                assert forall|y: Seq<char>, z: Seq<char>|
                    #![trigger mm.dom().contains(y), mm.dom().contains(z)]
                    mm.dom().contains(y) && mm.dom().contains(z) implies vars_apart(y, z) by {
                    let iy = if y == x || m0.dom().contains(y) {
                        j
                    } else {
                        choose|i: int| 0 <= i < j && loc_file((#[trigger] w[i]).0, dir) == f && env_var(w[i].0) == y
                    };
                    let iz = if z == x || m0.dom().contains(z) {
                        j
                    } else {
                        choose|i: int| 0 <= i < j && loc_file((#[trigger] w[i]).0, dir) == f && env_var(w[i].0) == z
                    };
                    if y == z {
                    } else if m0.dom().contains(y) && m0.dom().contains(z) {
                        assert(m0.dom().contains(y) && m0.dom().contains(z));
                    } else if m0.dom().contains(y) {
                        let i = if z == x { j } else { iz };
                        assert(env_var(w[i].0) == z);
                        assert(m0.dom().contains(y));
                    } else if m0.dom().contains(z) {
                        let i = if y == x { j } else { iy };
                        assert(env_var(w[i].0) == y);
                        assert(m0.dom().contains(z));
                    } else {
                        let i1 = if y == x { j } else { iy };
                        let i2 = if z == x { j } else { iz };
                        assert(env_var(w[i1].0) == y);
                        assert(env_var(w[i2].0) == z);
                        assert(w[i1] == w[i1] && w[i2] == w[i2]);
                    }
                }
            }
            assert(mj.dom().contains(x) == m0.dom().contains(x));
            assert(m0.dom().contains(x) ==> mj[x] == m0[x]);
            lemma_env_state_write(l, c, mj, v);
            assert(mj.insert(x, v) =~= m0.union_prefer_right(env_map(wk, f, dir)));
            assert forall|i: int| 0 <= i < k && loc_file((#[trigger] w[i]).0, dir) == f implies env_map(wk, f, dir).dom().contains(
                env_var(w[i].0),
            ) && env_map(wk, f, dir)[env_var(w[i].0)] == w[i].1 by {
                if i < j {
                    assert(w[i] == w[i] && w[j] == w[j]);
                }
            }
            assert forall|y: Seq<char>| #[trigger] env_map(wk, f, dir).dom().contains(y) implies exists|i: int|
                0 <= i < k && loc_file((#[trigger] w[i]).0, dir) == f && env_var(w[i].0) == y by {
                if y == x {
                    assert(0 <= j < k && loc_file(w[j].0, dir) == f && env_var(w[j].0) == y);
                } else {
                    assert(ej.dom().contains(y));
                    let i = choose|i: int| 0 <= i < j && loc_file((#[trigger] w[i]).0, dir) == f && env_var(w[i].0) == y;
                    assert(0 <= i < k && loc_file(w[i].0, dir) == f && env_var(w[i].0) == y);
                }
            }
            assert(map_line_safe(m0.union_prefer_right(env_map(wk, f, dir))));
        } else {
            assert(env_map(wk, f, dir) == ej);
        }
    }
}
/// A file that no write names keeps its content.
pub proof fn lemma_fold_untouched(w: Seq<(Seq<FilterView>, Seq<char>)>, g: Seq<char>, dir: Seq<char>, c: Seq<char>)
    requires
        forall|i: int| 0 <= i < w.len() ==> loc_file((#[trigger] w[i]).0, dir) != g,
    ensures
        file_fold(w, g, dir, c) == c,
    decreases w.len(),
{
    if w.len() > 0 {
        assert forall|i: int| 0 <= i < w.drop_last().len() implies loc_file((#[trigger] w.drop_last()[i]).0, dir) != g by {
            assert(w.drop_last()[i] == w[i]);
        }
        lemma_fold_untouched(w.drop_last(), g, dir, c);
        assert(w.last() == w[w.len() - 1]);
    }
}

/// A file that one write names (the `j`-th) holds its original content before that write and
/// the write's result after it.
pub proof fn lemma_json_fold(w: Seq<(Seq<FilterView>, Seq<char>)>, f: Seq<char>, dir: Seq<char>, c: Seq<char>, j: int, k: int)
    requires
        0 <= j < w.len(),
        0 <= k <= w.len(),
        loc_file(w[j].0, dir) == f,
        forall|i: int| 0 <= i < w.len() && loc_file((#[trigger] w[i]).0, dir) == f ==> i == j,
    ensures
        file_fold(w.take(k), f, dir, c) == if k > j {
            loc_result(w[j].0, w[j].1, c)
        } else {
            c
        },
    decreases k,
{
    if k == 0 {
        assert(w.take(0) =~= Seq::<(Seq<FilterView>, Seq<char>)>::empty());
    } else {
        lemma_json_fold(w, f, dir, c, j, k - 1);
        assert(w.take(k).drop_last() =~= w.take(k - 1));
        assert(w.take(k).last() == w[k - 1]);
    }
}

/// No two writes write the same place: two that name the same file are dotenv writes of
/// different variables, apart from each other, or JSON writes of selectors whose paths part.
pub open spec fn targets_distinct(w: Seq<(Seq<FilterView>, Seq<char>)>, dir: Seq<char>) -> bool {
    &&& forall|i: int| 0 <= i < w.len() ==> (#[trigger] w[i]).0.len() > 0
    &&& forall|i: int, j: int|
        #![trigger w[i], w[j]]
        0 <= i < w.len() && 0 <= j < w.len() && i != j && loc_file(w[i].0, dir) == loc_file(w[j].0, dir) ==> {
            ||| {
                &&& w[i].0[0] is EnvFile
                &&& w[j].0[0] is EnvFile
                &&& env_var(w[i].0) != env_var(w[j].0)
                &&& vars_apart(env_var(w[i].0), env_var(w[j].0))
            }
            ||| {
                &&& w[i].0[0] is JsonFile
                &&& w[j].0[0] is JsonFile
                &&& keys_apart(selector_keys(w[i].0[0]->JsonFile_selector), selector_keys(w[j].0[0]->JsonFile_selector))
            }
        }
}

/// Each write settles its file as the writes before it left it (see `loc_settles`).
pub open spec fn settles_along(w: Seq<(Seq<FilterView>, Seq<char>)>, dir: Seq<char>, fs: FilesView) -> bool {
    forall|k: int|
        0 <= k < w.len() ==> {
            &&& ws_read(fs, loc_file((#[trigger] w[k]).0, dir)) is Some
            &&& loc_settles(
                w[k].0,
                w[k].1,
                file_fold(w.take(k), loc_file(w[k].0, dir), dir, ws_read(fs, loc_file(w[k].0, dir)).unwrap()),
            )
        }
}

/// A write of `v` through a locator can be made into a file holding `c`, and into what other
/// writes to other variables of the file leave: for a dotenv file, `v` is line-safe; for a JSON file, the document parses and the
/// selector's path exists.
pub open spec fn loc_writable(l: Seq<FilterView>, v: Seq<char>, c: Seq<char>) -> bool {
    match l[0] {
        FilterView::EnvFile { .. } => line_safe(v),
        FilterView::JsonFile { .. } => loc_ready(l, v, c),
    }
}

/// What the writes to the file of the `k`-th write need, under `targets_distinct`.
proof fn lemma_env_writes_ok(w: Seq<(Seq<FilterView>, Seq<char>)>, dir: Seq<char>, fs: FilesView, k: int)
    requires
        targets_distinct(w, dir),
        0 <= k < w.len(),
        w[k].0[0] is EnvFile,
        forall|i: int|
            0 <= i < w.len() && (#[trigger] w[i]).0[0] is EnvFile ==> {
                &&& ws_read(fs, loc_file(w[i].0, dir)) is Some
                &&& loc_writable(w[i].0, w[i].1, ws_read(fs, loc_file(w[i].0, dir)).unwrap())
            },
    ensures
        env_writes_ok(w, loc_file(w[k].0, dir), dir, ws_read(fs, loc_file(w[k].0, dir)).unwrap(), Map::empty()),
{
    let f = loc_file(w[k].0, dir);
    let e0 = Map::<Seq<char>, Seq<char>>::empty();
    assert forall|i: int| 0 <= i < w.len() && loc_file((#[trigger] w[i]).0, dir) == f implies w[i].0[0] is EnvFile by {
        if i != k {
            assert(w[i] == w[i] && w[k] == w[k]);
        }
    }
}

/// Under `targets_distinct`, with each dotenv write able to be made into its file's original
/// content, a dotenv locator finds the same targets however many of the writes before it are
/// made.
proof fn lemma_env_stable(w: Seq<(Seq<FilterView>, Seq<char>)>, dir: Seq<char>, fs: FilesView, s: int, k: int)
    requires
        targets_distinct(w, dir),
        forall|i: int|
            0 <= i < w.len() && (#[trigger] w[i]).0[0] is EnvFile ==> {
                &&& ws_read(fs, loc_file(w[i].0, dir)) is Some
                &&& loc_writable(w[i].0, w[i].1, ws_read(fs, loc_file(w[i].0, dir)).unwrap())
            },
        0 <= s <= k < w.len(),
        w[k].0[0] is EnvFile,
    ensures
        ({
            let f = loc_file(w[k].0, dir);
            let c = ws_read(fs, f).unwrap();
            located(w[k].0, dir, file_fold(w.take(s), f, dir, c)) == located(w[k].0, dir, file_fold(w.take(k), f, dir, c))
        }),
{
    let e0 = Map::<Seq<char>, Seq<char>>::empty();
    let f = loc_file(w[k].0, dir);
    let c = ws_read(fs, f).unwrap();
    let x = env_var(w[k].0);
    lemma_env_writes_ok(w, dir, fs, k);
    lemma_env_fold(w, f, dir, c, e0, k);
    lemma_env_fold(w, f, dir, c, e0, s);
    lemma_env_state_empty(c);
    let ek = env_map(w.take(k), f, dir);
    let es = env_map(w.take(s), f, dir);
    assert(e0.union_prefer_right(ek) =~= ek);
    assert(e0.union_prefer_right(es) =~= es);
    assert forall|y: Seq<char>| #[trigger] ek.dom().contains(y) implies vars_apart(x, y) && y != x by {
        let i = choose|i: int| 0 <= i < k && loc_file((#[trigger] w[i]).0, dir) == f && env_var(w[i].0) == y;
        assert(w[i] == w[i] && w[k] == w[k]);
    }
    assert forall|y: Seq<char>| #[trigger] es.dom().contains(y) implies vars_apart(x, y) && y != x by {
        let i = choose|i: int| 0 <= i < s && loc_file((#[trigger] w[i]).0, dir) == f && env_var(w[i].0) == y;
        assert(w[i] == w[i] && w[k] == w[k]);
    }
    lemma_env_state_locate(resolve_path(dir, w[k].0[0]->EnvFile_path), c, es, ek, x);
}

/// The variables the dotenv writes of a sequence (under `targets_distinct`) set in one file
/// are apart.
proof fn lemma_env_map_apart(w: Seq<(Seq<FilterView>, Seq<char>)>, f: Seq<char>, dir: Seq<char>, c: Seq<char>)
    requires
        targets_distinct(w, dir),
        env_writes_ok(w, f, dir, c, Map::empty()),
    ensures
        map_apart(env_map(w, f, dir)),
        map_line_safe(env_map(w, f, dir)),
        forall|i: int|
            0 <= i < w.len() && loc_file((#[trigger] w[i]).0, dir) == f ==> env_map(w, f, dir).dom().contains(
                env_var(w[i].0),
            ) && env_map(w, f, dir)[env_var(w[i].0)] == w[i].1,
        forall|y: Seq<char>|
            #[trigger] env_map(w, f, dir).dom().contains(y) ==> exists|i: int|
                0 <= i < w.len() && loc_file((#[trigger] w[i]).0, dir) == f && env_var(w[i].0) == y,
{
    let e0 = Map::<Seq<char>, Seq<char>>::empty();
    lemma_env_fold(w, f, dir, c, e0, w.len() as int);
    assert(w.take(w.len() as int) =~= w);
    let e = env_map(w, f, dir);
    assert(e0.union_prefer_right(e) =~= e);
    assert forall|y: Seq<char>, z: Seq<char>|
        #![trigger e.dom().contains(y), e.dom().contains(z)]
        e.dom().contains(y) && e.dom().contains(z) implies vars_apart(y, z) by {
        let iy = choose|i: int| 0 <= i < w.len() && loc_file((#[trigger] w[i]).0, dir) == f && env_var(w[i].0) == y;
        let iz = choose|i: int| 0 <= i < w.len() && loc_file((#[trigger] w[i]).0, dir) == f && env_var(w[i].0) == z;
        if iy != iz {
            assert(w[iy] == w[iy] && w[iz] == w[iz]);
        }
    }
}

/// The first of the writes up to the `j`-th that names the file `f`.
proof fn lemma_first_write(w: Seq<(Seq<FilterView>, Seq<char>)>, f: Seq<char>, dir: Seq<char>, j: int) -> (j0: int)
    requires
        0 <= j < w.len(),
        loc_file(w[j].0, dir) == f,
    ensures
        0 <= j0 <= j,
        loc_file(w[j0].0, dir) == f,
        forall|i: int| 0 <= i < j0 ==> loc_file((#[trigger] w[i]).0, dir) != f,
    decreases j,
{
    if exists|i: int| 0 <= i < j && loc_file((#[trigger] w[i]).0, dir) == f {
        let i = choose|i: int| 0 <= i < j && loc_file((#[trigger] w[i]).0, dir) == f;
        lemma_first_write(w, f, dir, i)
    } else {
        j
    }
}

/// Each dotenv write among the first `n` can be made into its file as the writes before it
/// left it.
pub open spec fn env_along(w: Seq<(Seq<FilterView>, Seq<char>)>, dir: Seq<char>, fs: FilesView, n: int) -> bool {
    forall|k: int|
        0 <= k < n && (#[trigger] w[k]).0[0] is EnvFile ==> {
            &&& ws_read(fs, loc_file(w[k].0, dir)) is Some
            &&& loc_writable(
                w[k].0,
                w[k].1,
                file_fold(w.take(k), loc_file(w[k].0, dir), dir, ws_read(fs, loc_file(w[k].0, dir)).unwrap()),
            )
        }
}

/// Under `targets_distinct`, with each dotenv write able to be made into its file as the
/// writes before it left it, each dotenv write among the first `n` can be made into its file's
/// original content.
proof fn lemma_along_env(w: Seq<(Seq<FilterView>, Seq<char>)>, dir: Seq<char>, fs: FilesView, n: int)
    requires
        targets_distinct(w, dir),
        env_along(w, dir, fs, n),
        0 <= n <= w.len(),
    ensures
        forall|i: int|
            0 <= i < n && (#[trigger] w[i]).0[0] is EnvFile ==> {
                &&& ws_read(fs, loc_file(w[i].0, dir)) is Some
                &&& loc_writable(w[i].0, w[i].1, ws_read(fs, loc_file(w[i].0, dir)).unwrap())
            },
    decreases n,
{
    if n > 0 {
        let k = n - 1;
        lemma_along_env(w, dir, fs, k);
        if w[k].0[0] is EnvFile {
            let f = loc_file(w[k].0, dir);
            assert(loc_writable(w[k].0, w[k].1, file_fold(w.take(k), f, dir, ws_read(fs, f).unwrap())));
        }
    }
}

/// What the JSON writes to `f` leave after the first `k` writes: a document that `serde_json`
/// reads back; each path written holds its new value and each other path holds what it held;
/// once one has been written, the file is that document as `serde_json` writes it.
pub open spec fn json_inv(w: Seq<(Seq<FilterView>, Seq<char>)>, f: Seq<char>, dir: Seq<char>, c: Seq<char>, k: int) -> bool {
    let ck = file_fold(w.take(k), f, dir, c);
    &&& json_parse(ck) is Some
    &&& forall|i: int|
        0 <= i < w.len() && loc_file((#[trigger] w[i]).0, dir) == f ==> json_lookup(
            json_parse(ck).unwrap(),
            selector_keys(w[i].0[0]->JsonFile_selector),
        ) == if i < k {
            Ok::<JsonView, Seq<char>>(json_new_value(w[i].1))
        } else {
            json_lookup(json_parse(c).unwrap(), selector_keys(w[i].0[0]->JsonFile_selector))
        }
    &&& (exists|i: int| 0 <= i < k && loc_file((#[trigger] w[i]).0, dir) == f) ==> ck == json_pretty(
        json_parse(ck).unwrap(),
    ).push('\n')
}

/// Under `targets_distinct`, JSON writes to a file that parses, each settling it as the
/// writes before it left it, keep `json_inv` along the way.
proof fn lemma_json_along(w: Seq<(Seq<FilterView>, Seq<char>)>, f: Seq<char>, dir: Seq<char>, c: Seq<char>, k: int)
    requires
        targets_distinct(w, dir),
        0 <= k <= w.len(),
        json_parse(c) is Some,
        forall|i: int| 0 <= i < w.len() && loc_file((#[trigger] w[i]).0, dir) == f ==> w[i].0[0] is JsonFile,
        forall|i: int|
            0 <= i < w.len() && loc_file((#[trigger] w[i]).0, dir) == f ==> loc_settles(
                w[i].0,
                w[i].1,
                file_fold(w.take(i), f, dir, c),
            ),
    ensures
        json_inv(w, f, dir, c, k),
    decreases k,
{
    if k == 0 {
        assert(w.take(0) =~= Seq::<(Seq<FilterView>, Seq<char>)>::empty());
    } else {
        let j = k - 1;
        lemma_json_along(w, f, dir, c, j);
        assert(w.take(k).drop_last() =~= w.take(j));
        assert(w.take(k).last() == w[j]);
        let cj = file_fold(w.take(j), f, dir, c);
        let dj = json_parse(cj).unwrap();
        if loc_file(w[j].0, dir) == f {
            let keys = selector_keys(w[j].0[0]->JsonFile_selector);
            let nv = json_new_value(w[j].1);
            lemma_loc_settles(w[j].0, w[j].1, cj);
            lemma_replace_existing(dj, keys, nv);
            let dk = json_replace(dj, keys, nv)->Done_0;
            assert(json_parse(file_fold(w.take(k), f, dir, c)) == Some(dk));
            assert forall|i: int| 0 <= i < w.len() && loc_file((#[trigger] w[i]).0, dir) == f implies json_lookup(
                dk,
                selector_keys(w[i].0[0]->JsonFile_selector),
            ) == if i < k {
                Ok::<JsonView, Seq<char>>(json_new_value(w[i].1))
            } else {
                json_lookup(json_parse(c).unwrap(), selector_keys(w[i].0[0]->JsonFile_selector))
            } by {
                if i != j {
                    assert(w[i] == w[i] && w[j] == w[j]);
                    lemma_replace_keeps_other(dj, keys, nv, selector_keys(w[i].0[0]->JsonFile_selector));
                }
            }
            assert(0 <= j < k && loc_file(w[j].0, dir) == f);
        } else {
            assert forall|i: int| 0 <= i < w.len() && loc_file((#[trigger] w[i]).0, dir) == f implies json_lookup(
                dj,
                selector_keys(w[i].0[0]->JsonFile_selector),
            ) == if i < k {
                Ok::<JsonView, Seq<char>>(json_new_value(w[i].1))
            } else {
                json_lookup(json_parse(c).unwrap(), selector_keys(w[i].0[0]->JsonFile_selector))
            } by {
                assert(i != j);
            }
            if exists|i: int| 0 <= i < k && loc_file((#[trigger] w[i]).0, dir) == f {
                let i = choose|i: int| 0 <= i < k && loc_file((#[trigger] w[i]).0, dir) == f;
                assert(i != j);
                assert(0 <= i < j && loc_file(w[i].0, dir) == f);
            }
        }
    }
}

/// The JSON facts behind the `k`-th write, a JSON write, under `targets_distinct` and
/// `settles_along`: the file parses, every write to it is a JSON write, and `json_inv` holds
/// at every step.
proof fn lemma_json_file(w: Seq<(Seq<FilterView>, Seq<char>)>, dir: Seq<char>, fs: FilesView, k: int)
    requires
        targets_distinct(w, dir),
        settles_along(w, dir, fs),
        0 <= k < w.len(),
        w[k].0[0] is JsonFile,
    ensures
        ({
            let f = loc_file(w[k].0, dir);
            let c = ws_read(fs, f).unwrap();
            &&& json_parse(c) is Some
            &&& forall|i: int| 0 <= i < w.len() && loc_file((#[trigger] w[i]).0, dir) == f ==> w[i].0[0] is JsonFile
            &&& forall|t: int| 0 <= t <= w.len() ==> #[trigger] json_inv(w, f, dir, c, t)
        }),
{
    let f = loc_file(w[k].0, dir);
    let c = ws_read(fs, f).unwrap();
    assert forall|i: int| 0 <= i < w.len() && loc_file((#[trigger] w[i]).0, dir) == f implies w[i].0[0] is JsonFile by {
        if i != k {
            assert(w[i] == w[i] && w[k] == w[k]);
        }
    }
    let j0 = lemma_first_write(w, f, dir, k);
    assert(w[j0] == w[j0]);
    assert forall|i: int| 0 <= i < w.take(j0).len() implies loc_file((#[trigger] w.take(j0)[i]).0, dir) != f by {
        assert(w.take(j0)[i] == w[i]);
    }
    lemma_fold_untouched(w.take(j0), f, dir, c);
    lemma_loc_settles(w[j0].0, w[j0].1, c);
    assert forall|i: int| 0 <= i < w.len() && loc_file((#[trigger] w[i]).0, dir) == f implies loc_settles(
        w[i].0,
        w[i].1,
        file_fold(w.take(i), f, dir, c),
    ) by {}
    assert forall|t: int| 0 <= t <= w.len() implies #[trigger] json_inv(w, f, dir, c, t) by {
        lemma_json_along(w, f, dir, c, t);
    }
}

/// A JSON locator finds the same target however many of the writes before it are made.
proof fn lemma_json_stable(w: Seq<(Seq<FilterView>, Seq<char>)>, dir: Seq<char>, fs: FilesView, s: int, k: int)
    requires
        targets_distinct(w, dir),
        settles_along(w, dir, fs),
        0 <= s <= k < w.len(),
        w[k].0[0] is JsonFile,
    ensures
        ({
            let f = loc_file(w[k].0, dir);
            let c = ws_read(fs, f).unwrap();
            located(w[k].0, dir, file_fold(w.take(s), f, dir, c)) == located(w[k].0, dir, file_fold(w.take(k), f, dir, c))
        }),
{
    let f = loc_file(w[k].0, dir);
    let c = ws_read(fs, f).unwrap();
    lemma_json_file(w, dir, fs, k);
    assert(json_inv(w, f, dir, c, s));
    assert(json_inv(w, f, dir, c, k));
    lemma_loc_settles(w[k].0, w[k].1, file_fold(w.take(k), f, dir, c));
}

/// Once all the writes are made, a JSON locator finds its file already holding what it would
/// write.
proof fn lemma_json_fixed_at(w: Seq<(Seq<FilterView>, Seq<char>)>, dir: Seq<char>, fs: FilesView, k: int)
    requires
        targets_distinct(w, dir),
        settles_along(w, dir, fs),
        0 <= k < w.len(),
        w[k].0[0] is JsonFile,
    ensures
        loc_fixed(w[k].0, w[k].1, file_fold(w, loc_file(w[k].0, dir), dir, ws_read(fs, loc_file(w[k].0, dir)).unwrap())),
        loc_holds(w[k].0, w[k].1, file_fold(w, loc_file(w[k].0, dir), dir, ws_read(fs, loc_file(w[k].0, dir)).unwrap())),
{
    let n = w.len() as int;
    let f = loc_file(w[k].0, dir);
    let c = ws_read(fs, f).unwrap();
    assert(w.take(n) =~= w);
    lemma_json_file(w, dir, fs, k);
    assert(json_inv(w, f, dir, c, n));
    lemma_loc_settles(w[k].0, w[k].1, file_fold(w.take(k), f, dir, c));
    let d = json_parse(file_fold(w, f, dir, c)).unwrap();
    let keys = selector_keys(w[k].0[0]->JsonFile_selector);
    assert(json_lookup(d, keys) == Ok::<JsonView, Seq<char>>(json_new_value(w[k].1)));
    assert(0 <= k < n && loc_file(w[k].0, dir) == f);
    lemma_replace_same(d, keys, json_new_value(w[k].1));
}

/// Once all the writes are made, a dotenv locator finds its file already holding what it
/// would write.
proof fn lemma_env_fixed_at(w: Seq<(Seq<FilterView>, Seq<char>)>, dir: Seq<char>, fs: FilesView, k: int)
    requires
        targets_distinct(w, dir),
        forall|i: int|
            0 <= i < w.len() && (#[trigger] w[i]).0[0] is EnvFile ==> {
                &&& ws_read(fs, loc_file(w[i].0, dir)) is Some
                &&& loc_writable(w[i].0, w[i].1, ws_read(fs, loc_file(w[i].0, dir)).unwrap())
            },
        0 <= k < w.len(),
        w[k].0[0] is EnvFile,
    ensures
        loc_fixed(w[k].0, w[k].1, file_fold(w, loc_file(w[k].0, dir), dir, ws_read(fs, loc_file(w[k].0, dir)).unwrap())),
{
    let n = w.len() as int;
    let f = loc_file(w[k].0, dir);
    let c = ws_read(fs, f).unwrap();
    assert(w.take(n) =~= w);
    lemma_env_writes_ok(w, dir, fs, k);
    lemma_env_map_apart(w, f, dir, c);
    let e0 = Map::<Seq<char>, Seq<char>>::empty();
    lemma_env_fold(w, f, dir, c, e0, n);
    lemma_env_state_empty(c);
    let e = env_map(w, f, dir);
    assert(e0.union_prefer_right(e) =~= e);
    lemma_env_state_fixed(w[k].0, c, e);
}

/// Under `targets_distinct`, with each write settling its file as the writes before it left
/// it: every write can be made along the sequence, each locator finds the same targets
/// throughout, and, once all the writes are made, each locator finds its file already holding
/// what it would write.
pub proof fn lemma_writes_fixed(w: Seq<(Seq<FilterView>, Seq<char>)>, dir: Seq<char>, fs: FilesView)
    requires
        targets_distinct(w, dir),
        settles_along(w, dir, fs),
    ensures
        fold_ready(w, dir, fs),
        fold_stable(w, dir, fs),
        forall|i: int|
            0 <= i < w.len() && (#[trigger] w[i]).0[0] is EnvFile ==> {
                &&& ws_read(fs, loc_file(w[i].0, dir)) is Some
                &&& loc_writable(w[i].0, w[i].1, ws_read(fs, loc_file(w[i].0, dir)).unwrap())
            },
        forall|k: int|
            0 <= k < w.len() ==> loc_fixed(
                (#[trigger] w[k]).0,
                w[k].1,
                file_fold(w, loc_file(w[k].0, dir), dir, ws_read(fs, loc_file(w[k].0, dir)).unwrap()),
            ),
        forall|k: int|
            0 <= k < w.len() ==> loc_holds(
                (#[trigger] w[k]).0,
                w[k].1,
                file_fold(w, loc_file(w[k].0, dir), dir, ws_read(fs, loc_file(w[k].0, dir)).unwrap()),
            ),
{
    let n = w.len() as int;
    assert(env_along(w, dir, fs, n)) by {
        assert forall|k: int| 0 <= k < n && (#[trigger] w[k]).0[0] is EnvFile implies {
            &&& ws_read(fs, loc_file(w[k].0, dir)) is Some
            &&& loc_writable(
                w[k].0,
                w[k].1,
                file_fold(w.take(k), loc_file(w[k].0, dir), dir, ws_read(fs, loc_file(w[k].0, dir)).unwrap()),
            )
        } by {}
    }
    lemma_along_env(w, dir, fs, n);
    assert(w.take(n) =~= w);
    assert forall|k: int| 0 <= k < w.len() implies {
        &&& (#[trigger] w[k]).0.len() > 0
        &&& ws_read(fs, loc_file(w[k].0, dir)) is Some
        &&& loc_ready(w[k].0, w[k].1, file_fold(w.take(k), loc_file(w[k].0, dir), dir, ws_read(fs, loc_file(w[k].0, dir)).unwrap()))
    } by {
        let f = loc_file(w[k].0, dir);
        lemma_loc_settles(w[k].0, w[k].1, file_fold(w.take(k), f, dir, ws_read(fs, f).unwrap()));
    }
    assert forall|s: int, k: int|
        #![trigger w.take(s), w[k]]
        0 <= s <= k < w.len() implies {
        let f = loc_file(w[k].0, dir);
        let c = ws_read(fs, f).unwrap();
        located(w[k].0, dir, file_fold(w.take(s), f, dir, c)) == located(w[k].0, dir, file_fold(w.take(k), f, dir, c))
    } by {
        if w[k].0[0] is EnvFile {
            lemma_env_stable(w, dir, fs, s, k);
        } else {
            lemma_json_stable(w, dir, fs, s, k);
        }
    }
    assert forall|k: int| 0 <= k < w.len() implies loc_fixed(
        (#[trigger] w[k]).0,
        w[k].1,
        file_fold(w, loc_file(w[k].0, dir), dir, ws_read(fs, loc_file(w[k].0, dir)).unwrap()),
    ) by {
        if w[k].0[0] is EnvFile {
            lemma_env_fixed_at(w, dir, fs, k);
        } else {
            lemma_json_fixed_at(w, dir, fs, k);
        }
    }
    assert forall|k: int| 0 <= k < w.len() implies loc_holds(
        (#[trigger] w[k]).0,
        w[k].1,
        file_fold(w, loc_file(w[k].0, dir), dir, ws_read(fs, loc_file(w[k].0, dir)).unwrap()),
    ) by {
        if w[k].0[0] is EnvFile {
            lemma_env_fixed_at(w, dir, fs, k);
            lemma_env_fixed_holds(w[k].0, w[k].1, file_fold(w, loc_file(w[k].0, dir), dir, ws_read(fs, loc_file(w[k].0, dir)).unwrap()));
        } else {
            lemma_json_fixed_at(w, dir, fs, k);
        }
    }
}

/// One dotenv file under a run followed by a restore through the same locators: the one the
/// `j`-th write names, after the first sequence and the first `k` writes of the second.
#[verifier::spinoff_prover]
proof fn lemma_then_env_file(
    w1: Seq<(Seq<FilterView>, Seq<char>)>,
    w2: Seq<(Seq<FilterView>, Seq<char>)>,
    dir: Seq<char>,
    fs: FilesView,
    j: int,
    k: int,
)
    requires
        targets_distinct(w1, dir),
        targets_distinct(w2, dir),
        w1.len() == w2.len(),
        forall|i: int| 0 <= i < w1.len() ==> (#[trigger] w1[i]).0 == w2[i].0,
        forall|i: int|
            0 <= i < w1.len() && (#[trigger] w1[i]).0[0] is EnvFile ==> {
                &&& ws_read(fs, loc_file(w1[i].0, dir)) is Some
                &&& loc_writable(w1[i].0, w1[i].1, ws_read(fs, loc_file(w1[i].0, dir)).unwrap())
                &&& loc_writable(w2[i].0, w2[i].1, ws_read(fs, loc_file(w1[i].0, dir)).unwrap())
            },
        0 <= j < w1.len(),
        0 <= k <= w1.len(),
        w2[j].0[0] is EnvFile,
    ensures
        ({
            let f = loc_file(w2[j].0, dir);
            let c = ws_read(fs, f).unwrap();
            let c1 = file_fold(w1, f, dir, c);
            let d = file_fold(w2.take(k), f, dir, c1);
            &&& (j >= k ==> loc_ready(w2[j].0, w2[j].1, file_fold(w2.take(j), f, dir, c1)))
            &&& (k == w1.len() ==> d == file_fold(w2, f, dir, c))
            &&& (k <= j ==> located(w2[j].0, dir, d) == located(w2[j].0, dir, file_fold(w2.take(j), f, dir, c1)))
        }),
{
    let n = w1.len() as int;
    let e0 = Map::<Seq<char>, Seq<char>>::empty();
    assert(w1.take(n) =~= w1);
    assert(w2.take(n) =~= w2);
    let f = loc_file(w2[j].0, dir);
    let c = ws_read(fs, f).unwrap();
    assert(w1[j].0 == w2[j].0);
    assert forall|i: int|
        0 <= i < w2.len() && (#[trigger] w2[i]).0[0] is EnvFile implies {
        &&& ws_read(fs, loc_file(w2[i].0, dir)) is Some
        &&& loc_writable(w2[i].0, w2[i].1, ws_read(fs, loc_file(w2[i].0, dir)).unwrap())
    } by {
        assert(w1[i].0 == w2[i].0);
    }
    let x = env_var(w2[j].0);
    lemma_env_writes_ok(w1, dir, fs, j);
    lemma_env_map_apart(w1, f, dir, c);
    lemma_env_fold(w1, f, dir, c, e0, n);
    lemma_env_state_empty(c);
    let e1 = env_map(w1, f, dir);
    assert(e0.union_prefer_right(e1) =~= e1);
    let c1 = env_state(c, e1);
    assert(file_fold(w1, f, dir, c) == c1);
    // The second sequence's writes to `f`, over the first one's values.
    assert(env_writes_ok(w2, f, dir, c, e1)) by {
        assert forall|i: int| 0 <= i < w2.len() && loc_file((#[trigger] w2[i]).0, dir) == f implies {
            &&& w2[i].0.len() > 0
            &&& w2[i].0[0] is EnvFile
            &&& line_safe(w2[i].1)
            &&& forall|y: Seq<char>| #[trigger] e1.dom().contains(y) ==> vars_apart(env_var(w2[i].0), y)
        } by {
            assert(w1[i].0 == w2[i].0);
            if i != j {
                assert(w1[i] == w1[i] && w1[j] == w1[j]);
            }
            assert(loc_file(w1[i].0, dir) == f);
            assert(e1.dom().contains(env_var(w1[i].0)) && e1[env_var(w1[i].0)] == w1[i].1);
            assert forall|y: Seq<char>| #[trigger] e1.dom().contains(y) implies vars_apart(env_var(w2[i].0), y) by {
                let iy = choose|iy: int| 0 <= iy < w1.len() && loc_file((#[trigger] w1[iy]).0, dir) == f && env_var(w1[iy].0) == y;
                if iy != i {
                    assert(w1[iy] == w1[iy] && w1[i] == w1[i]);
                }
            }
        }
        assert forall|i: int, i2: int|
            #![trigger w2[i], w2[i2]]
            0 <= i < w2.len() && 0 <= i2 < w2.len() && i != i2 && loc_file(w2[i].0, dir) == f && loc_file(w2[i2].0, dir) == f
            implies env_var(w2[i].0) != env_var(w2[i2].0) && vars_apart(env_var(w2[i].0), env_var(w2[i2].0)) by {
            assert(w2[i] == w2[i] && w2[i2] == w2[i2]);
        }
    }
    lemma_env_fold(w2, f, dir, c, e1, k);
    lemma_env_fold(w2, f, dir, c, e1, j);
    let e2k = env_map(w2.take(k), f, dir);
    let e2j = env_map(w2.take(j), f, dir);
    assert forall|y: Seq<char>| #[trigger] e2j.dom().contains(y) implies e1.dom().contains(y) && y != x by {
        let i = choose|i: int| 0 <= i < j && loc_file((#[trigger] w2[i]).0, dir) == f && env_var(w2[i].0) == y;
        assert(w2[i] == w2[i] && w2[j] == w2[j]);
        assert(w1[i].0 == w2[i].0);
        assert(loc_file(w1[i].0, dir) == f);
    }
    assert(e1.dom().contains(x) && e1[x] == w1[j].1);
    let mj = e1.union_prefer_right(e2j);
    if j >= k {
        assert(mj.insert(x, w2[j].1).dom() =~= e1.dom());
        assert(map_apart(mj.insert(x, w2[j].1))) by {
            let mm = mj.insert(x, w2[j].1);
            assert forall|y: Seq<char>, z: Seq<char>|
                #![trigger mm.dom().contains(y), mm.dom().contains(z)]
                mm.dom().contains(y) && mm.dom().contains(z) implies vars_apart(y, z) by {
                assert(e1.dom().contains(y) && e1.dom().contains(z));
            }
        }
        lemma_env_state_write(w2[j].0, c, mj, w2[j].1);
    }
    if k <= j {
        assert forall|y: Seq<char>| #[trigger] e2k.dom().contains(y) implies y != x by {
            let i = choose|i: int| 0 <= i < k && loc_file((#[trigger] w2[i]).0, dir) == f && env_var(w2[i].0) == y;
            assert(w2[i] == w2[i] && w2[j] == w2[j]);
        }
        let mk = e1.union_prefer_right(e2k);
        assert forall|y: Seq<char>| #[trigger] mk.dom().contains(y) implies vars_apart(x, y) by {
            if e2k.dom().contains(y) {
                let i = choose|i: int| 0 <= i < k && loc_file((#[trigger] w2[i]).0, dir) == f && env_var(w2[i].0) == y;
                assert(w1[i].0 == w2[i].0);
                assert(loc_file(w1[i].0, dir) == f);
                assert(e1.dom().contains(y));
            }
            assert(e1.dom().contains(x) && e1.dom().contains(y));
        }
        assert forall|y: Seq<char>| #[trigger] mj.dom().contains(y) implies vars_apart(x, y) by {
            assert(e1.dom().contains(x) && e1.dom().contains(y));
        }
        lemma_env_state_locate(resolve_path(dir, w2[j].0[0]->EnvFile_path), c, mk, mj, x);
    }
    if k == n {
        let e2 = env_map(w2, f, dir);
        assert(w2.take(n) =~= w2);
        assert(e2k == e2);
        assert forall|y: Seq<char>| #[trigger] e1.dom().contains(y) implies e2.dom().contains(y) by {
            let i = choose|i: int| 0 <= i < w1.len() && loc_file((#[trigger] w1[i]).0, dir) == f && env_var(w1[i].0) == y;
            assert(w1[i].0 == w2[i].0);
            assert(loc_file(w2[i].0, dir) == f);
        }
        assert(e1.union_prefer_right(e2) =~= e2);
        lemma_env_writes_ok(w2, dir, fs, j);
        lemma_env_fold(w2, f, dir, c, e0, n);
        assert(e0.union_prefer_right(e2) =~= e2);
    }
}

/// Under `targets_distinct`, with each write able to be made into its file's original
/// content, a dotenv file written by the `k`-th write ends with the variables of its writes
/// set to their values.
pub proof fn lemma_env_file_state(w: Seq<(Seq<FilterView>, Seq<char>)>, dir: Seq<char>, fs: FilesView, k: int)
    requires
        targets_distinct(w, dir),
        forall|i: int|
            0 <= i < w.len() && (#[trigger] w[i]).0[0] is EnvFile ==> {
                &&& ws_read(fs, loc_file(w[i].0, dir)) is Some
                &&& loc_writable(w[i].0, w[i].1, ws_read(fs, loc_file(w[i].0, dir)).unwrap())
            },
        0 <= k < w.len(),
        w[k].0[0] is EnvFile,
    ensures
        ({
            let f = loc_file(w[k].0, dir);
            let e = env_map(w, f, dir);
            &&& file_fold(w, f, dir, ws_read(fs, f).unwrap()) == env_state(ws_read(fs, f).unwrap(), e)
            &&& map_apart(e)
            &&& map_line_safe(e)
            &&& e.dom().contains(env_var(w[k].0))
            &&& e[env_var(w[k].0)] == w[k].1
        }),
{
    let f = loc_file(w[k].0, dir);
    let c = ws_read(fs, f).unwrap();
    let e0 = Map::<Seq<char>, Seq<char>>::empty();
    lemma_env_writes_ok(w, dir, fs, k);
    lemma_env_map_apart(w, f, dir, c);
    lemma_env_fold(w, f, dir, c, e0, w.len() as int);
    assert(w.take(w.len() as int) =~= w);
    lemma_env_state_empty(c);
    assert(e0.union_prefer_right(env_map(w, f, dir)) =~= env_map(w, f, dir));
}

/// The path a JSON locator's selector names.
pub open spec fn json_keys(l: Seq<FilterView>) -> Seq<Seq<char>> {
    selector_keys(l[0]->JsonFile_selector)
}

/// The document after the writes among `w` to the JSON file `f`, in order, starting from `d`:
/// each replaces the value at its path.
pub open spec fn json_doc_fold(w: Seq<(Seq<FilterView>, Seq<char>)>, f: Seq<char>, dir: Seq<char>, d: JsonView) -> JsonView
    decreases w.len(),
{
    if w.len() == 0 {
        d
    } else {
        let prev = json_doc_fold(w.drop_last(), f, dir, d);
        if loc_file(w.last().0, dir) == f {
            json_replace(prev, json_keys(w.last().0), json_new_value(w.last().1))->Done_0
        } else {
            prev
        }
    }
}

/// The writes among `w` to `f` name paths that exist in `d`, and any two of them are the same
/// path or part.
pub open spec fn json_paths_ok(w: Seq<(Seq<FilterView>, Seq<char>)>, f: Seq<char>, dir: Seq<char>, d: JsonView) -> bool {
    &&& forall|i: int|
        0 <= i < w.len() && loc_file((#[trigger] w[i]).0, dir) == f ==> json_keys(w[i].0).len() > 0
            && json_lookup(d, json_keys(w[i].0)) is Ok
    &&& forall|i: int, j: int|
        #![trigger w[i], w[j]]
        0 <= i < w.len() && 0 <= j < w.len() && loc_file(w[i].0, dir) == f && loc_file(w[j].0, dir) == f ==> json_keys(
            w[i].0,
        ) == json_keys(w[j].0) || keys_apart(json_keys(w[i].0), json_keys(w[j].0))
}

/// Folding the writes of `a` and then those of `b` is folding `a + b`.
pub proof fn lemma_doc_fold_concat(
    a: Seq<(Seq<FilterView>, Seq<char>)>,
    b: Seq<(Seq<FilterView>, Seq<char>)>,
    f: Seq<char>,
    dir: Seq<char>,
    d: JsonView,
)
    ensures
        json_doc_fold(a + b, f, dir, d) == json_doc_fold(b, f, dir, json_doc_fold(a, f, dir, d)),
    decreases b.len(),
{
    if b.len() == 0 {
        assert(a + b =~= a);
    } else {
        assert((a + b).drop_last() =~= a + b.drop_last());
        assert((a + b).last() == b.last());
        lemma_doc_fold_concat(a, b.drop_last(), f, dir, d);
    }
}

/// Under `json_paths_ok`, every written path still exists after the writes; a path `p` that
/// parts from all of them still leads where it did.
pub proof fn lemma_doc_fold_lookup(w: Seq<(Seq<FilterView>, Seq<char>)>, f: Seq<char>, dir: Seq<char>, d: JsonView, p: Seq<Seq<char>>)
    requires
        json_paths_ok(w, f, dir, d),
    ensures
        forall|i: int|
            0 <= i < w.len() && loc_file((#[trigger] w[i]).0, dir) == f ==> json_lookup(
                json_doc_fold(w, f, dir, d),
                json_keys(w[i].0),
            ) is Ok,
        (forall|i: int| 0 <= i < w.len() && loc_file((#[trigger] w[i]).0, dir) == f ==> keys_apart(json_keys(w[i].0), p))
            ==> json_lookup(json_doc_fold(w, f, dir, d), p) == json_lookup(d, p),
    decreases w.len(),
{
    if w.len() > 0 {
        let v = w.drop_last();
        assert(json_paths_ok(v, f, dir, d)) by {
            assert forall|i: int| 0 <= i < v.len() && loc_file((#[trigger] v[i]).0, dir) == f implies json_keys(v[i].0).len() > 0
                && json_lookup(d, json_keys(v[i].0)) is Ok by {
                assert(v[i] == w[i]);
            }
            assert forall|i: int, j: int|
                #![trigger v[i], v[j]]
                0 <= i < v.len() && 0 <= j < v.len() && loc_file(v[i].0, dir) == f && loc_file(v[j].0, dir) == f implies json_keys(
                v[i].0,
            ) == json_keys(v[j].0) || keys_apart(json_keys(v[i].0), json_keys(v[j].0)) by {
                assert(v[i] == w[i] && v[j] == w[j]);
                assert(w[i] == w[i] && w[j] == w[j]);
            }
        }
        lemma_doc_fold_lookup(v, f, dir, d, p);
        let last = w.last();
        let n = w.len() - 1;
        assert(last == w[n]);
        if loc_file(last.0, dir) == f {
            let k = json_keys(last.0);
            let prev = json_doc_fold(v, f, dir, d);
            let nv = json_new_value(last.1);
            // The path written last exists before it is written.
            if exists|i: int| 0 <= i < v.len() && loc_file((#[trigger] v[i]).0, dir) == f && json_keys(v[i].0) == k {
                let i = choose|i: int| 0 <= i < v.len() && loc_file((#[trigger] v[i]).0, dir) == f && json_keys(v[i].0) == k;
                assert(v[i] == w[i]);
            } else {
                assert forall|i: int| 0 <= i < v.len() && loc_file((#[trigger] v[i]).0, dir) == f implies keys_apart(json_keys(v[i].0), k) by {
                    assert(v[i] == w[i]);
                    assert(w[i] == w[i] && w[n] == w[n]);
                }
                lemma_doc_fold_lookup(v, f, dir, d, k);
                assert(w[n] == w[n]);
            }
            assert(json_lookup(prev, k) is Ok);
            lemma_replace_existing(prev, k, nv);
            assert forall|i: int| 0 <= i < w.len() && loc_file((#[trigger] w[i]).0, dir) == f implies json_lookup(
                json_doc_fold(w, f, dir, d),
                json_keys(w[i].0),
            ) is Ok by {
                if json_keys(w[i].0) != k {
                    assert(w[i] == w[i] && w[n] == w[n]);
                    lemma_keys_apart_symmetric(json_keys(w[i].0), k);
                    lemma_replace_keeps_other(prev, k, nv, json_keys(w[i].0));
                    if i < n {
                        assert(v[i] == w[i]);
                    }
                }
            }
            if forall|i: int| 0 <= i < w.len() && loc_file((#[trigger] w[i]).0, dir) == f ==> keys_apart(json_keys(w[i].0), p) {
                assert(keys_apart(k, p));
                lemma_replace_keeps_other(prev, k, nv, p);
                assert forall|i: int| 0 <= i < v.len() && loc_file((#[trigger] v[i]).0, dir) == f implies keys_apart(json_keys(v[i].0), p) by {
                    assert(v[i] == w[i]);
                }
            }
        } else {
            assert forall|i: int| 0 <= i < w.len() && loc_file((#[trigger] w[i]).0, dir) == f implies json_lookup(
                json_doc_fold(w, f, dir, d),
                json_keys(w[i].0),
            ) is Ok by {
                assert(i != n);
                assert(v[i] == w[i]);
            }
            if forall|i: int| 0 <= i < w.len() && loc_file((#[trigger] w[i]).0, dir) == f ==> keys_apart(json_keys(w[i].0), p) {
                assert forall|i: int| 0 <= i < v.len() && loc_file((#[trigger] v[i]).0, dir) == f implies keys_apart(json_keys(v[i].0), p) by {
                    assert(v[i] == w[i]);
                }
            }
        }
    }
}

/// `json_paths_ok` holds of the writes but the last.
proof fn lemma_paths_ok_prefix(w: Seq<(Seq<FilterView>, Seq<char>)>, f: Seq<char>, dir: Seq<char>, d: JsonView)
    requires
        w.len() > 0,
        json_paths_ok(w, f, dir, d),
    ensures
        json_paths_ok(w.drop_last(), f, dir, d),
{
    let v = w.drop_last();
    assert forall|i: int| 0 <= i < v.len() && loc_file((#[trigger] v[i]).0, dir) == f implies json_keys(v[i].0).len() > 0
        && json_lookup(d, json_keys(v[i].0)) is Ok by {
        assert(v[i] == w[i]);
    }
    assert forall|i: int, j: int|
        #![trigger v[i], v[j]]
        0 <= i < v.len() && 0 <= j < v.len() && loc_file(v[i].0, dir) == f && loc_file(v[j].0, dir) == f implies json_keys(
        v[i].0,
    ) == json_keys(v[j].0) || keys_apart(json_keys(v[i].0), json_keys(v[j].0)) by {
        assert(v[i] == w[i] && v[j] == w[j]);
        assert(w[i] == w[i] && w[j] == w[j]);
    }
}

/// A path that exists in `d`, and is the same as or parts from each written path, still exists
/// after the writes.
proof fn lemma_doc_fold_exists(w: Seq<(Seq<FilterView>, Seq<char>)>, f: Seq<char>, dir: Seq<char>, d: JsonView, q: Seq<Seq<char>>)
    requires
        json_paths_ok(w, f, dir, d),
        json_lookup(d, q) is Ok,
        forall|i: int|
            0 <= i < w.len() && loc_file((#[trigger] w[i]).0, dir) == f ==> json_keys(w[i].0) == q || keys_apart(
                json_keys(w[i].0),
                q,
            ),
    ensures
        json_lookup(json_doc_fold(w, f, dir, d), q) is Ok,
{
    lemma_doc_fold_lookup(w, f, dir, d, q);
    if exists|i: int| 0 <= i < w.len() && loc_file((#[trigger] w[i]).0, dir) == f && json_keys(w[i].0) == q {
        let i = choose|i: int| 0 <= i < w.len() && loc_file((#[trigger] w[i]).0, dir) == f && json_keys(w[i].0) == q;
        assert(w[i] == w[i]);
    }
}

/// A replacement at a path that parts from every written path can be made before the writes or
/// after them.
proof fn lemma_doc_fold_commute(w: Seq<(Seq<FilterView>, Seq<char>)>, f: Seq<char>, dir: Seq<char>, y: JsonView, k: Seq<Seq<char>>, a: JsonView)
    requires
        json_paths_ok(w, f, dir, y),
        json_lookup(y, k) is Ok,
        forall|i: int| 0 <= i < w.len() && loc_file((#[trigger] w[i]).0, dir) == f ==> keys_apart(json_keys(w[i].0), k),
    ensures
        json_doc_fold(w, f, dir, json_replace(y, k, a)->Done_0) == json_replace(json_doc_fold(w, f, dir, y), k, a)->Done_0,
    decreases w.len(),
{
    if w.len() > 0 {
        let v = w.drop_last();
        let n = w.len() - 1;
        lemma_paths_ok_prefix(w, f, dir, y);
        assert forall|i: int| 0 <= i < v.len() && loc_file((#[trigger] v[i]).0, dir) == f implies keys_apart(json_keys(v[i].0), k) by {
            assert(v[i] == w[i]);
        }
        lemma_doc_fold_commute(v, f, dir, y, k, a);
        let z = json_doc_fold(v, f, dir, y);
        lemma_doc_fold_lookup(v, f, dir, y, k);
        assert(w.last() == w[n]);
        if loc_file(w[n].0, dir) == f {
            let k2 = json_keys(w[n].0);
            assert(keys_apart(k2, k));
            assert forall|i: int| 0 <= i < v.len() && loc_file((#[trigger] v[i]).0, dir) == f implies json_keys(v[i].0) == k2
                || keys_apart(json_keys(v[i].0), k2) by {
                assert(v[i] == w[i]);
                assert(w[i] == w[i] && w[n] == w[n]);
            }
            lemma_doc_fold_exists(v, f, dir, y, k2);
            lemma_keys_apart_symmetric(k2, k);
            lemma_replace_commute(z, k, a, k2, json_new_value(w[n].1));
        }
    }
}

/// A replacement at a path that a later write replaces again is lost in the writes.
proof fn lemma_doc_fold_absorb(w: Seq<(Seq<FilterView>, Seq<char>)>, f: Seq<char>, dir: Seq<char>, y: JsonView, k: Seq<Seq<char>>, a: JsonView)
    requires
        json_paths_ok(w, f, dir, y),
        k.len() > 0,
        json_lookup(y, k) is Ok,
        forall|i: int|
            0 <= i < w.len() && loc_file((#[trigger] w[i]).0, dir) == f ==> json_keys(w[i].0) == k || keys_apart(
                json_keys(w[i].0),
                k,
            ),
        exists|i: int| 0 <= i < w.len() && loc_file((#[trigger] w[i]).0, dir) == f && json_keys(w[i].0) == k,
    ensures
        json_doc_fold(w, f, dir, json_replace(y, k, a)->Done_0) == json_doc_fold(w, f, dir, y),
    decreases w.len(),
{
    let v = w.drop_last();
    let n = w.len() - 1;
    lemma_paths_ok_prefix(w, f, dir, y);
    assert(w.last() == w[n]);
    assert forall|i: int|
        0 <= i < v.len() && loc_file((#[trigger] v[i]).0, dir) == f implies json_keys(v[i].0) == k || keys_apart(
        json_keys(v[i].0),
        k,
    ) by {
        assert(v[i] == w[i]);
    }
    if exists|i: int| 0 <= i < v.len() && loc_file((#[trigger] v[i]).0, dir) == f && json_keys(v[i].0) == k {
        lemma_doc_fold_absorb(v, f, dir, y, k, a);
    } else {
        let i = choose|i: int| 0 <= i < w.len() && loc_file((#[trigger] w[i]).0, dir) == f && json_keys(w[i].0) == k;
        if i < n {
            assert(v[i] == w[i]);
        }
        assert(i == n);
        assert forall|j: int| 0 <= j < v.len() && loc_file((#[trigger] v[j]).0, dir) == f implies keys_apart(json_keys(v[j].0), k) by {
            assert(v[j] == w[j]);
        }
        lemma_doc_fold_commute(v, f, dir, y, k, a);
        lemma_doc_fold_lookup(v, f, dir, y, k);
        let z = json_doc_fold(v, f, dir, y);
        lemma_replace_existing(z, k, a);
        assert(json_replace(json_replace(z, k, a)->Done_0, k, json_new_value(w[n].1)) == json_replace(z, k, json_new_value(w[n].1)));
    }
}

/// Writes whose paths the writes of `w2` all replace again are lost: writing `w1` and then
/// `w2` leaves the document `w2` alone leaves.
pub proof fn lemma_doc_fold_overwrite(
    w1: Seq<(Seq<FilterView>, Seq<char>)>,
    w2: Seq<(Seq<FilterView>, Seq<char>)>,
    f: Seq<char>,
    dir: Seq<char>,
    d: JsonView,
)
    requires
        json_paths_ok(w1, f, dir, d),
        json_paths_ok(w2, f, dir, d),
        forall|i: int, j: int|
            #![trigger w1[i], w2[j]]
            0 <= i < w1.len() && 0 <= j < w2.len() && loc_file(w1[i].0, dir) == f && loc_file(w2[j].0, dir) == f ==> json_keys(
                w1[i].0,
            ) == json_keys(w2[j].0) || keys_apart(json_keys(w1[i].0), json_keys(w2[j].0)),
        forall|i: int|
            0 <= i < w1.len() && loc_file((#[trigger] w1[i]).0, dir) == f ==> exists|j: int|
                0 <= j < w2.len() && loc_file((#[trigger] w2[j]).0, dir) == f && json_keys(w2[j].0) == json_keys(w1[i].0),
    ensures
        json_doc_fold(w1 + w2, f, dir, d) == json_doc_fold(w2, f, dir, d),
    decreases w1.len(),
{
    lemma_doc_fold_concat(w1, w2, f, dir, d);
    if w1.len() > 0 {
        let v1 = w1.drop_last();
        let n = w1.len() - 1;
        lemma_paths_ok_prefix(w1, f, dir, d);
        assert forall|i: int, j: int|
            #![trigger v1[i], w2[j]]
            0 <= i < v1.len() && 0 <= j < w2.len() && loc_file(v1[i].0, dir) == f && loc_file(w2[j].0, dir) == f implies json_keys(
            v1[i].0,
        ) == json_keys(w2[j].0) || keys_apart(json_keys(v1[i].0), json_keys(w2[j].0)) by {
            assert(v1[i] == w1[i]);
            assert(w1[i] == w1[i] && w2[j] == w2[j]);
        }
        assert forall|i: int| 0 <= i < v1.len() && loc_file((#[trigger] v1[i]).0, dir) == f implies exists|j: int|
            0 <= j < w2.len() && loc_file((#[trigger] w2[j]).0, dir) == f && json_keys(w2[j].0) == json_keys(v1[i].0) by {
            assert(v1[i] == w1[i]);
        }
        lemma_doc_fold_overwrite(v1, w2, f, dir, d);
        lemma_doc_fold_concat(v1, w2, f, dir, d);
        assert(w1.last() == w1[n]);
        if loc_file(w1[n].0, dir) == f {
            let k = json_keys(w1[n].0);
            let y = json_doc_fold(v1, f, dir, d);
            // The paths of `w2` exist after `v1`.
            assert(json_paths_ok(w2, f, dir, y)) by {
                assert forall|j: int| 0 <= j < w2.len() && loc_file((#[trigger] w2[j]).0, dir) == f implies json_keys(w2[j].0).len() > 0
                    && json_lookup(y, json_keys(w2[j].0)) is Ok by {
                    assert forall|i: int| 0 <= i < v1.len() && loc_file((#[trigger] v1[i]).0, dir) == f implies json_keys(v1[i].0)
                        == json_keys(w2[j].0) || keys_apart(json_keys(v1[i].0), json_keys(w2[j].0)) by {
                        assert(v1[i] == w1[i]);
                        assert(w1[i] == w1[i] && w2[j] == w2[j]);
                    }
                    lemma_doc_fold_exists(v1, f, dir, d, json_keys(w2[j].0));
                }
            }
            assert forall|i: int| 0 <= i < v1.len() && loc_file((#[trigger] v1[i]).0, dir) == f implies json_keys(v1[i].0) == k
                || keys_apart(json_keys(v1[i].0), k) by {
                assert(v1[i] == w1[i]);
                assert(w1[i] == w1[i] && w1[n] == w1[n]);
            }
            lemma_doc_fold_exists(v1, f, dir, d, k);
            let j = choose|j: int| 0 <= j < w2.len() && loc_file((#[trigger] w2[j]).0, dir) == f && json_keys(w2[j].0) == k;
            assert forall|j2: int| 0 <= j2 < w2.len() && loc_file((#[trigger] w2[j2]).0, dir) == f implies json_keys(w2[j2].0) == k
                || keys_apart(json_keys(w2[j2].0), k) by {
                assert(w1[n] == w1[n] && w2[j2] == w2[j2]);
                if json_keys(w2[j2].0) != k {
                    lemma_keys_apart_symmetric(k, json_keys(w2[j2].0));
                }
            }
            lemma_doc_fold_absorb(w2, f, dir, y, k, json_new_value(w1[n].1));
        }
    }
}

/// Each write can be made into its file as the writes before it left it (see
/// `loc_writable`), and settles it there (see `loc_settles`) when a later write names the same
/// file.
pub open spec fn writes_along(w: Seq<(Seq<FilterView>, Seq<char>)>, dir: Seq<char>, fs: FilesView) -> bool {
    forall|k: int|
        0 <= k < w.len() ==> {
            let f = loc_file((#[trigger] w[k]).0, dir);
            let ck = file_fold(w.take(k), f, dir, ws_read(fs, f).unwrap());
            &&& ws_read(fs, f) is Some
            &&& loc_writable(w[k].0, w[k].1, ck)
            &&& (exists|j: int| k < j < w.len() && loc_file((#[trigger] w[j]).0, dir) == f) ==> loc_settles(
                w[k].0,
                w[k].1,
                ck,
            )
        }
}

/// What the dotenv writes of a run followed by a restore through the same locators need, read
/// off `writes_along` of the two together: each can be made into its file's original content.
#[verifier::spinoff_prover]
#[verifier::rlimit(60)]
proof fn lemma_chain_env_ok(
    w1: Seq<(Seq<FilterView>, Seq<char>)>,
    w2: Seq<(Seq<FilterView>, Seq<char>)>,
    dir: Seq<char>,
    fs: FilesView,
    n: int,
)
    requires
        targets_distinct(w1, dir),
        w1.len() == w2.len(),
        forall|i: int| 0 <= i < w1.len() ==> (#[trigger] w1[i]).0 == w2[i].0,
        writes_along(w1 + w2, dir, fs),
        0 <= n <= w1.len(),
    ensures
        forall|i: int|
            0 <= i < w1.len() && (#[trigger] w1[i]).0[0] is EnvFile ==> {
                &&& ws_read(fs, loc_file(w1[i].0, dir)) is Some
                &&& loc_writable(w1[i].0, w1[i].1, ws_read(fs, loc_file(w1[i].0, dir)).unwrap())
                &&& loc_writable(w2[i].0, w2[i].1, ws_read(fs, loc_file(w1[i].0, dir)).unwrap())
            },
{
    let ww = w1 + w2;
    let len = w1.len() as int;
    let e0 = Map::<Seq<char>, Seq<char>>::empty();
    assert(env_along(w1, dir, fs, len)) by {
        assert forall|k: int| 0 <= k < len && (#[trigger] w1[k]).0[0] is EnvFile implies {
            &&& ws_read(fs, loc_file(w1[k].0, dir)) is Some
            &&& loc_writable(
                w1[k].0,
                w1[k].1,
                file_fold(w1.take(k), loc_file(w1[k].0, dir), dir, ws_read(fs, loc_file(w1[k].0, dir)).unwrap()),
            )
        } by {
            assert(ww[k] == w1[k]);
            assert(ww.take(k) =~= w1.take(k));
        }
    }
    lemma_along_env(w1, dir, fs, len);
    // Each restore write of a dotenv variable can be made into its file's original content.
    assert forall|i: int| 0 <= i < w1.len() && (#[trigger] w1[i]).0[0] is EnvFile implies {
        &&& ws_read(fs, loc_file(w1[i].0, dir)) is Some
        &&& loc_writable(w1[i].0, w1[i].1, ws_read(fs, loc_file(w1[i].0, dir)).unwrap())
        &&& loc_writable(w2[i].0, w2[i].1, ws_read(fs, loc_file(w1[i].0, dir)).unwrap())
    } by {
        assert(ww[len + i] == w2[i]);
        assert(w1[i].0 == w2[i].0);
    }
}

/// The contents a JSON file holds along a sequence of writes to it that can each be made, and
/// that each settle it when a later write follows: the original before the first write, after
/// it the document of the writes so far as `serde_json` writes it, which reads back as that
/// document while a write is still to come.
pub proof fn lemma_json_chain(w: Seq<(Seq<FilterView>, Seq<char>)>, f: Seq<char>, dir: Seq<char>, c: Seq<char>, d0: JsonView, k: int)
    requires
        json_parse(c) == Some(d0),
        0 <= k <= w.len(),
        forall|i: int| 0 <= i < w.len() && loc_file((#[trigger] w[i]).0, dir) == f ==> w[i].0[0] is JsonFile,
        forall|i: int|
            0 <= i < w.len() && loc_file((#[trigger] w[i]).0, dir) == f ==> {
                let ci = file_fold(w.take(i), f, dir, c);
                &&& loc_ready(w[i].0, w[i].1, ci)
                &&& (exists|j: int| i < j < w.len() && loc_file((#[trigger] w[j]).0, dir) == f) ==> loc_settles(
                    w[i].0,
                    w[i].1,
                    ci,
                )
            },
    ensures
        ({
            let ck = file_fold(w.take(k), f, dir, c);
            let dk = json_doc_fold(w.take(k), f, dir, d0);
            &&& !(exists|i: int| 0 <= i < k && loc_file((#[trigger] w[i]).0, dir) == f) ==> ck == c
            &&& (exists|i: int| 0 <= i < k && loc_file((#[trigger] w[i]).0, dir) == f) ==> ck == json_pretty(dk).push('\n')
            &&& (exists|j: int| k <= j < w.len() && loc_file((#[trigger] w[j]).0, dir) == f) ==> json_parse(ck) == Some(dk)
        }),
    decreases k,
{
    if k == 0 {
        assert(w.take(0) =~= Seq::<(Seq<FilterView>, Seq<char>)>::empty());
    } else {
        let j = k - 1;
        lemma_json_chain(w, f, dir, c, d0, j);
        assert(w.take(k).drop_last() =~= w.take(j));
        assert(w.take(k).last() == w[j]);
        let cj = file_fold(w.take(j), f, dir, c);
        let dj = json_doc_fold(w.take(j), f, dir, d0);
        if loc_file(w[j].0, dir) == f {
            assert(json_parse(cj) == Some(dj)) by {
                assert(j <= j < w.len() && loc_file(w[j].0, dir) == f);
            }
            if exists|j2: int| k <= j2 < w.len() && loc_file((#[trigger] w[j2]).0, dir) == f {
                let j2 = choose|j2: int| k <= j2 < w.len() && loc_file((#[trigger] w[j2]).0, dir) == f;
                assert(j < j2 < w.len() && loc_file(w[j2].0, dir) == f);
            }
            assert(0 <= j < k && loc_file(w[j].0, dir) == f);
        } else {
            if exists|i: int| 0 <= i < k && loc_file((#[trigger] w[i]).0, dir) == f {
                let i = choose|i: int| 0 <= i < k && loc_file((#[trigger] w[i]).0, dir) == f;
                assert(0 <= i < j && loc_file(w[i].0, dir) == f);
            }
            if exists|j2: int| k <= j2 < w.len() && loc_file((#[trigger] w[j2]).0, dir) == f {
                let j2 = choose|j2: int| k <= j2 < w.len() && loc_file((#[trigger] w[j2]).0, dir) == f;
                assert(j <= j2 < w.len() && loc_file(w[j2].0, dir) == f);
            }
        }
    }
}

/// A path that parts from every written path, each of which exists when it is written, still
/// leads where it did.
pub proof fn lemma_doc_fold_lookup_along(w: Seq<(Seq<FilterView>, Seq<char>)>, f: Seq<char>, dir: Seq<char>, d: JsonView, p: Seq<Seq<char>>)
    requires
        forall|i: int|
            0 <= i < w.len() && loc_file((#[trigger] w[i]).0, dir) == f ==> json_lookup(
                json_doc_fold(w.take(i), f, dir, d),
                json_keys(w[i].0),
            ) is Ok && json_keys(w[i].0).len() > 0 && keys_apart(json_keys(w[i].0), p),
    ensures
        json_lookup(json_doc_fold(w, f, dir, d), p) == json_lookup(d, p),
    decreases w.len(),
{
    if w.len() > 0 {
        let v = w.drop_last();
        let n = w.len() - 1;
        assert forall|i: int|
            0 <= i < v.len() && loc_file((#[trigger] v[i]).0, dir) == f implies json_lookup(
            json_doc_fold(v.take(i), f, dir, d),
            json_keys(v[i].0),
        ) is Ok && json_keys(v[i].0).len() > 0 && keys_apart(json_keys(v[i].0), p) by {
            assert(v[i] == w[i]);
            assert(v.take(i) =~= w.take(i));
        }
        lemma_doc_fold_lookup_along(v, f, dir, d, p);
        assert(w.last() == w[n]);
        if loc_file(w[n].0, dir) == f {
            assert(w.take(n) =~= v);
            lemma_replace_keeps_other(json_doc_fold(v, f, dir, d), json_keys(w[n].0), json_new_value(w[n].1), p);
        }
    }
}

/// Along a JSON chain (see `lemma_json_chain`), a locator finds the same target at any step
/// before its write when no write in between names the same path or one that does not part.
pub proof fn lemma_json_chain_stable(
    w: Seq<(Seq<FilterView>, Seq<char>)>,
    f: Seq<char>,
    dir: Seq<char>,
    c: Seq<char>,
    d0: JsonView,
    s: int,
    k: int,
)
    requires
        json_parse(c) == Some(d0),
        forall|i: int| 0 <= i < w.len() && loc_file((#[trigger] w[i]).0, dir) == f ==> w[i].0[0] is JsonFile,
        forall|i: int|
            0 <= i < w.len() && loc_file((#[trigger] w[i]).0, dir) == f ==> {
                let ci = file_fold(w.take(i), f, dir, c);
                &&& loc_ready(w[i].0, w[i].1, ci)
                &&& (exists|j: int| i < j < w.len() && loc_file((#[trigger] w[j]).0, dir) == f) ==> loc_settles(
                    w[i].0,
                    w[i].1,
                    ci,
                )
            },
        0 <= s <= k < w.len(),
        loc_file(w[k].0, dir) == f,
        forall|i: int| s <= i < k && loc_file((#[trigger] w[i]).0, dir) == f ==> keys_apart(json_keys(w[i].0), json_keys(w[k].0)),
    ensures
        located(w[k].0, dir, file_fold(w.take(s), f, dir, c)) == located(w[k].0, dir, file_fold(w.take(k), f, dir, c)),
{
    lemma_json_chain(w, f, dir, c, d0, s);
    lemma_json_chain(w, f, dir, c, d0, k);
    assert(s <= k < w.len() && loc_file(w[k].0, dir) == f);
    let ds = json_doc_fold(w.take(s), f, dir, d0);
    let dk = json_doc_fold(w.take(k), f, dir, d0);
    let seg = w.subrange(s, k);
    assert(w.take(k) =~= w.take(s) + seg);
    lemma_doc_fold_concat(w.take(s), seg, f, dir, d0);
    assert forall|t: int|
        0 <= t < seg.len() && loc_file((#[trigger] seg[t]).0, dir) == f implies json_lookup(
        json_doc_fold(seg.take(t), f, dir, ds),
        json_keys(seg[t].0),
    ) is Ok && json_keys(seg[t].0).len() > 0 && keys_apart(json_keys(seg[t].0), json_keys(w[k].0)) by {
        let i = s + t;
        assert(seg[t] == w[i]);
        assert(w.take(i) =~= w.take(s) + seg.take(t));
        lemma_doc_fold_concat(w.take(s), seg.take(t), f, dir, d0);
        lemma_json_chain(w, f, dir, c, d0, i);
        assert(i <= i < w.len() && loc_file(w[i].0, dir) == f);
        lemma_json_ready(w[i].0, w[i].1, file_fold(w.take(i), f, dir, c));
    }
    lemma_doc_fold_lookup_along(seg, f, dir, ds, json_keys(w[k].0));
}

/// A write that can be made: for a JSON locator, the file parses and the selector's path
/// exists there.
proof fn lemma_json_ready(l: Seq<FilterView>, v: Seq<char>, c: Seq<char>)
    requires
        l[0] is JsonFile,
        loc_ready(l, v, c),
    ensures
        json_parse(c) is Some,
        json_keys(l).len() > 0,
        json_lookup(json_parse(c).unwrap(), json_keys(l)) is Ok,
{
}

/// The JSON chain facts (see `lemma_json_chain`) for the file of the `k`-th write, a JSON
/// write, read off `writes_along`, when every write to that file is a JSON write.
proof fn lemma_chain_json_ok(w: Seq<(Seq<FilterView>, Seq<char>)>, dir: Seq<char>, fs: FilesView, k: int)
    requires
        writes_along(w, dir, fs),
        0 <= k < w.len(),
        w[k].0[0] is JsonFile,
        forall|i: int| 0 <= i < w.len() && loc_file((#[trigger] w[i]).0, dir) == loc_file(w[k].0, dir) ==> w[i].0[0] is JsonFile,
    ensures
        ({
            let f = loc_file(w[k].0, dir);
            let c = ws_read(fs, f).unwrap();
            &&& ws_read(fs, f) is Some
            &&& json_parse(c) is Some
            &&& forall|i: int|
                0 <= i < w.len() && loc_file((#[trigger] w[i]).0, dir) == f ==> {
                    let ci = file_fold(w.take(i), f, dir, c);
                    &&& loc_ready(w[i].0, w[i].1, ci)
                    &&& (exists|j: int| i < j < w.len() && loc_file((#[trigger] w[j]).0, dir) == f) ==> loc_settles(
                        w[i].0,
                        w[i].1,
                        ci,
                    )
                }
        }),
{
    let f = loc_file(w[k].0, dir);
    let c = ws_read(fs, f).unwrap();
    assert(w[k] == w[k]);
    let j0 = lemma_first_write(w, f, dir, k);
    assert(w[j0] == w[j0]);
    assert forall|i: int| 0 <= i < w.take(j0).len() implies loc_file((#[trigger] w.take(j0)[i]).0, dir) != f by {
        assert(w.take(j0)[i] == w[i]);
    }
    lemma_fold_untouched(w.take(j0), f, dir, c);
    lemma_json_ready(w[j0].0, w[j0].1, c);
    assert forall|i: int|
        0 <= i < w.len() && loc_file((#[trigger] w[i]).0, dir) == f implies {
        let ci = file_fold(w.take(i), f, dir, c);
        &&& loc_ready(w[i].0, w[i].1, ci)
        &&& (exists|j: int| i < j < w.len() && loc_file((#[trigger] w[j]).0, dir) == f) ==> loc_settles(w[i].0, w[i].1, ci)
    } by {}
}

/// Along a JSON chain whose writes to the file name paths that part, each path exists in the
/// original document.
proof fn lemma_json_paths_exist(w: Seq<(Seq<FilterView>, Seq<char>)>, f: Seq<char>, dir: Seq<char>, c: Seq<char>, d0: JsonView)
    requires
        json_parse(c) == Some(d0),
        forall|i: int| 0 <= i < w.len() && loc_file((#[trigger] w[i]).0, dir) == f ==> w[i].0[0] is JsonFile,
        forall|i: int|
            0 <= i < w.len() && loc_file((#[trigger] w[i]).0, dir) == f ==> {
                let ci = file_fold(w.take(i), f, dir, c);
                &&& loc_ready(w[i].0, w[i].1, ci)
                &&& (exists|j: int| i < j < w.len() && loc_file((#[trigger] w[j]).0, dir) == f) ==> loc_settles(
                    w[i].0,
                    w[i].1,
                    ci,
                )
            },
        forall|i: int, i2: int|
            #![trigger w[i], w[i2]]
            0 <= i < w.len() && 0 <= i2 < w.len() && i != i2 && loc_file(w[i].0, dir) == f && loc_file(w[i2].0, dir) == f
                ==> keys_apart(json_keys(w[i].0), json_keys(w[i2].0)),
    ensures
        json_paths_ok(w, f, dir, d0),
{
    assert forall|i: int| 0 <= i < w.len() && loc_file((#[trigger] w[i]).0, dir) == f implies json_keys(w[i].0).len() > 0
        && json_lookup(d0, json_keys(w[i].0)) is Ok by {
        let wi = w.take(i);
        lemma_json_chain(w, f, dir, c, d0, i);
        assert(i <= i < w.len() && loc_file(w[i].0, dir) == f);
        lemma_json_ready(w[i].0, w[i].1, file_fold(wi, f, dir, c));
        assert forall|t: int|
            0 <= t < wi.len() && loc_file((#[trigger] wi[t]).0, dir) == f implies json_lookup(
            json_doc_fold(wi.take(t), f, dir, d0),
            json_keys(wi[t].0),
        ) is Ok && json_keys(wi[t].0).len() > 0 && keys_apart(json_keys(wi[t].0), json_keys(w[i].0)) by {
            assert(wi[t] == w[t]);
            assert(wi.take(t) =~= w.take(t));
            lemma_json_chain(w, f, dir, c, d0, t);
            assert(t <= t < w.len() && loc_file(w[t].0, dir) == f);
            lemma_json_ready(w[t].0, w[t].1, file_fold(w.take(t), f, dir, c));
            assert(w[t] == w[t] && w[i] == w[i]);
        }
        lemma_doc_fold_lookup_along(wi, f, dir, d0, json_keys(w[i].0));
    }
    assert forall|i: int, i2: int|
        #![trigger w[i], w[i2]]
        0 <= i < w.len() && 0 <= i2 < w.len() && loc_file(w[i].0, dir) == f && loc_file(w[i2].0, dir) == f implies json_keys(
        w[i].0,
    ) == json_keys(w[i2].0) || keys_apart(json_keys(w[i].0), json_keys(w[i2].0)) by {}
}

/// A write that can be made into a file (see `loc_writable`) is ready for it.
proof fn lemma_writable_ready(l: Seq<FilterView>, v: Seq<char>, c: Seq<char>)
    requires
        l.len() > 0,
        loc_writable(l, v, c),
    ensures
        loc_ready(l, v, c),
{
    if l[0] is EnvFile {
        lemma_assignments_keep_shape(c, l[0]->EnvFile_variable, v);
    }
}

/// Writes through the same locators twice over, the first time under `targets_distinct`: the
/// second time is under it too, and a write of either to the JSON file of the `k`-th locator
/// is a JSON write.
proof fn lemma_twice_shape(w1: Seq<(Seq<FilterView>, Seq<char>)>, w2: Seq<(Seq<FilterView>, Seq<char>)>, dir: Seq<char>)
    requires
        targets_distinct(w1, dir),
        w1.len() == w2.len(),
        forall|i: int| 0 <= i < w1.len() ==> (#[trigger] w1[i]).0 == w2[i].0,
    ensures
        targets_distinct(w2, dir),
        forall|i: int| 0 <= i < w1.len() ==> (#[trigger] (w1 + w2)[i]) == w1[i],
        forall|i: int| 0 <= i < w2.len() ==> (#[trigger] (w1 + w2)[w1.len() + i]) == w2[i],
        forall|i: int, k: int|
            #![trigger (w1 + w2)[i], w1[k]]
            0 <= i < w1.len() + w2.len() && 0 <= k < w1.len() && w1[k].0[0] is JsonFile && loc_file((w1 + w2)[i].0, dir)
                == loc_file(w1[k].0, dir) ==> (w1 + w2)[i].0[0] is JsonFile,
{
    let ww = w1 + w2;
    let n = w1.len() as int;
    assert forall|i: int| 0 <= i < w2.len() implies (#[trigger] w2[i]).0.len() > 0 by {
        assert(w1[i].0 == w2[i].0);
    }
    assert forall|i: int, j: int|
        #![trigger w2[i], w2[j]]
        0 <= i < w2.len() && 0 <= j < w2.len() && i != j && loc_file(w2[i].0, dir) == loc_file(w2[j].0, dir) implies {
        ||| {
            &&& w2[i].0[0] is EnvFile
            &&& w2[j].0[0] is EnvFile
            &&& env_var(w2[i].0) != env_var(w2[j].0)
            &&& vars_apart(env_var(w2[i].0), env_var(w2[j].0))
        }
        ||| {
            &&& w2[i].0[0] is JsonFile
            &&& w2[j].0[0] is JsonFile
            &&& keys_apart(selector_keys(w2[i].0[0]->JsonFile_selector), selector_keys(w2[j].0[0]->JsonFile_selector))
        }
    } by {
        assert(w1[i].0 == w2[i].0);
        assert(w1[j].0 == w2[j].0);
        assert(w1[i] == w1[i] && w1[j] == w1[j]);
    }
    assert forall|i: int, k: int|
        #![trigger ww[i], w1[k]]
        0 <= i < w1.len() + w2.len() && 0 <= k < w1.len() && w1[k].0[0] is JsonFile && loc_file(ww[i].0, dir) == loc_file(
            w1[k].0,
            dir,
        ) implies ww[i].0[0] is JsonFile by {
        let i1 = if i < n { i } else { i - n };
        if i < n {
            assert(ww[i] == w1[i]);
        } else {
            assert(ww[i] == w2[i - n]);
            assert(w1[i - n].0 == w2[i - n].0);
        }
        if i1 != k {
            assert(w1[i1] == w1[i1] && w1[k] == w1[k]);
        }
    }
}

/// A run followed by a restore through the same locators, the run's writes under
/// `targets_distinct`, with `writes_along` of the two together and of the restore alone: every
/// write of the run, and of the restore alone, can be made along the way, and each locator finds
/// the same targets throughout.
#[verifier::spinoff_prover]
#[verifier::rlimit(100)]
pub proof fn lemma_twice_model(w1: Seq<(Seq<FilterView>, Seq<char>)>, w2: Seq<(Seq<FilterView>, Seq<char>)>, dir: Seq<char>, fs: FilesView)
    requires
        targets_distinct(w1, dir),
        w1.len() == w2.len(),
        forall|i: int| 0 <= i < w1.len() ==> (#[trigger] w1[i]).0 == w2[i].0,
        writes_along(w1 + w2, dir, fs),
        writes_along(w2, dir, fs),
    ensures
        targets_distinct(w2, dir),
        fold_ready(w1, dir, fs),
        fold_stable(w1, dir, fs),
        fold_ready(w2, dir, fs),
        fold_stable(w2, dir, fs),
{
    let ww = w1 + w2;
    let n = w1.len() as int;
    lemma_twice_shape(w1, w2, dir);
    lemma_chain_env_ok(w1, w2, dir, fs, 0);
    assert forall|k: int| 0 <= k < w1.len() implies {
        &&& (#[trigger] w1[k]).0.len() > 0
        &&& ws_read(fs, loc_file(w1[k].0, dir)) is Some
        &&& loc_ready(w1[k].0, w1[k].1, file_fold(w1.take(k), loc_file(w1[k].0, dir), dir, ws_read(fs, loc_file(w1[k].0, dir)).unwrap()))
    } by {
        assert(ww[k] == w1[k]);
        assert(ww.take(k) =~= w1.take(k));
        let f = loc_file(w1[k].0, dir);
        lemma_writable_ready(w1[k].0, w1[k].1, file_fold(w1.take(k), f, dir, ws_read(fs, f).unwrap()));
    }
    assert forall|k: int| 0 <= k < w2.len() implies {
        &&& (#[trigger] w2[k]).0.len() > 0
        &&& ws_read(fs, loc_file(w2[k].0, dir)) is Some
        &&& loc_ready(w2[k].0, w2[k].1, file_fold(w2.take(k), loc_file(w2[k].0, dir), dir, ws_read(fs, loc_file(w2[k].0, dir)).unwrap()))
    } by {
        let f = loc_file(w2[k].0, dir);
        lemma_writable_ready(w2[k].0, w2[k].1, file_fold(w2.take(k), f, dir, ws_read(fs, f).unwrap()));
    }
    assert forall|s: int, k: int|
        #![trigger w1.take(s), w1[k]]
        0 <= s <= k < w1.len() implies {
        let f = loc_file(w1[k].0, dir);
        let c = ws_read(fs, f).unwrap();
        located(w1[k].0, dir, file_fold(w1.take(s), f, dir, c)) == located(w1[k].0, dir, file_fold(w1.take(k), f, dir, c))
    } by {
        if w1[k].0[0] is EnvFile {
            lemma_env_stable(w1, dir, fs, s, k);
        } else {
            let f = loc_file(w1[k].0, dir);
            let c = ws_read(fs, f).unwrap();
            assert(ww[k] == w1[k]);
            assert forall|i: int| 0 <= i < ww.len() && loc_file((#[trigger] ww[i]).0, dir) == loc_file(ww[k].0, dir) implies ww[i].0[0] is JsonFile by {
                assert(ww[i] == ww[i] && w1[k] == w1[k]);
            }
            lemma_chain_json_ok(ww, dir, fs, k);
            assert forall|i: int| s <= i < k && loc_file((#[trigger] ww[i]).0, dir) == f implies keys_apart(json_keys(ww[i].0), json_keys(ww[k].0)) by {
                assert(ww[i] == w1[i]);
                assert(w1[i] == w1[i] && w1[k] == w1[k]);
            }
            lemma_json_chain_stable(ww, f, dir, c, json_parse(c).unwrap(), s, k);
            assert(ww.take(s) =~= w1.take(s));
            assert(ww.take(k) =~= w1.take(k));
        }
    }
    assert forall|s: int, k: int|
        #![trigger w2.take(s), w2[k]]
        0 <= s <= k < w2.len() implies {
        let f = loc_file(w2[k].0, dir);
        let c = ws_read(fs, f).unwrap();
        located(w2[k].0, dir, file_fold(w2.take(s), f, dir, c)) == located(w2[k].0, dir, file_fold(w2.take(k), f, dir, c))
    } by {
        assert(w1[k].0 == w2[k].0);
        if w2[k].0[0] is EnvFile {
            assert forall|i: int|
                0 <= i < w2.len() && (#[trigger] w2[i]).0[0] is EnvFile implies {
                &&& ws_read(fs, loc_file(w2[i].0, dir)) is Some
                &&& loc_writable(w2[i].0, w2[i].1, ws_read(fs, loc_file(w2[i].0, dir)).unwrap())
            } by {
                assert(w1[i].0 == w2[i].0);
            }
            lemma_env_stable(w2, dir, fs, s, k);
        } else {
            let f = loc_file(w2[k].0, dir);
            let c = ws_read(fs, f).unwrap();
            assert forall|i: int| 0 <= i < w2.len() && loc_file((#[trigger] w2[i]).0, dir) == loc_file(w2[k].0, dir) implies w2[i].0[0] is JsonFile by {
                if i != k {
                    assert(w2[i] == w2[i] && w2[k] == w2[k]);
                }
            }
            lemma_chain_json_ok(w2, dir, fs, k);
            assert forall|i: int| s <= i < k && loc_file((#[trigger] w2[i]).0, dir) == f implies keys_apart(json_keys(w2[i].0), json_keys(w2[k].0)) by {
                assert(w2[i] == w2[i] && w2[k] == w2[k]);
            }
            lemma_json_chain_stable(w2, f, dir, c, json_parse(c).unwrap(), s, k);
        }
    }
}

/// A JSON file that a run and a restore through the same locators both write (as
/// `lemma_twice_model`, the `j`-th locator writing it): the restore after the run leaves its
/// document as the restore alone does.
#[verifier::spinoff_prover]
#[verifier::rlimit(100)]
proof fn lemma_twice_json_file(
    w1: Seq<(Seq<FilterView>, Seq<char>)>,
    w2: Seq<(Seq<FilterView>, Seq<char>)>,
    dir: Seq<char>,
    fs: FilesView,
    g: Seq<char>,
    j: int,
)
    requires
        targets_distinct(w1, dir),
        w1.len() == w2.len(),
        forall|i: int| 0 <= i < w1.len() ==> (#[trigger] w1[i]).0 == w2[i].0,
        writes_along(w1 + w2, dir, fs),
        writes_along(w2, dir, fs),
        ws_read(fs, g) is Some,
        0 <= j < w1.len(),
        loc_file(w1[j].0, dir) == g,
        w1[j].0[0] is JsonFile,
    ensures
        file_fold(w1 + w2, g, dir, ws_read(fs, g).unwrap()) == file_fold(w2, g, dir, ws_read(fs, g).unwrap()),
{
    let ww = w1 + w2;
    let n = w1.len() as int;
    let c = ws_read(fs, g).unwrap();
    lemma_twice_shape(w1, w2, dir);
    assert(ww.take(2 * n) =~= ww);
    assert(w2.take(n) =~= w2);
    assert(w1[j].0 == w2[j].0);
    let d0 = json_parse(c).unwrap();
    assert forall|i: int| 0 <= i < ww.len() && loc_file((#[trigger] ww[i]).0, dir) == loc_file(ww[j].0, dir) implies ww[i].0[0] is JsonFile by {
        assert(ww[i] == ww[i] && w1[j] == w1[j]);
    }
    assert(ww[j] == w1[j]);
    lemma_chain_json_ok(ww, dir, fs, j);
    assert forall|i: int| 0 <= i < w2.len() && loc_file((#[trigger] w2[i]).0, dir) == loc_file(w2[j].0, dir) implies w2[i].0[0] is JsonFile by {
        if i != j {
            assert(w2[i] == w2[i] && w2[j] == w2[j]);
        }
    }
    lemma_chain_json_ok(w2, dir, fs, j);
    lemma_json_chain(ww, g, dir, c, d0, 2 * n);
    lemma_json_chain(w2, g, dir, c, d0, n);
    assert(0 <= j < 2 * n && loc_file(ww[j].0, dir) == g);
    assert(0 <= j < n && loc_file(w2[j].0, dir) == g);
    assert forall|i: int, i2: int|
        #![trigger w2[i], w2[i2]]
        0 <= i < w2.len() && 0 <= i2 < w2.len() && i != i2 && loc_file(w2[i].0, dir) == g && loc_file(w2[i2].0, dir) == g
        implies keys_apart(json_keys(w2[i].0), json_keys(w2[i2].0)) by {
        assert(w2[i] == w2[i] && w2[i2] == w2[i2]);
    }
    lemma_json_paths_exist(w2, g, dir, c, d0);
    lemma_twice_json_docs(w1, w2, dir, g, d0);
}

/// The documents a run and a restore through the same locators (as `lemma_twice_model`) make
/// of a JSON file whose paths the restore's writes find apart: the restore after the run
/// leaves the document the restore alone leaves.
#[verifier::spinoff_prover]
proof fn lemma_twice_json_docs(
    w1: Seq<(Seq<FilterView>, Seq<char>)>,
    w2: Seq<(Seq<FilterView>, Seq<char>)>,
    dir: Seq<char>,
    g: Seq<char>,
    d0: JsonView,
)
    requires
        w1.len() == w2.len(),
        forall|i: int| 0 <= i < w1.len() ==> (#[trigger] w1[i]).0 == w2[i].0,
        json_paths_ok(w2, g, dir, d0),
    ensures
        json_doc_fold(w1 + w2, g, dir, d0) == json_doc_fold(w2, g, dir, d0),
{
    assert(json_paths_ok(w1, g, dir, d0)) by {
        assert forall|i: int| 0 <= i < w1.len() && loc_file((#[trigger] w1[i]).0, dir) == g implies json_keys(w1[i].0).len() > 0
            && json_lookup(d0, json_keys(w1[i].0)) is Ok by {
            assert(w1[i].0 == w2[i].0);
            assert(w2[i] == w2[i]);
        }
        assert forall|i: int, i2: int|
            #![trigger w1[i], w1[i2]]
            0 <= i < w1.len() && 0 <= i2 < w1.len() && loc_file(w1[i].0, dir) == g && loc_file(w1[i2].0, dir) == g implies json_keys(
            w1[i].0,
        ) == json_keys(w1[i2].0) || keys_apart(json_keys(w1[i].0), json_keys(w1[i2].0)) by {
            assert(w1[i].0 == w2[i].0 && w1[i2].0 == w2[i2].0);
            assert(w2[i] == w2[i] && w2[i2] == w2[i2]);
        }
    }
    assert forall|i: int, i2: int|
        #![trigger w1[i], w2[i2]]
        0 <= i < w1.len() && 0 <= i2 < w2.len() && loc_file(w1[i].0, dir) == g && loc_file(w2[i2].0, dir) == g implies json_keys(
        w1[i].0,
    ) == json_keys(w2[i2].0) || keys_apart(json_keys(w1[i].0), json_keys(w2[i2].0)) by {
        assert(w1[i].0 == w2[i].0);
        assert(w2[i] == w2[i] && w2[i2] == w2[i2]);
    }
    assert forall|i: int| 0 <= i < w1.len() && loc_file((#[trigger] w1[i]).0, dir) == g implies exists|i2: int|
        0 <= i2 < w2.len() && loc_file((#[trigger] w2[i2]).0, dir) == g && json_keys(w2[i2].0) == json_keys(w1[i].0) by {
        assert(w1[i].0 == w2[i].0);
        assert(w2[i] == w2[i]);
    }
    lemma_doc_fold_overwrite(w1, w2, g, dir, d0);
}

/// A run and a restore through the same locators (as `lemma_twice_model`): on every file, the
/// restore after the run leaves what the restore alone leaves.
proof fn lemma_twice_file(
    w1: Seq<(Seq<FilterView>, Seq<char>)>,
    w2: Seq<(Seq<FilterView>, Seq<char>)>,
    dir: Seq<char>,
    fs: FilesView,
    g: Seq<char>,
)
    requires
        targets_distinct(w1, dir),
        w1.len() == w2.len(),
        forall|i: int| 0 <= i < w1.len() ==> (#[trigger] w1[i]).0 == w2[i].0,
        writes_along(w1 + w2, dir, fs),
        writes_along(w2, dir, fs),
        ws_read(fs, g) is Some,
    ensures
        file_fold(w2, g, dir, file_fold(w1, g, dir, ws_read(fs, g).unwrap())) == file_fold(w2, g, dir, ws_read(fs, g).unwrap()),
{
    let n = w1.len() as int;
    let c = ws_read(fs, g).unwrap();
    lemma_fold_concat(w1, w2, g, dir, c);
    if exists|j: int| 0 <= j < n && loc_file((#[trigger] w1[j]).0, dir) == g {
        let j = choose|j: int| 0 <= j < n && loc_file((#[trigger] w1[j]).0, dir) == g;
        assert(w1[j].0 == w2[j].0);
        if w2[j].0[0] is EnvFile {
            lemma_twice_shape(w1, w2, dir);
            lemma_chain_env_ok(w1, w2, dir, fs, n);
            assert(w2.take(n) =~= w2);
            lemma_then_env_file(w1, w2, dir, fs, j, n);
        } else {
            lemma_twice_json_file(w1, w2, dir, fs, g, j);
        }
    } else {
        assert forall|i: int| 0 <= i < w1.len() implies loc_file((#[trigger] w1[i]).0, dir) != g by {}
        assert forall|i: int| 0 <= i < w2.len() implies loc_file((#[trigger] w2[i]).0, dir) != g by {
            assert(w1[i].0 == w2[i].0);
        }
        lemma_fold_untouched(w1, g, dir, c);
        lemma_fold_untouched(w2, g, dir, c);
    }
}

/// One write of a restore after a run through the same locators (as `lemma_twice_model`): it
/// can be made into its file as the run and the restore's earlier writes left it.
#[verifier::spinoff_prover]
#[verifier::rlimit(100)]
proof fn lemma_twice_ready_at(
    w1: Seq<(Seq<FilterView>, Seq<char>)>,
    w2: Seq<(Seq<FilterView>, Seq<char>)>,
    dir: Seq<char>,
    fs: FilesView,
    s1: FilesView,
    k: int,
)
    requires
        targets_distinct(w1, dir),
        w1.len() == w2.len(),
        forall|i: int| 0 <= i < w1.len() ==> (#[trigger] w1[i]).0 == w2[i].0,
        writes_along(w1 + w2, dir, fs),
        writes_along(w2, dir, fs),
        reads_fold(s1, w1, dir, fs),
        0 <= k < w2.len(),
    ensures
        w2[k].0.len() > 0,
        ws_read(s1, loc_file(w2[k].0, dir)) is Some,
        loc_ready(w2[k].0, w2[k].1, file_fold(w2.take(k), loc_file(w2[k].0, dir), dir, ws_read(s1, loc_file(w2[k].0, dir)).unwrap())),
{
    let ww = w1 + w2;
    let n = w1.len() as int;
    lemma_twice_shape(w1, w2, dir);
    lemma_chain_env_ok(w1, w2, dir, fs, n);
    assert(w1.take(n) =~= w1);
    let f = loc_file(w2[k].0, dir);
    let c = ws_read(fs, f).unwrap();
    assert(ww[n + k] == w2[k]);
    assert(ws_read(s1, f) == Some(file_fold(w1, f, dir, c)));
    assert(ww.take(n + k) =~= w1 + w2.take(k));
    lemma_fold_concat(w1, w2.take(k), f, dir, c);
    lemma_writable_ready(w2[k].0, w2[k].1, file_fold(ww.take(n + k), f, dir, c));
}

/// One locator of a restore after a run through the same locators (as `lemma_twice_model`):
/// it finds the same targets after the `s`-th write of the restore as after the `k`-th.
#[verifier::spinoff_prover]
#[verifier::rlimit(100)]
proof fn lemma_twice_stable_at(
    w1: Seq<(Seq<FilterView>, Seq<char>)>,
    w2: Seq<(Seq<FilterView>, Seq<char>)>,
    dir: Seq<char>,
    fs: FilesView,
    s1: FilesView,
    s: int,
    k: int,
)
    requires
        targets_distinct(w1, dir),
        w1.len() == w2.len(),
        forall|i: int| 0 <= i < w1.len() ==> (#[trigger] w1[i]).0 == w2[i].0,
        writes_along(w1 + w2, dir, fs),
        writes_along(w2, dir, fs),
        reads_fold(s1, w1, dir, fs),
        0 <= s <= k < w2.len(),
    ensures
        ({
            let f = loc_file(w2[k].0, dir);
            let c = ws_read(s1, f).unwrap();
            located(w2[k].0, dir, file_fold(w2.take(s), f, dir, c)) == located(w2[k].0, dir, file_fold(w2.take(k), f, dir, c))
        }),
{
    let ww = w1 + w2;
    let n = w1.len() as int;
    lemma_twice_shape(w1, w2, dir);
    lemma_chain_env_ok(w1, w2, dir, fs, n);
    assert(w1.take(n) =~= w1);
    let f = loc_file(w2[k].0, dir);
    let c = ws_read(fs, f).unwrap();
    assert(w1[k].0 == w2[k].0);
    assert(ws_read(s1, f) == Some(file_fold(w1, f, dir, c)));
    if w2[k].0[0] is EnvFile {
        lemma_then_env_file(w1, w2, dir, fs, k, s);
    } else {
        assert(ww[n + k] == w2[k]);
        assert forall|i: int| 0 <= i < ww.len() && loc_file((#[trigger] ww[i]).0, dir) == loc_file(ww[n + k].0, dir) implies ww[i].0[0] is JsonFile by {
            assert(ww[i] == ww[i] && w1[k] == w1[k]);
        }
        lemma_chain_json_ok(ww, dir, fs, n + k);
        assert forall|i: int| n + s <= i < n + k && loc_file((#[trigger] ww[i]).0, dir) == f implies keys_apart(json_keys(ww[i].0), json_keys(ww[n + k].0)) by {
            assert(ww[i] == w2[i - n]);
            assert(w2[i - n] == w2[i - n] && w2[k] == w2[k]);
        }
        lemma_json_chain_stable(ww, f, dir, c, json_parse(c).unwrap(), n + s, n + k);
        assert(ww.take(n + s) =~= w1 + w2.take(s));
        assert(ww.take(n + k) =~= w1 + w2.take(k));
        lemma_fold_concat(w1, w2.take(s), f, dir, c);
        lemma_fold_concat(w1, w2.take(k), f, dir, c);
    }
}

/// A restore after a run through the same locators (as `lemma_twice_model`): after the run,
/// every write of the restore can be made along the way, and each locator finds the same
/// targets throughout.
proof fn lemma_twice_after(
    w1: Seq<(Seq<FilterView>, Seq<char>)>,
    w2: Seq<(Seq<FilterView>, Seq<char>)>,
    dir: Seq<char>,
    fs: FilesView,
    s1: FilesView,
)
    requires
        targets_distinct(w1, dir),
        w1.len() == w2.len(),
        forall|i: int| 0 <= i < w1.len() ==> (#[trigger] w1[i]).0 == w2[i].0,
        writes_along(w1 + w2, dir, fs),
        writes_along(w2, dir, fs),
        reads_fold(s1, w1, dir, fs),
    ensures
        fold_ready(w2, dir, s1),
        fold_stable(w2, dir, s1),
{
    assert forall|k: int| 0 <= k < w2.len() implies {
        &&& (#[trigger] w2[k]).0.len() > 0
        &&& ws_read(s1, loc_file(w2[k].0, dir)) is Some
        &&& loc_ready(w2[k].0, w2[k].1, file_fold(w2.take(k), loc_file(w2[k].0, dir), dir, ws_read(s1, loc_file(w2[k].0, dir)).unwrap()))
    } by {
        lemma_twice_ready_at(w1, w2, dir, fs, s1, k);
    }
    assert forall|s: int, k: int|
        #![trigger w2.take(s), w2[k]]
        0 <= s <= k < w2.len() implies {
        let f = loc_file(w2[k].0, dir);
        let c = ws_read(s1, f).unwrap();
        located(w2[k].0, dir, file_fold(w2.take(s), f, dir, c)) == located(w2[k].0, dir, file_fold(w2.take(k), f, dir, c))
    } by {
        lemma_twice_stable_at(w1, w2, dir, fs, s1, s, k);
    }
}

/// A restore after a run through the same locators (as `lemma_twice_model`): after the run,
/// every write of the restore can be made along the way, each locator finds the same targets
/// throughout, and every file ends as the restore alone leaves it.
pub proof fn lemma_twice_then(
    w1: Seq<(Seq<FilterView>, Seq<char>)>,
    w2: Seq<(Seq<FilterView>, Seq<char>)>,
    dir: Seq<char>,
    fs: FilesView,
    s1: FilesView,
)
    requires
        targets_distinct(w1, dir),
        w1.len() == w2.len(),
        forall|i: int| 0 <= i < w1.len() ==> (#[trigger] w1[i]).0 == w2[i].0,
        writes_along(w1 + w2, dir, fs),
        writes_along(w2, dir, fs),
        reads_fold(s1, w1, dir, fs),
    ensures
        fold_ready(w2, dir, s1),
        fold_stable(w2, dir, s1),
        forall|g: Seq<char>|
            #[trigger] ws_read(fs, g) is Some ==> file_fold(w2, g, dir, file_fold(w1, g, dir, ws_read(fs, g).unwrap()))
                == file_fold(w2, g, dir, ws_read(fs, g).unwrap()),
{
    lemma_twice_after(w1, w2, dir, fs, s1);
    assert forall|g: Seq<char>|
        #[trigger] ws_read(fs, g) is Some implies file_fold(w2, g, dir, file_fold(w1, g, dir, ws_read(fs, g).unwrap()))
        == file_fold(w2, g, dir, ws_read(fs, g).unwrap()) by {
        lemma_twice_file(w1, w2, dir, fs, g);
    }
}


/// No two writes to one file get in each other's way: the writes to a file are all dotenv
/// writes, each two of one variable or of variables without `=`, or all JSON writes, each two
/// naming one path or paths apart.
pub open spec fn targets_compatible(w: Seq<(Seq<FilterView>, Seq<char>)>, dir: Seq<char>) -> bool {
    &&& forall|i: int| 0 <= i < w.len() ==> (#[trigger] w[i]).0.len() > 0
    &&& forall|i: int, j: int|
        #![trigger w[i], w[j]]
        0 <= i < w.len() && 0 <= j < w.len() && loc_file(w[i].0, dir) == loc_file(w[j].0, dir) ==> {
            ||| {
                &&& w[i].0[0] is EnvFile
                &&& w[j].0[0] is EnvFile
                &&& vars_apart(env_var(w[i].0), env_var(w[j].0))
            }
            ||| {
                &&& w[i].0[0] is JsonFile
                &&& w[j].0[0] is JsonFile
                &&& (json_keys(w[i].0) == json_keys(w[j].0) || keys_apart(json_keys(w[i].0), json_keys(w[j].0)))
            }
        }
}

/// What the writes to a dotenv file `f` need, over the assignments of `m0`: each is a dotenv
/// write of a line-safe value, and all their variables (those of `m0` too) are apart.
pub open spec fn env_writes_compat(
    w: Seq<(Seq<FilterView>, Seq<char>)>,
    f: Seq<char>,
    dir: Seq<char>,
    m0: Map<Seq<char>, Seq<char>>,
) -> bool {
    &&& map_apart(m0)
    &&& map_line_safe(m0)
    &&& forall|i: int|
        0 <= i < w.len() && loc_file((#[trigger] w[i]).0, dir) == f ==> {
            &&& w[i].0.len() > 0
            &&& w[i].0[0] is EnvFile
            &&& line_safe(w[i].1)
            &&& forall|y: Seq<char>| #[trigger] m0.dom().contains(y) ==> vars_apart(env_var(w[i].0), y)
        }
    &&& forall|i: int, j: int|
        #![trigger w[i], w[j]]
        0 <= i < w.len() && 0 <= j < w.len() && loc_file(w[i].0, dir) == f && loc_file(w[j].0, dir) == f
            ==> vars_apart(env_var(w[i].0), env_var(w[j].0))
}

/// The writes among the first `k` to a dotenv file, some perhaps of one variable, leave it with
/// their variables set to the value each was last written, over those of `m0`.
proof fn lemma_env_fold_compat(
    w: Seq<(Seq<FilterView>, Seq<char>)>,
    f: Seq<char>,
    dir: Seq<char>,
    c: Seq<char>,
    m0: Map<Seq<char>, Seq<char>>,
    k: int,
)
    requires
        0 <= k <= w.len(),
        env_writes_compat(w, f, dir, m0),
    ensures
        file_fold(w.take(k), f, dir, env_state(c, m0)) == env_state(c, m0.union_prefer_right(env_map(w.take(k), f, dir))),
        forall|y: Seq<char>|
            #[trigger] env_map(w.take(k), f, dir).dom().contains(y) ==> exists|i: int|
                0 <= i < k && loc_file((#[trigger] w[i]).0, dir) == f && env_var(w[i].0) == y,
        map_line_safe(m0.union_prefer_right(env_map(w.take(k), f, dir))),
    decreases k,
{
    let e0 = Map::<Seq<char>, Seq<char>>::empty();
    if k == 0 {
        assert(w.take(0) =~= Seq::<(Seq<FilterView>, Seq<char>)>::empty());
        assert(env_map(w.take(0), f, dir) == e0);
        assert(m0.union_prefer_right(e0) =~= m0);
    } else {
        let j = k - 1;
        lemma_env_fold_compat(w, f, dir, c, m0, j);
        let wk = w.take(k);
        assert(wk.drop_last() =~= w.take(j));
        assert(wk.last() == w[j]);
        let ej = env_map(w.take(j), f, dir);
        let mj = m0.union_prefer_right(ej);
        if loc_file(w[j].0, dir) == f {
            let l = w[j].0;
            let x = env_var(l);
            let v = w[j].1;
            assert(map_apart(mj.insert(x, v))) by {
                let mm = mj.insert(x, v);
                assert forall|y: Seq<char>, z: Seq<char>|
                    #![trigger mm.dom().contains(y), mm.dom().contains(z)]
                    mm.dom().contains(y) && mm.dom().contains(z) implies vars_apart(y, z) by {
                    let iy = if y == x || m0.dom().contains(y) {
                        j
                    } else {
                        choose|i: int| 0 <= i < j && loc_file((#[trigger] w[i]).0, dir) == f && env_var(w[i].0) == y
                    };
                    let iz = if z == x || m0.dom().contains(z) {
                        j
                    } else {
                        choose|i: int| 0 <= i < j && loc_file((#[trigger] w[i]).0, dir) == f && env_var(w[i].0) == z
                    };
                    if y == z {
                    } else if m0.dom().contains(y) && m0.dom().contains(z) {
                        assert(m0.dom().contains(y) && m0.dom().contains(z));
                    } else if m0.dom().contains(y) {
                        let i = if z == x { j } else { iz };
                        assert(env_var(w[i].0) == z);
                        assert(m0.dom().contains(y));
                    } else if m0.dom().contains(z) {
                        let i = if y == x { j } else { iy };
                        assert(env_var(w[i].0) == y);
                        assert(m0.dom().contains(z));
                    } else {
                        let i1 = if y == x { j } else { iy };
                        let i2 = if z == x { j } else { iz };
                        assert(env_var(w[i1].0) == y);
                        assert(env_var(w[i2].0) == z);
                        assert(w[i1] == w[i1] && w[i2] == w[i2]);
                    }
                }
            }
            lemma_env_state_write(l, c, mj, v);
            assert(mj.insert(x, v) =~= m0.union_prefer_right(env_map(wk, f, dir)));
            assert forall|y: Seq<char>| #[trigger] env_map(wk, f, dir).dom().contains(y) implies exists|i: int|
                0 <= i < k && loc_file((#[trigger] w[i]).0, dir) == f && env_var(w[i].0) == y by {
                if y == x {
                    assert(0 <= j < k && loc_file(w[j].0, dir) == f && env_var(w[j].0) == y);
                } else {
                    assert(ej.dom().contains(y));
                    let i = choose|i: int| 0 <= i < j && loc_file((#[trigger] w[i]).0, dir) == f && env_var(w[i].0) == y;
                    assert(0 <= i < k && loc_file(w[i].0, dir) == f && env_var(w[i].0) == y);
                }
            }
            assert(map_line_safe(m0.union_prefer_right(env_map(wk, f, dir))));
        } else {
            assert(env_map(wk, f, dir) == ej);
        }
    }
}

/// Setting the assignments of variables apart from `x` moves none of the assignments of `x`:
/// the targets found write the same lines.
proof fn lemma_env_state_writes(abs: Seq<char>, c: Seq<char>, m: Map<Seq<char>, Seq<char>>, x: Seq<char>)
    requires
        forall|y: Seq<char>| #[trigger] m.dom().contains(y) ==> vars_apart(x, y),
        map_line_safe(m),
    ensures
        target_writes(Ok(env_applicators(abs, env_state(c, m), x))) == target_writes(
            Ok::<Seq<ApplicatorView>, ErrorView>(env_applicators(abs, c, x)),
        ),
{
    let c1 = env_state(c, m);
    let px = env_prefix(x);
    lemma_env_state_lines(c, m);
    assert forall|i: int| 0 <= i < lines(c).len() implies starts_with(#[trigger] lines(c)[i], px) == starts_with(
        lines(c1)[i],
        px,
    ) by {
        let p = pieces(c)[i];
        assert(lines(c)[i] == line_body(p));
        if assigned_in(p, m) {
            let y = assigned_var(p, m);
            assert(m.dom().contains(y) && env_matched(p, env_prefix(y)));
            assert((env_prefix(y) + m[y]).take(env_prefix(y).len() as int) =~= env_prefix(y));
            assert(starts_with(lines(c1)[i], env_prefix(y)));
            if starts_with(lines(c)[i], px) {
                lemma_one_assignment(lines(c)[i], x, y);
            }
            if starts_with(lines(c1)[i], px) {
                lemma_one_assignment(lines(c1)[i], x, y);
            }
        }
    }
    let n = lines(c).len() as int;
    lemma_assignment_numbers(c, c1, x, n);
    assert(numbered_lines(c).take(n) =~= numbered_lines(c));
    assert(numbered_lines(c1).take(n) =~= numbered_lines(c1));
    let a0 = env_applicators(abs, c, x);
    let a1 = env_applicators(abs, c1, x);
    let an = assignment_numbers(c, x, n);
    let an1 = assignment_numbers(c1, x, n);
    assert(a0.len() == an.len());
    assert(a1.len() == an1.len());
    let pw = |a: ApplicatorView| (a.path, a.writer);
    assert forall|j: int| 0 <= j < a0.len() implies #[trigger] a0.map_values(pw)[j] == a1.map_values(pw)[j] by {
        assert(an[j] == an1[j]);
    }
    assert(a0.map_values(pw) =~= a1.map_values(pw));
}


/// The paths that the JSON writes to `f` among the first `n` name exist in the original
/// document, when each write can be made along the way and each two name one path or paths
/// apart.
proof fn lemma_json_paths_compat(
    u: Seq<(Seq<FilterView>, Seq<char>)>,
    f: Seq<char>,
    dir: Seq<char>,
    c: Seq<char>,
    d0: JsonView,
    n: int,
)
    requires
        json_parse(c) == Some(d0),
        0 <= n <= u.len(),
        forall|i: int| 0 <= i < u.len() && loc_file((#[trigger] u[i]).0, dir) == f ==> u[i].0[0] is JsonFile,
        forall|i: int|
            0 <= i < u.len() && loc_file((#[trigger] u[i]).0, dir) == f ==> {
                let ci = file_fold(u.take(i), f, dir, c);
                &&& loc_ready(u[i].0, u[i].1, ci)
                &&& (exists|j: int| i < j < u.len() && loc_file((#[trigger] u[j]).0, dir) == f) ==> loc_settles(
                    u[i].0,
                    u[i].1,
                    ci,
                )
            },
        forall|i: int, i2: int|
            #![trigger u[i], u[i2]]
            0 <= i < u.len() && 0 <= i2 < u.len() && loc_file(u[i].0, dir) == f && loc_file(u[i2].0, dir) == f
                ==> json_keys(u[i].0) == json_keys(u[i2].0) || keys_apart(json_keys(u[i].0), json_keys(u[i2].0)),
    ensures
        json_paths_ok(u.take(n), f, dir, d0),
    decreases n,
{
    let v = u.take(n);
    if n == 0 {
        assert(v =~= Seq::<(Seq<FilterView>, Seq<char>)>::empty());
    } else {
        let k = n - 1;
        lemma_json_paths_compat(u, f, dir, c, d0, k);
        let vk = u.take(k);
        if loc_file(u[k].0, dir) == f {
            lemma_json_chain(u, f, dir, c, d0, k);
            assert(k <= k < u.len() && loc_file(u[k].0, dir) == f);
            let keys = json_keys(u[k].0);
            if exists|i: int| 0 <= i < k && loc_file((#[trigger] u[i]).0, dir) == f && json_keys(u[i].0) == keys {
                let i = choose|i: int| 0 <= i < k && loc_file((#[trigger] u[i]).0, dir) == f && json_keys(u[i].0) == keys;
                assert(vk[i] == u[i]);
            } else {
                assert forall|i: int| 0 <= i < vk.len() && loc_file((#[trigger] vk[i]).0, dir) == f implies keys_apart(
                    json_keys(vk[i].0),
                    keys,
                ) by {
                    assert(vk[i] == u[i]);
                    assert(u[i] == u[i] && u[k] == u[k]);
                }
                lemma_doc_fold_lookup(vk, f, dir, d0, keys);
            }
        }
        assert forall|i: int| 0 <= i < v.len() && loc_file((#[trigger] v[i]).0, dir) == f implies json_keys(v[i].0).len() > 0
            && json_lookup(d0, json_keys(v[i].0)) is Ok by {
            assert(v[i] == u[i]);
            if i < k {
                assert(vk[i] == u[i]);
            }
        }
        assert forall|i: int, j: int|
            #![trigger v[i], v[j]]
            0 <= i < v.len() && 0 <= j < v.len() && loc_file(v[i].0, dir) == f && loc_file(v[j].0, dir) == f implies json_keys(
            v[i].0,
        ) == json_keys(v[j].0) || keys_apart(json_keys(v[i].0), json_keys(v[j].0)) by {
            assert(v[i] == u[i] && v[j] == u[j]);
            assert(u[i] == u[i] && u[j] == u[j]);
        }
    }
}

/// A JSON write's path exists after the first `t` writes of a sequence whose writes to its
/// file name one path or paths apart, over a document where they all exist.
proof fn lemma_json_lookup_at(u: Seq<(Seq<FilterView>, Seq<char>)>, f: Seq<char>, dir: Seq<char>, d0: JsonView, t: int, k: int)
    requires
        json_paths_ok(u, f, dir, d0),
        json_paths_ok(u.take(t), f, dir, d0),
        0 <= t <= u.len(),
        0 <= k < u.len(),
        loc_file(u[k].0, dir) == f,
    ensures
        json_lookup(json_doc_fold(u.take(t), f, dir, d0), json_keys(u[k].0)) is Ok,
{
    let vt = u.take(t);
    let keys = json_keys(u[k].0);
    lemma_doc_fold_lookup(vt, f, dir, d0, keys);
    if exists|i: int| 0 <= i < t && loc_file((#[trigger] u[i]).0, dir) == f && json_keys(u[i].0) == keys {
        let i = choose|i: int| 0 <= i < t && loc_file((#[trigger] u[i]).0, dir) == f && json_keys(u[i].0) == keys;
        assert(vt[i] == u[i]);
    } else {
        assert forall|i: int| 0 <= i < vt.len() && loc_file((#[trigger] vt[i]).0, dir) == f implies keys_apart(
            json_keys(vt[i].0),
            keys,
        ) by {
            assert(vt[i] == u[i]);
            assert(u[i] == u[i] && u[k] == u[k]);
        }
    }
}

/// Under `targets_compatible`, with each write able to be made along the way: a JSON write's
/// file parses after the first `t` writes (up to it), and its path exists there.
#[verifier::spinoff_prover]
#[verifier::rlimit(60)]
proof fn lemma_json_found_at(u: Seq<(Seq<FilterView>, Seq<char>)>, dir: Seq<char>, fs: FilesView, t: int, k: int)
    requires
        targets_compatible(u, dir),
        writes_along(u, dir, fs),
        0 <= t <= k < u.len(),
        u[k].0[0] is JsonFile,
    ensures
        ({
            let f = loc_file(u[k].0, dir);
            let ct = file_fold(u.take(t), f, dir, ws_read(fs, f).unwrap());
            &&& json_parse(ct) is Some
            &&& json_keys(u[k].0).len() > 0
            &&& json_lookup(json_parse(ct).unwrap(), json_keys(u[k].0)) is Ok
        }),
{
    let f = loc_file(u[k].0, dir);
    assert forall|i: int| 0 <= i < u.len() && loc_file((#[trigger] u[i]).0, dir) == loc_file(u[k].0, dir) implies u[i].0[0] is JsonFile by {
        assert(u[i] == u[i] && u[k] == u[k]);
    }
    lemma_chain_json_ok(u, dir, fs, k);
    let c = ws_read(fs, f).unwrap();
    let d0 = json_parse(c).unwrap();
    assert forall|i: int, i2: int|
        #![trigger u[i], u[i2]]
        0 <= i < u.len() && 0 <= i2 < u.len() && loc_file(u[i].0, dir) == f && loc_file(u[i2].0, dir) == f implies json_keys(
        u[i].0,
    ) == json_keys(u[i2].0) || keys_apart(json_keys(u[i].0), json_keys(u[i2].0)) by {
        assert(u[i] == u[i] && u[i2] == u[i2]);
        assert(u[i] == u[i] && u[k] == u[k]);
    }
    lemma_json_paths_compat(u, f, dir, c, d0, u.len() as int);
    assert(u.take(u.len() as int) =~= u);
    lemma_json_paths_compat(u, f, dir, c, d0, t);
    lemma_json_chain(u, f, dir, c, d0, t);
    assert(t <= k < u.len() && loc_file(u[k].0, dir) == f);
    lemma_json_lookup_at(u, f, dir, d0, t, k);
}

/// Under `targets_compatible`, with each write able to be made along the way: what a JSON
/// write finds to write does not change while the writes before it are made.
proof fn lemma_json_stable_compat(u: Seq<(Seq<FilterView>, Seq<char>)>, dir: Seq<char>, fs: FilesView, s: int, k: int)
    requires
        targets_compatible(u, dir),
        writes_along(u, dir, fs),
        0 <= s <= k < u.len(),
        u[k].0[0] is JsonFile,
    ensures
        ({
            let f = loc_file(u[k].0, dir);
            let c = ws_read(fs, f).unwrap();
            target_writes(located(u[k].0, dir, file_fold(u.take(s), f, dir, c))) == target_writes(
                located(u[k].0, dir, file_fold(u.take(k), f, dir, c)),
            )
        }),
{
    let f = loc_file(u[k].0, dir);
    let c = ws_read(fs, f).unwrap();
    lemma_json_found_at(u, dir, fs, s, k);
    lemma_json_found_at(u, dir, fs, k, k);
    let pw = |a: ApplicatorView| (a.path, a.writer);
    let cs = file_fold(u.take(s), f, dir, c);
    let ck = file_fold(u.take(k), f, dir, c);
    let sel = u[k].0[0]->JsonFile_selector;
    let rs = json_applicators(f, cs, sel)->Ok_0;
    let rk = json_applicators(f, ck, sel)->Ok_0;
    assert(rs.map_values(pw) =~= rk.map_values(pw));
}

/// Under `targets_compatible`, with each write able to be made along the way: what a dotenv
/// write finds to write does not change while the writes before it are made.
#[verifier::spinoff_prover]
proof fn lemma_env_stable_compat(u: Seq<(Seq<FilterView>, Seq<char>)>, dir: Seq<char>, fs: FilesView, s: int, k: int)
    requires
        targets_compatible(u, dir),
        writes_along(u, dir, fs),
        0 <= s <= k < u.len(),
        u[k].0[0] is EnvFile,
    ensures
        ({
            let f = loc_file(u[k].0, dir);
            let c = ws_read(fs, f).unwrap();
            target_writes(located(u[k].0, dir, file_fold(u.take(s), f, dir, c))) == target_writes(
                located(u[k].0, dir, file_fold(u.take(k), f, dir, c)),
            )
        }),
{
    let f = loc_file(u[k].0, dir);
    let c = ws_read(fs, f).unwrap();
    let x = env_var(u[k].0);
    let e0 = Map::<Seq<char>, Seq<char>>::empty();
    assert(env_writes_compat(u, f, dir, e0)) by {
        assert forall|i: int| 0 <= i < u.len() && loc_file((#[trigger] u[i]).0, dir) == f implies {
            &&& u[i].0.len() > 0
            &&& u[i].0[0] is EnvFile
            &&& line_safe(u[i].1)
            &&& forall|y: Seq<char>| #[trigger] e0.dom().contains(y) ==> vars_apart(env_var(u[i].0), y)
        } by {
            assert(u[i] == u[i] && u[k] == u[k]);
        }
        assert forall|i: int, j: int|
            #![trigger u[i], u[j]]
            0 <= i < u.len() && 0 <= j < u.len() && loc_file(u[i].0, dir) == f && loc_file(u[j].0, dir) == f implies vars_apart(
            env_var(u[i].0),
            env_var(u[j].0),
        ) by {
            assert(u[i] == u[i] && u[k] == u[k]);
            assert(u[i] == u[i] && u[j] == u[j]);
        }
    }
    lemma_env_state_empty(c);
    lemma_env_fold_compat(u, f, dir, c, e0, s);
    lemma_env_fold_compat(u, f, dir, c, e0, k);
    let ms = e0.union_prefer_right(env_map(u.take(s), f, dir));
    let mk = e0.union_prefer_right(env_map(u.take(k), f, dir));
    assert forall|y: Seq<char>| #[trigger] ms.dom().contains(y) implies vars_apart(x, y) by {
        assert(env_map(u.take(s), f, dir).dom().contains(y));
        let i = choose|i: int| 0 <= i < s && loc_file((#[trigger] u[i]).0, dir) == f && env_var(u[i].0) == y;
        assert(u[i] == u[i] && u[k] == u[k]);
    }
    assert forall|y: Seq<char>| #[trigger] mk.dom().contains(y) implies vars_apart(x, y) by {
        assert(env_map(u.take(k), f, dir).dom().contains(y));
        let i = choose|i: int| 0 <= i < k && loc_file((#[trigger] u[i]).0, dir) == f && env_var(u[i].0) == y;
        assert(u[i] == u[i] && u[k] == u[k]);
    }
    lemma_env_state_writes(f, c, ms, x);
    lemma_env_state_writes(f, c, mk, x);
}

/// Under `targets_compatible`, with each write able to be made along the way: every write can
/// be made, and each locator finds the same things to write throughout.
pub proof fn lemma_compat_fold(u: Seq<(Seq<FilterView>, Seq<char>)>, dir: Seq<char>, fs: FilesView)
    requires
        targets_compatible(u, dir),
        writes_along(u, dir, fs),
    ensures
        fold_ready(u, dir, fs),
        fold_stable(u, dir, fs),
{
    assert forall|k: int| 0 <= k < u.len() implies {
        &&& (#[trigger] u[k]).0.len() > 0
        &&& ws_read(fs, loc_file(u[k].0, dir)) is Some
        &&& loc_ready(u[k].0, u[k].1, file_fold(u.take(k), loc_file(u[k].0, dir), dir, ws_read(fs, loc_file(u[k].0, dir)).unwrap()))
    } by {
        let f = loc_file(u[k].0, dir);
        lemma_writable_ready(u[k].0, u[k].1, file_fold(u.take(k), f, dir, ws_read(fs, f).unwrap()));
    }
    assert forall|s: int, k: int|
        #![trigger u.take(s), u[k]]
        0 <= s <= k < u.len() implies {
        let f = loc_file(u[k].0, dir);
        let c = ws_read(fs, f).unwrap();
        target_writes(located(u[k].0, dir, file_fold(u.take(s), f, dir, c))) == target_writes(
            located(u[k].0, dir, file_fold(u.take(k), f, dir, c)),
        )
    } by {
        if u[k].0[0] is EnvFile {
            lemma_env_stable_compat(u, dir, fs, s, k);
        } else {
            lemma_json_stable_compat(u, dir, fs, s, k);
        }
    }
}


/// Two sequences of writes through the same locators, in the same order (their values may differ).
pub open spec fn same_targets(w1: Seq<(Seq<FilterView>, Seq<char>)>, w2: Seq<(Seq<FilterView>, Seq<char>)>) -> bool {
    &&& w1.len() == w2.len()
    &&& forall|i: int| 0 <= i < w1.len() ==> (#[trigger] w1[i]).0 == w2[i].0
}

/// Writes that do not get in each other's way do not either when followed by writes through
/// the same locators.
pub proof fn lemma_compat_pair(w1: Seq<(Seq<FilterView>, Seq<char>)>, w2: Seq<(Seq<FilterView>, Seq<char>)>, dir: Seq<char>)
    requires
        targets_compatible(w1, dir),
        same_targets(w1, w2),
    ensures
        targets_compatible(w1 + w2, dir),
        targets_compatible(w2, dir),
        forall|i: int| 0 <= i < w1.len() ==> (#[trigger] (w1 + w2)[i]) == w1[i],
        forall|i: int| 0 <= i < w2.len() ==> (#[trigger] (w1 + w2)[w1.len() + i]) == w2[i],
{
    let u = w1 + w2;
    let n = w1.len() as int;
    assert forall|i: int| 0 <= i < u.len() implies (#[trigger] u[i]).0.len() > 0 by {
        if i < n {
            assert(u[i] == w1[i]);
        } else {
            assert(u[i] == w2[i - n]);
            assert(w1[i - n].0 == w2[i - n].0);
        }
    }
    assert forall|i: int, j: int|
        #![trigger u[i], u[j]]
        0 <= i < u.len() && 0 <= j < u.len() && loc_file(u[i].0, dir) == loc_file(u[j].0, dir) implies {
        ||| {
            &&& u[i].0[0] is EnvFile
            &&& u[j].0[0] is EnvFile
            &&& vars_apart(env_var(u[i].0), env_var(u[j].0))
        }
        ||| {
            &&& u[i].0[0] is JsonFile
            &&& u[j].0[0] is JsonFile
            &&& (json_keys(u[i].0) == json_keys(u[j].0) || keys_apart(json_keys(u[i].0), json_keys(u[j].0)))
        }
    } by {
        let i1 = if i < n { i } else { i - n };
        let j1 = if j < n { j } else { j - n };
        assert(u[i].0 == w1[i1].0) by {
            if i >= n {
                assert(u[i] == w2[i1]);
                assert(w1[i1].0 == w2[i1].0);
            }
        }
        assert(u[j].0 == w1[j1].0) by {
            if j >= n {
                assert(u[j] == w2[j1]);
                assert(w1[j1].0 == w2[j1].0);
            }
        }
        assert(w1[i1] == w1[i1] && w1[j1] == w1[j1]);
    }
    assert forall|i: int| 0 <= i < w2.len() implies (#[trigger] w2[i]).0.len() > 0 by {
        assert(w1[i].0 == w2[i].0);
        assert(w1[i] == w1[i]);
    }
    assert forall|i: int, j: int|
        #![trigger w2[i], w2[j]]
        0 <= i < w2.len() && 0 <= j < w2.len() && loc_file(w2[i].0, dir) == loc_file(w2[j].0, dir) implies {
        ||| {
            &&& w2[i].0[0] is EnvFile
            &&& w2[j].0[0] is EnvFile
            &&& vars_apart(env_var(w2[i].0), env_var(w2[j].0))
        }
        ||| {
            &&& w2[i].0[0] is JsonFile
            &&& w2[j].0[0] is JsonFile
            &&& (json_keys(w2[i].0) == json_keys(w2[j].0) || keys_apart(json_keys(w2[i].0), json_keys(w2[j].0)))
        }
    } by {
        assert(w1[i].0 == w2[i].0 && w1[j].0 == w2[j].0);
        assert(w1[i] == w1[i] && w1[j] == w1[j]);
    }
}

/// Each write able to be made along the way stays so for a first part of the writes.
proof fn lemma_writes_along_prefix(u: Seq<(Seq<FilterView>, Seq<char>)>, n: int, dir: Seq<char>, fs: FilesView)
    requires
        writes_along(u, dir, fs),
        0 <= n <= u.len(),
    ensures
        writes_along(u.take(n), dir, fs),
{
    let w = u.take(n);
    assert forall|k: int| 0 <= k < w.len() implies {
        let f = loc_file((#[trigger] w[k]).0, dir);
        let ck = file_fold(w.take(k), f, dir, ws_read(fs, f).unwrap());
        &&& ws_read(fs, f) is Some
        &&& loc_writable(w[k].0, w[k].1, ck)
        &&& (exists|j: int| k < j < w.len() && loc_file((#[trigger] w[j]).0, dir) == f) ==> loc_settles(
            w[k].0,
            w[k].1,
            ck,
        )
    } by {
        assert(w[k] == u[k]);
        assert(w.take(k) =~= u.take(k));
        let f = loc_file(w[k].0, dir);
        if exists|j: int| k < j < w.len() && loc_file((#[trigger] w[j]).0, dir) == f {
            let j = choose|j: int| k < j < w.len() && loc_file((#[trigger] w[j]).0, dir) == f;
            assert(w[j] == u[j]);
            assert(k < j < u.len() && loc_file(u[j].0, dir) == f);
        }
    }
}

/// Writes under `targets_compatible`, followed by writes through the same locators, each able
/// to be made along the way: the first writes can all be made, and each of their locators
/// finds the same things to write throughout.
pub proof fn lemma_pair_first(
    w1: Seq<(Seq<FilterView>, Seq<char>)>,
    w2: Seq<(Seq<FilterView>, Seq<char>)>,
    dir: Seq<char>,
    fs: FilesView,
)
    requires
        targets_compatible(w1, dir),
        same_targets(w1, w2),
        writes_along(w1 + w2, dir, fs),
    ensures
        fold_ready(w1, dir, fs),
        fold_stable(w1, dir, fs),
{
    let u = w1 + w2;
    lemma_compat_pair(w1, w2, dir);
    lemma_compat_fold(u, dir, fs);
    assert forall|k: int| 0 <= k < w1.len() implies {
        &&& (#[trigger] w1[k]).0.len() > 0
        &&& ws_read(fs, loc_file(w1[k].0, dir)) is Some
        &&& loc_ready(w1[k].0, w1[k].1, file_fold(w1.take(k), loc_file(w1[k].0, dir), dir, ws_read(fs, loc_file(w1[k].0, dir)).unwrap()))
    } by {
        assert(u[k] == w1[k]);
        assert(u.take(k) =~= w1.take(k));
    }
    assert forall|s: int, k: int|
        #![trigger w1.take(s), w1[k]]
        0 <= s <= k < w1.len() implies {
        let f = loc_file(w1[k].0, dir);
        let c = ws_read(fs, f).unwrap();
        target_writes(located(w1[k].0, dir, file_fold(w1.take(s), f, dir, c))) == target_writes(
            located(w1[k].0, dir, file_fold(w1.take(k), f, dir, c)),
        )
    } by {
        assert(u[k] == w1[k]);
        assert(u.take(k) =~= w1.take(k));
        assert(u.take(s) =~= w1.take(s));
        assert(u.take(s) == u.take(s) && u[k] == u[k]);
    }
}

/// One of the second writes of a pair (as `lemma_pair_first`): over what the first writes
/// left and the second writes before it, it can be made.
#[verifier::spinoff_prover]
proof fn lemma_pair_ready_at(
    w1: Seq<(Seq<FilterView>, Seq<char>)>,
    w2: Seq<(Seq<FilterView>, Seq<char>)>,
    dir: Seq<char>,
    fs: FilesView,
    s1: FilesView,
    k: int,
)
    requires
        targets_compatible(w1, dir),
        same_targets(w1, w2),
        writes_along(w1 + w2, dir, fs),
        reads_fold(s1, w1, dir, fs),
        0 <= k < w2.len(),
    ensures
        w2[k].0.len() > 0,
        ws_read(s1, loc_file(w2[k].0, dir)) is Some,
        loc_ready(w2[k].0, w2[k].1, file_fold(w2.take(k), loc_file(w2[k].0, dir), dir, ws_read(s1, loc_file(w2[k].0, dir)).unwrap())),
{
    let u = w1 + w2;
    let n = w1.len() as int;
    lemma_compat_pair(w1, w2, dir);
    let f = loc_file(w2[k].0, dir);
    assert(u[n + k] == w2[k]);
    let c = ws_read(fs, f).unwrap();
    assert(u.take(n + k) =~= w1 + w2.take(k));
    lemma_fold_concat(w1, w2.take(k), f, dir, c);
    assert(ws_read(s1, f) == Some(file_fold(w1, f, dir, c)));
    lemma_writable_ready(w2[k].0, w2[k].1, file_fold(u.take(n + k), f, dir, c));
}

/// One locator of the second writes of a pair (as `lemma_pair_first`): over what the first
/// writes left, it finds the same things to write after the second writes' `s`-th as after
/// their `k`-th.
#[verifier::spinoff_prover]
proof fn lemma_pair_stable_at(
    w1: Seq<(Seq<FilterView>, Seq<char>)>,
    w2: Seq<(Seq<FilterView>, Seq<char>)>,
    dir: Seq<char>,
    fs: FilesView,
    s1: FilesView,
    s: int,
    k: int,
)
    requires
        targets_compatible(w1, dir),
        same_targets(w1, w2),
        writes_along(w1 + w2, dir, fs),
        reads_fold(s1, w1, dir, fs),
        0 <= s <= k < w2.len(),
    ensures
        ({
            let f = loc_file(w2[k].0, dir);
            let c = ws_read(s1, f).unwrap();
            target_writes(located(w2[k].0, dir, file_fold(w2.take(s), f, dir, c))) == target_writes(
                located(w2[k].0, dir, file_fold(w2.take(k), f, dir, c)),
            )
        }),
{
    let u = w1 + w2;
    let n = w1.len() as int;
    lemma_compat_pair(w1, w2, dir);
    let f = loc_file(w2[k].0, dir);
    let c = ws_read(fs, f).unwrap();
    assert(u[n + k] == w2[k]);
    assert(ws_read(fs, f) is Some);
    assert(u.take(n + k) =~= w1 + w2.take(k));
    assert(u.take(n + s) =~= w1 + w2.take(s));
    lemma_fold_concat(w1, w2.take(k), f, dir, c);
    lemma_fold_concat(w1, w2.take(s), f, dir, c);
    assert(ws_read(s1, f) == Some(file_fold(w1, f, dir, c)));
    if w2[k].0[0] is EnvFile {
        lemma_env_stable_compat(u, dir, fs, n + s, n + k);
    } else {
        lemma_json_stable_compat(u, dir, fs, n + s, n + k);
    }
}

/// The second writes of a pair (as `lemma_pair_first`), over what the first left: every one
/// can be made, and each locator finds the same things to write throughout.
pub proof fn lemma_pair_second(
    w1: Seq<(Seq<FilterView>, Seq<char>)>,
    w2: Seq<(Seq<FilterView>, Seq<char>)>,
    dir: Seq<char>,
    fs: FilesView,
    s1: FilesView,
)
    requires
        targets_compatible(w1, dir),
        same_targets(w1, w2),
        writes_along(w1 + w2, dir, fs),
        reads_fold(s1, w1, dir, fs),
    ensures
        fold_ready(w2, dir, s1),
        fold_stable(w2, dir, s1),
{
    assert forall|k: int| 0 <= k < w2.len() implies {
        &&& (#[trigger] w2[k]).0.len() > 0
        &&& ws_read(s1, loc_file(w2[k].0, dir)) is Some
        &&& loc_ready(w2[k].0, w2[k].1, file_fold(w2.take(k), loc_file(w2[k].0, dir), dir, ws_read(s1, loc_file(w2[k].0, dir)).unwrap()))
    } by {
        lemma_pair_ready_at(w1, w2, dir, fs, s1, k);
    }
    assert forall|s: int, k: int|
        #![trigger w2.take(s), w2[k]]
        0 <= s <= k < w2.len() implies {
        let f = loc_file(w2[k].0, dir);
        let c = ws_read(s1, f).unwrap();
        target_writes(located(w2[k].0, dir, file_fold(w2.take(s), f, dir, c))) == target_writes(
            located(w2[k].0, dir, file_fold(w2.take(k), f, dir, c)),
        )
    } by {
        lemma_pair_stable_at(w1, w2, dir, fs, s1, s, k);
    }
}

/// Writes through the same locators set the same dotenv variables of a file.
proof fn lemma_env_map_dom(w1: Seq<(Seq<FilterView>, Seq<char>)>, w2: Seq<(Seq<FilterView>, Seq<char>)>, f: Seq<char>, dir: Seq<char>)
    requires
        same_targets(w1, w2),
    ensures
        env_map(w1, f, dir).dom() == env_map(w2, f, dir).dom(),
    decreases w1.len(),
{
    if w1.len() > 0 {
        assert(w1.last().0 == w2.last().0) by {
            assert(w1[w1.len() - 1] == w1[w1.len() - 1]);
        }
        assert(same_targets(w1.drop_last(), w2.drop_last())) by {
            assert forall|i: int| 0 <= i < w1.drop_last().len() implies (#[trigger] w1.drop_last()[i]).0 == w2.drop_last()[i].0 by {
                assert(w1[i] == w1[i]);
            }
        }
        lemma_env_map_dom(w1.drop_last(), w2.drop_last(), f, dir);
        assert(env_map(w1, f, dir).dom() =~= env_map(w2, f, dir).dom());
    }
}

/// A dotenv file written by a pair (as `lemma_pair_file`): it reads after both as after the
/// second alone.
#[verifier::spinoff_prover]
#[verifier::rlimit(60)]
proof fn lemma_pair_env_file(
    w1: Seq<(Seq<FilterView>, Seq<char>)>,
    w2: Seq<(Seq<FilterView>, Seq<char>)>,
    dir: Seq<char>,
    fs: FilesView,
    g: Seq<char>,
    j: int,
)
    requires
        targets_compatible(w1, dir),
        same_targets(w1, w2),
        writes_along(w1 + w2, dir, fs),
        ws_read(fs, g) is Some,
        0 <= j < w1.len(),
        loc_file(w1[j].0, dir) == g,
        w1[j].0[0] is EnvFile,
    ensures
        file_fold(w2, g, dir, file_fold(w1, g, dir, ws_read(fs, g).unwrap())) == file_fold(w2, g, dir, ws_read(fs, g).unwrap()),
{
    let u = w1 + w2;
    let n = w1.len() as int;
    let c = ws_read(fs, g).unwrap();
    lemma_compat_pair(w1, w2, dir);
    let e0 = Map::<Seq<char>, Seq<char>>::empty();
    assert(env_writes_compat(w1, g, dir, e0)) by {
        assert forall|i: int| 0 <= i < w1.len() && loc_file((#[trigger] w1[i]).0, dir) == g implies {
            &&& w1[i].0.len() > 0
            &&& w1[i].0[0] is EnvFile
            &&& line_safe(w1[i].1)
            &&& forall|y: Seq<char>| #[trigger] e0.dom().contains(y) ==> vars_apart(env_var(w1[i].0), y)
        } by {
            assert(w1[i] == w1[i] && w1[j] == w1[j]);
            assert(u[i] == w1[i]);
        }
        assert forall|i: int, i2: int|
            #![trigger w1[i], w1[i2]]
            0 <= i < w1.len() && 0 <= i2 < w1.len() && loc_file(w1[i].0, dir) == g && loc_file(w1[i2].0, dir) == g implies vars_apart(
            env_var(w1[i].0),
            env_var(w1[i2].0),
        ) by {
            assert(w1[i] == w1[i] && w1[i2] == w1[i2]);
        }
    }
    assert(w2[j].0 == w1[j].0);
    assert(env_writes_compat(w2, g, dir, e0)) by {
        assert forall|i: int| 0 <= i < w2.len() && loc_file((#[trigger] w2[i]).0, dir) == g implies {
            &&& w2[i].0.len() > 0
            &&& w2[i].0[0] is EnvFile
            &&& line_safe(w2[i].1)
            &&& forall|y: Seq<char>| #[trigger] e0.dom().contains(y) ==> vars_apart(env_var(w2[i].0), y)
        } by {
            assert(w2[i] == w2[i] && w2[j] == w2[j]);
            assert(u[n + i] == w2[i]);
        }
        assert forall|i: int, i2: int|
            #![trigger w2[i], w2[i2]]
            0 <= i < w2.len() && 0 <= i2 < w2.len() && loc_file(w2[i].0, dir) == g && loc_file(w2[i2].0, dir) == g implies vars_apart(
            env_var(w2[i].0),
            env_var(w2[i2].0),
        ) by {
            assert(w2[i] == w2[i] && w2[i2] == w2[i2]);
        }
    }
    lemma_env_state_empty(c);
    lemma_env_fold_compat(w1, g, dir, c, e0, n);
    lemma_env_fold_compat(w2, g, dir, c, e0, n);
    assert(w1.take(n) =~= w1);
    assert(w2.take(n) =~= w2);
    let e1 = env_map(w1, g, dir);
    let e2 = env_map(w2, g, dir);
    assert(e0.union_prefer_right(e1) =~= e1);
    assert(e0.union_prefer_right(e2) =~= e2);
    assert(env_writes_compat(w2, g, dir, e1)) by {
        assert(map_apart(e1)) by {
            assert forall|y: Seq<char>, z: Seq<char>|
                #![trigger e1.dom().contains(y), e1.dom().contains(z)]
                e1.dom().contains(y) && e1.dom().contains(z) implies vars_apart(y, z) by {
                let iy = choose|i: int| 0 <= i < n && loc_file((#[trigger] w1[i]).0, dir) == g && env_var(w1[i].0) == y;
                let iz = choose|i: int| 0 <= i < n && loc_file((#[trigger] w1[i]).0, dir) == g && env_var(w1[i].0) == z;
                assert(w1[iy] == w1[iy] && w1[iz] == w1[iz]);
            }
        }
        assert forall|i: int| 0 <= i < w2.len() && loc_file((#[trigger] w2[i]).0, dir) == g implies forall|y: Seq<char>|
            #[trigger] e1.dom().contains(y) ==> vars_apart(env_var(w2[i].0), y) by {
            assert forall|y: Seq<char>| #[trigger] e1.dom().contains(y) implies vars_apart(env_var(w2[i].0), y) by {
                let iy = choose|i2: int| 0 <= i2 < n && loc_file((#[trigger] w1[i2]).0, dir) == g && env_var(w1[i2].0) == y;
                assert(w1[i].0 == w2[i].0);
                assert(w1[i] == w1[i] && w1[iy] == w1[iy]);
            }
        }
    }
    lemma_env_fold_compat(w2, g, dir, c, e1, n);
    lemma_env_map_dom(w1, w2, g, dir);
    assert(e1.union_prefer_right(e2) =~= e2);
}

/// A JSON file written by a pair (as `lemma_pair_file`): it parses, and after both it holds
/// the document they make, as `serde_json` writes it.
#[verifier::spinoff_prover]
#[verifier::rlimit(60)]
proof fn lemma_pair_json_both(
    w1: Seq<(Seq<FilterView>, Seq<char>)>,
    w2: Seq<(Seq<FilterView>, Seq<char>)>,
    dir: Seq<char>,
    fs: FilesView,
    g: Seq<char>,
    j: int,
)
    requires
        targets_compatible(w1, dir),
        same_targets(w1, w2),
        writes_along(w1 + w2, dir, fs),
        0 <= j < w1.len(),
        loc_file(w1[j].0, dir) == g,
        w1[j].0[0] is JsonFile,
    ensures
        ({
            let c = ws_read(fs, g).unwrap();
            let d0 = json_parse(c).unwrap();
            &&& ws_read(fs, g) is Some
            &&& json_parse(c) is Some
            &&& file_fold(w1 + w2, g, dir, c) == json_pretty(json_doc_fold(w1 + w2, g, dir, d0)).push('\n')
        }),
{
    let u = w1 + w2;
    let n = w1.len() as int;
    lemma_compat_pair(w1, w2, dir);
    assert forall|i: int| 0 <= i < u.len() && loc_file((#[trigger] u[i]).0, dir) == loc_file(u[j].0, dir) implies u[i].0[0] is JsonFile by {
        assert(u[j] == w1[j]);
        assert(u[i] == u[i] && u[j] == u[j]);
    }
    assert(u[j] == w1[j]);
    lemma_chain_json_ok(u, dir, fs, j);
    let c = ws_read(fs, g).unwrap();
    let d0 = json_parse(c).unwrap();
    assert(u.take(u.len() as int) =~= u);
    lemma_json_chain(u, g, dir, c, d0, u.len() as int);
    assert(0 <= j < u.len() && loc_file(u[j].0, dir) == g);
}

/// A JSON file written by the second writes of a pair alone (as `lemma_pair_file`): it parses,
/// the writes' paths exist in it, and after them it holds the document they make, as
/// `serde_json` writes it.
#[verifier::spinoff_prover]
#[verifier::rlimit(60)]
proof fn lemma_pair_json_second(
    w1: Seq<(Seq<FilterView>, Seq<char>)>,
    w2: Seq<(Seq<FilterView>, Seq<char>)>,
    dir: Seq<char>,
    fs: FilesView,
    g: Seq<char>,
    j: int,
)
    requires
        targets_compatible(w1, dir),
        same_targets(w1, w2),
        writes_along(w2, dir, fs),
        0 <= j < w1.len(),
        loc_file(w1[j].0, dir) == g,
        w1[j].0[0] is JsonFile,
    ensures
        ({
            let c = ws_read(fs, g).unwrap();
            let d0 = json_parse(c).unwrap();
            &&& ws_read(fs, g) is Some
            &&& json_parse(c) is Some
            &&& json_paths_ok(w2, g, dir, d0)
            &&& file_fold(w2, g, dir, c) == json_pretty(json_doc_fold(w2, g, dir, d0)).push('\n')
        }),
{
    let n = w1.len() as int;
    lemma_compat_pair(w1, w2, dir);
    assert(w2[j].0 == w1[j].0);
    assert forall|i: int| 0 <= i < w2.len() && loc_file((#[trigger] w2[i]).0, dir) == loc_file(w2[j].0, dir) implies w2[i].0[0] is JsonFile by {
        assert(w2[i] == w2[i] && w2[j] == w2[j]);
    }
    lemma_chain_json_ok(w2, dir, fs, j);
    let c = ws_read(fs, g).unwrap();
    let d0 = json_parse(c).unwrap();
    assert forall|i: int, i2: int|
        #![trigger w2[i], w2[i2]]
        0 <= i < w2.len() && 0 <= i2 < w2.len() && loc_file(w2[i].0, dir) == g && loc_file(w2[i2].0, dir) == g implies json_keys(
        w2[i].0,
    ) == json_keys(w2[i2].0) || keys_apart(json_keys(w2[i].0), json_keys(w2[i2].0)) by {
        assert(w2[i] == w2[i] && w2[i2] == w2[i2]);
        assert(w2[i] == w2[i] && w2[j] == w2[j]);
    }
    lemma_json_paths_compat(w2, g, dir, c, d0, n);
    assert(w2.take(n) =~= w2);
    lemma_json_chain(w2, g, dir, c, d0, n);
    assert(0 <= j < n && loc_file(w2[j].0, dir) == g);
}

/// A JSON file written by a pair (as `lemma_pair_file`): it reads after both as after the
/// second alone.
proof fn lemma_pair_json_file(
    w1: Seq<(Seq<FilterView>, Seq<char>)>,
    w2: Seq<(Seq<FilterView>, Seq<char>)>,
    dir: Seq<char>,
    fs: FilesView,
    g: Seq<char>,
    j: int,
)
    requires
        targets_compatible(w1, dir),
        same_targets(w1, w2),
        writes_along(w1 + w2, dir, fs),
        writes_along(w2, dir, fs),
        ws_read(fs, g) is Some,
        0 <= j < w1.len(),
        loc_file(w1[j].0, dir) == g,
        w1[j].0[0] is JsonFile,
    ensures
        file_fold(w2, g, dir, file_fold(w1, g, dir, ws_read(fs, g).unwrap())) == file_fold(w2, g, dir, ws_read(fs, g).unwrap()),
{
    let c = ws_read(fs, g).unwrap();
    lemma_fold_concat(w1, w2, g, dir, c);
    lemma_pair_json_both(w1, w2, dir, fs, g, j);
    lemma_pair_json_second(w1, w2, dir, fs, g, j);
    lemma_twice_json_docs(w1, w2, dir, g, json_parse(c).unwrap());
}

/// Writes under `targets_compatible`, followed by writes through the same locators, each able
/// to be made along the way, and so the second alone: every file reads after both as after the
/// second alone.
pub proof fn lemma_pair_file(
    w1: Seq<(Seq<FilterView>, Seq<char>)>,
    w2: Seq<(Seq<FilterView>, Seq<char>)>,
    dir: Seq<char>,
    fs: FilesView,
    g: Seq<char>,
)
    requires
        targets_compatible(w1, dir),
        same_targets(w1, w2),
        writes_along(w1 + w2, dir, fs),
        writes_along(w2, dir, fs),
        ws_read(fs, g) is Some,
    ensures
        file_fold(w2, g, dir, file_fold(w1, g, dir, ws_read(fs, g).unwrap())) == file_fold(w2, g, dir, ws_read(fs, g).unwrap()),
{
    let n = w1.len() as int;
    let c = ws_read(fs, g).unwrap();
    if exists|j: int| 0 <= j < n && loc_file((#[trigger] w1[j]).0, dir) == g {
        let j = choose|j: int| 0 <= j < n && loc_file((#[trigger] w1[j]).0, dir) == g;
        if w1[j].0[0] is EnvFile {
            lemma_pair_env_file(w1, w2, dir, fs, g, j);
        } else {
            lemma_pair_json_file(w1, w2, dir, fs, g, j);
        }
    } else {
        assert forall|i: int| 0 <= i < w1.len() implies loc_file((#[trigger] w1[i]).0, dir) != g by {}
        assert forall|i: int| 0 <= i < w2.len() implies loc_file((#[trigger] w2[i]).0, dir) != g by {
            assert(w1[i].0 == w2[i].0);
        }
        lemma_fold_untouched(w1, g, dir, c);
    }
}

/// Writes under `targets_compatible` made twice over, each able to be made along the way: the
/// writes made once can each be made too.
pub proof fn lemma_rerun_along(w: Seq<(Seq<FilterView>, Seq<char>)>, dir: Seq<char>, fs: FilesView)
    requires
        writes_along(w + w, dir, fs),
    ensures
        same_targets(w, w),
        writes_along(w, dir, fs),
{
    lemma_writes_along_prefix(w + w, w.len() as int, dir, fs);
    assert((w + w).take(w.len() as int) =~= w);
}

} // verus!
