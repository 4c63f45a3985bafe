//! Dotenv-style files: finding `VAR=value` lines and rewriting one line in place.
use vstd::prelude::*;

use crate::text::{append_chars, replace_first, replace_first_exec, starts_with, string_from_chars, to_chars};

verus! {

broadcast use vstd::seq_lib::group_seq_properties;

/// The pieces of `s` when it is split after every `'\n'` (`str::split_inclusive('\n')`):
/// each piece but possibly the last ends with its newline, and no piece is empty.
pub open spec fn pieces(s: Seq<char>) -> Seq<Seq<char>>
    decreases s.len(),
{
    if s.len() == 0 {
        seq![]
    } else {
        let p = pieces(s.drop_last());
        let c = s.last();
        if p.len() == 0 || p.last().last() == '\n' {
            p.push(seq![c])
        } else {
            p.update(p.len() - 1, p.last().push(c))
        }
    }
}

/// The length of the line terminator at the end of a piece: 2 for `"\r\n"`, 1 for `"\n"`,
/// otherwise 0.
pub open spec fn ending_len(p: Seq<char>) -> int {
    if p.len() >= 2 && p[p.len() - 1] == '\n' && p[p.len() - 2] == '\r' {
        2
    } else if p.len() >= 1 && p[p.len() - 1] == '\n' {
        1
    } else {
        0
    }
}

/// A piece without its line terminator.
pub open spec fn line_body(p: Seq<char>) -> Seq<char> {
    p.take(p.len() - ending_len(p))
}

/// The line terminator of a piece.
pub open spec fn line_ending(p: Seq<char>) -> Seq<char> {
    p.skip(p.len() - ending_len(p))
}

/// The lines of `s` as `str::lines` yields them.
pub open spec fn lines(s: Seq<char>) -> Seq<Seq<char>> {
    pieces(s).map_values(|p: Seq<char>| line_body(p))
}

/// The text that starts an assignment of `variable`.
pub open spec fn env_prefix(variable: Seq<char>) -> Seq<char> {
    variable.push('=')
}

/// The lines of `content`, each paired with its 1-based line number.
pub open spec fn numbered_lines(content: Seq<char>) -> Seq<(int, Seq<char>)> {
    Seq::new(lines(content).len(), |i: int| (i + 1, lines(content)[i]))
}

/// The numbered lines of `content` that assign `variable`, in file order.
pub open spec fn env_assignments(content: Seq<char>, variable: Seq<char>) -> Seq<(int, Seq<char>)> {
    numbered_lines(content).filter(|e: (int, Seq<char>)| starts_with(e.1, env_prefix(variable)))
}

/// One assignment line found in a dotenv-style file.
pub struct EnvLine {
    /// 1-based line number.
    pub line_number: u64,
    /// The text after `VAR=`.
    pub old_value: String,
    /// The whole line, without its terminator.
    pub old_line: String,
}

/// The pieces of `s` with piece `line_number - 1` rewritten where it assigns with `prefix`
/// (`VAR=`): the text after the prefix replaced by `new`, its terminator kept. A piece that
/// does not start with the prefix stays as it is.
pub open spec fn rewritten_pieces(s: Seq<char>, line_number: int, prefix: Seq<char>, new: Seq<char>) -> Seq<Seq<char>> {
    pieces(s).map(
        |i: int, p: Seq<char>|
            if i + 1 == line_number && starts_with(line_body(p), prefix) {
                prefix + new + line_ending(p)
            } else {
                p
            },
    )
}

/// `s` with line `line_number` rewritten as `rewritten_pieces` describes.
pub open spec fn replace_line(s: Seq<char>, line_number: int, prefix: Seq<char>, new: Seq<char>) -> Seq<char> {
    rewritten_pieces(s, line_number, prefix, new).flatten()
}

/// Every piece is non-empty, and every piece but the last ends with a newline.
pub proof fn lemma_pieces_shape(s: Seq<char>)
    ensures
        forall|i: int| 0 <= i < pieces(s).len() ==> #[trigger] pieces(s)[i].len() > 0,
        forall|i: int|
            0 <= i < pieces(s).len() - 1 ==> #[trigger] pieces(s)[i][pieces(s)[i].len() - 1]
                == '\n',
    decreases s.len(),
{
    if s.len() > 0 {
        let t = s.drop_last();
        lemma_pieces_shape(t);
        let p = pieces(t);
        let q = pieces(s);
        let c = s.last();
        if p.len() == 0 || p.last().last() == '\n' {
            assert forall|i: int| 0 <= i < q.len() - 1 implies #[trigger] q[i][q[i].len() - 1]
                == '\n' by {
                assert(q[i] == p[i]);
            }
        } else {
            assert forall|i: int| 0 <= i < q.len() - 1 implies #[trigger] q[i][q[i].len() - 1]
                == '\n' by {
                assert(q[i] == p[i]);
            }
        }
    }
}

/// The pieces put back together give the text.
pub proof fn lemma_pieces_flatten(s: Seq<char>)
    ensures
        pieces(s).flatten() =~= s,
    decreases s.len(),
{
    if s.len() > 0 {
        let t = s.drop_last();
        let p = pieces(t);
        lemma_pieces_flatten(t);
        let c = s.last();
        assert(t + seq![c] =~= s);
        if p.len() == 0 || p.last().last() == '\n' {
            p.lemma_flatten_push(seq![c]);
        } else {
            p.drop_last().lemma_flatten_push(p.last());
            assert(p.drop_last().push(p.last()) =~= p);
            let q = p.update(p.len() - 1, p.last().push(c));
            assert(q =~= p.drop_last().push(p.last().push(c)));
            p.drop_last().lemma_flatten_push(p.last().push(c));
            assert(p.drop_last().flatten() + p.last().push(c) =~= p.drop_last().flatten()
                + p.last() + seq![c]);
        }
    }
}

/// The views of a sequence of character vectors.
pub open spec fn vec_views(v: Seq<Vec<char>>) -> Seq<Seq<char>> {
    v.map_values(|x: Vec<char>| x@)
}

/// Splits `chars` after every newline.
pub fn split_pieces(chars: &Vec<char>) -> (r: Vec<Vec<char>>)
    ensures
        vec_views(r@) == pieces(chars@),
{
    let mut out: Vec<Vec<char>> = Vec::new();
    let mut cur: Vec<char> = Vec::new();
    let mut i: usize = 0;
    while i < chars.len()
        invariant
            i <= chars@.len(),
            pieces(chars@.take(i as int)) == if cur@.len() == 0 {
                vec_views(out@)
            } else {
                vec_views(out@).push(cur@)
            },
            forall|k: int| 0 <= k < out@.len() ==> #[trigger] out@[k]@.len() > 0 && out@[k]@.last() == '\n',
            cur@.len() > 0 ==> cur@.last() != '\n',
        decreases chars@.len() - i,
    {
        let c = chars[i];
        assert(chars@.take(i + 1).drop_last() =~= chars@.take(i as int));
        let ghost before = vec_views(out@);
        if c == '\n' {
            cur.push(c);
            out.push(cur);
            cur = Vec::new();
            assert(vec_views(out@) =~= before.push(out@.last()@));
        } else {
            cur.push(c);
        }
        proof {
            let t = chars@.take(i + 1);
            assert(t.last() == c);
            if before.len() > 0 {
                assert(before.last() == out@[before.len() - 1]@);
            }
            assert(pieces(t) =~= if cur@.len() == 0 {
                vec_views(out@)
            } else {
                vec_views(out@).push(cur@)
            });
        }
        i = i + 1;
    }
    if cur.len() > 0 {
        let ghost before = vec_views(out@);
        out.push(cur);
        assert(vec_views(out@) =~= before.push(out@.last()@));
    }
    assert(chars@.take(chars@.len() as int) =~= chars@);
    out
}

/// The length of the terminator at the end of `p`.
fn ending_len_exec(p: &Vec<char>) -> (n: usize)
    ensures
        n == ending_len(p@),
{
    let len = p.len();
    if len >= 2 && p[len - 1] == '\n' && p[len - 2] == '\r' {
        2
    } else if len >= 1 && p[len - 1] == '\n' {
        1
    } else {
        0
    }
}

/// Whether `v` starts with `p`.
fn starts_with_exec(v: &Vec<char>, end: usize, p: &Vec<char>) -> (b: bool)
    requires
        end <= v@.len(),
    ensures
        b == starts_with(v@.take(end as int), p@),
{
    if p.len() > end {
        return false;
    }
    let mut j: usize = 0;
    while j < p.len()
        invariant
            p@.len() <= end <= v@.len(),
            j <= p@.len(),
            forall|m: int| 0 <= m < j ==> v@[m] == p@[m],
        decreases p@.len() - j,
    {
        if v[j] != p[j] {
            assert(v@.take(end as int).take(p@.len() as int)[j as int] != p@[j as int]);
            return false;
        }
        j = j + 1;
    }
    assert(v@.take(end as int).take(p@.len() as int) =~= p@);
    true
}

/// The assignments of `variable` in `content`: every line that starts with `variable=`, with
/// its 1-based line number, the text after `=`, and the whole line.
pub fn find_env_assignments(content: &str, variable: &str) -> (r: Vec<EnvLine>)
    ensures
        r@.len() == env_assignments(content@, variable@).len(),
        forall|j: int|
            0 <= j < r@.len() ==> {
                let a = #[trigger] env_assignments(content@, variable@)[j];
                &&& r@[j].line_number == a.0
                &&& r@[j].old_line@ == a.1
                &&& r@[j].old_value@ == a.1.skip(variable@.len() as int + 1)
            },
{
    let chars = to_chars(content);
    let ps = split_pieces(&chars);
    let mut prefix = to_chars(variable);
    prefix.push('=');
    assert(prefix@ == env_prefix(variable@));
    let ghost numbered = numbered_lines(content@);
    let ghost pred = |e: (int, Seq<char>)| starts_with(e.1, env_prefix(variable@));
    let mut out: Vec<EnvLine> = Vec::new();
    let mut i: usize = 0;
    while i < ps.len()
        invariant
            i <= ps@.len(),
            vec_views(ps@) == pieces(content@),
            prefix@ == env_prefix(variable@),
            numbered == numbered_lines(content@),
            pred == (|e: (int, Seq<char>)| starts_with(e.1, env_prefix(variable@))),
            out@.len() == numbered.take(i as int).filter(pred).len(),
            forall|j: int|
                0 <= j < out@.len() ==> {
                    let a = #[trigger] numbered.take(i as int).filter(pred)[j];
                    &&& out@[j].line_number == a.0
                    &&& out@[j].old_line@ == a.1
                    &&& out@[j].old_value@ == a.1.skip(variable@.len() as int + 1)
                },
        decreases ps@.len() - i,
    {
        let piece = &ps[i];
        let body_len = piece.len() - ending_len_exec(piece);
        let ghost line = line_body(piece@);
        assert(numbered.take(i + 1) =~= numbered.take(i as int).push(numbered[i as int]));
        assert(numbered[i as int] == (i + 1, line));
        assert(piece@.take(body_len as int) == line);
        proof {
            numbered.take(i as int).lemma_filter_push(numbered[i as int], pred);
        }
        if starts_with_exec(piece, body_len, &prefix) {
            let e = EnvLine {
                line_number: (i + 1) as u64,
                old_value: string_from_chars(piece, prefix.len(), body_len),
                old_line: string_from_chars(piece, 0, body_len),
            };
            assert(e.old_value@ =~= line.skip(variable@.len() as int + 1));
            out.push(e);
        }
        i = i + 1;
    }
    assert(numbered.take(ps@.len() as int) =~= numbered);
    out
}

/// `content` with line `line_number` rewritten where it assigns `variable`: the text after
/// `variable=` replaced by `new`, the line terminator (`"\n"`, `"\r\n"` or none) kept.
pub fn replace_in_content(content: &str, line_number: u64, variable: &str, new: &str) -> (r: String)
    ensures
        r@ == replace_line(content@, line_number as int, env_prefix(variable@), new@),
{
    let chars = to_chars(content);
    let ps = split_pieces(&chars);
    let mut prefix = to_chars(variable);
    prefix.push('=');
    let new_chars = to_chars(new);
    let ghost px = env_prefix(variable@);
    assert(prefix@ =~= px);
    let ghost mapped = rewritten_pieces(content@, line_number as int, px, new@);
    let mut out = String::new();
    let mut i: usize = 0;
    while i < ps.len()
        invariant
            i <= ps@.len(),
            vec_views(ps@) == pieces(content@),
            mapped == rewritten_pieces(content@, line_number as int, px, new@),
            prefix@ == px,
            new_chars@ == new@,
            out@ == mapped.take(i as int).flatten(),
        decreases ps@.len() - i,
    {
        let piece = &ps[i];
        let len = piece.len();
        assert(mapped.take(i + 1) =~= mapped.take(i as int).push(mapped[i as int]));
        proof {
            mapped.take(i as int).lemma_flatten_push(mapped[i as int]);
        }
        let body_len = len - ending_len_exec(piece);
        assert(piece@.take(body_len as int) =~= line_body(piece@));
        if (i as u64) + 1 == line_number && starts_with_exec(piece, body_len, &prefix) {
            append_chars(&mut out, &prefix, 0, prefix.len());
            append_chars(&mut out, &new_chars, 0, new_chars.len());
            append_chars(&mut out, piece, body_len, len);
            assert(prefix@.subrange(0, prefix@.len() as int) =~= prefix@);
            assert(new_chars@.subrange(0, new_chars@.len() as int) =~= new_chars@);
            assert(piece@.subrange(body_len as int, len as int) =~= line_ending(piece@));
            assert(mapped[i as int] == px + new@ + line_ending(piece@));
        } else {
            append_chars(&mut out, piece, 0, len);
            assert(piece@.subrange(0, len as int) =~= piece@);
        }
        i = i + 1;
    }
    assert(mapped.take(ps@.len() as int) =~= mapped);
    out
}

/// `s` holds no newline.
pub open spec fn no_newline(s: Seq<char>) -> bool {
    forall|j: int| 0 <= j < s.len() ==> s[j] != '\n'
}

/// A sequence of pieces as `pieces` makes them: none empty, each but the last ending with a
/// newline, and no newline before the end of any piece.
pub open spec fn pieces_wf(ps: Seq<Seq<char>>) -> bool {
    &&& forall|i: int| 0 <= i < ps.len() ==> #[trigger] ps[i].len() > 0
    &&& forall|i: int| 0 <= i < ps.len() - 1 ==> #[trigger] ps[i].last() == '\n'
    &&& forall|i: int| 0 <= i < ps.len() ==> no_newline(#[trigger] ps[i].drop_last())
}

/// The last piece ends with the last character of the text.
pub proof fn lemma_pieces_last(s: Seq<char>)
    requires
        s.len() > 0,
    ensures
        pieces(s).len() > 0,
        pieces(s).last().len() > 0,
        pieces(s).last().last() == s.last(),
{
}

/// `pieces` gives well-formed pieces.
pub proof fn lemma_pieces_wf(s: Seq<char>)
    ensures
        pieces_wf(pieces(s)),
    decreases s.len(),
{
    if s.len() > 0 {
        let t = s.drop_last();
        lemma_pieces_wf(t);
        let p = pieces(t);
        let q = pieces(s);
        let c = s.last();
        if p.len() == 0 || p.last().last() == '\n' {
            assert(q == p.push(seq![c]));
            assert forall|i: int| 0 <= i < q.len() implies no_newline(#[trigger] q[i].drop_last()) by {
                if i < p.len() {
                    assert(q[i] == p[i]);
                } else {
                    assert(q[i].drop_last() =~= Seq::<char>::empty());
                }
            }
            assert forall|i: int| 0 <= i < q.len() - 1 implies #[trigger] q[i].last() == '\n' by {
                assert(q[i] == p[i]);
            }
        } else {
            let l = p.last();
            assert(q == p.update(p.len() - 1, l.push(c)));
            assert forall|i: int| 0 <= i < q.len() implies no_newline(#[trigger] q[i].drop_last()) by {
                if i < p.len() - 1 {
                    assert(q[i] == p[i]);
                } else {
                    assert(q[i].drop_last() =~= l);
                    assert(no_newline(p[p.len() - 1].drop_last()));
                    assert(l =~= l.drop_last().push(l.last()));
                }
            }
            assert forall|i: int| 0 <= i < q.len() - 1 implies #[trigger] q[i].last() == '\n' by {
                assert(q[i] == p[i]);
            }
        }
    }
}

/// Appending a piece: when `a` is empty or ends with a newline, and `b` is a non-empty text
/// with no newline before its end, the first `k` characters of `b` make one more piece.
proof fn lemma_pieces_append_take(a: Seq<char>, b: Seq<char>, k: int)
    requires
        a.len() == 0 || a.last() == '\n',
        b.len() > 0,
        no_newline(b.drop_last()),
        1 <= k <= b.len(),
    ensures
        pieces(a + b.take(k)) == pieces(a).push(b.take(k)),
    decreases k,
{
    let s = a + b.take(k);
    assert(s.drop_last() =~= a + b.take(k - 1));
    assert(s.last() == b[k - 1]);
    if k == 1 {
        assert(a + b.take(0) =~= a);
        if a.len() > 0 {
            lemma_pieces_last(a);
        }
        assert(b.take(1) =~= seq![b[0]]);
    } else {
        lemma_pieces_append_take(a, b, k - 1);
        let p = pieces(a).push(b.take(k - 1));
        assert(b.take(k - 1).last() == b.drop_last()[k - 2]);
        assert(b.take(k - 1).push(b[k - 1]) =~= b.take(k));
        assert(p.update(p.len() - 1, b.take(k - 1).push(b[k - 1])) =~= pieces(a).push(b.take(k)));
    }
}

/// The pieces of a flattened well-formed piece sequence are that sequence.
pub proof fn lemma_pieces_of_flatten(ps: Seq<Seq<char>>)
    requires
        pieces_wf(ps),
    ensures
        pieces(ps.flatten()) == ps,
    decreases ps.len(),
{
    if ps.len() == 0 {
        assert(ps.flatten() =~= Seq::<char>::empty());
        assert(pieces(Seq::<char>::empty()) =~= ps);
    } else {
        let init = ps.drop_last();
        let b = ps.last();
        assert(pieces_wf(init)) by {
            assert forall|i: int| 0 <= i < init.len() implies no_newline(#[trigger] init[i].drop_last()) by {
                assert(init[i] == ps[i]);
            }
            assert forall|i: int| 0 <= i < init.len() implies #[trigger] init[i].len() > 0 by {
                assert(init[i] == ps[i]);
            }
            assert forall|i: int| 0 <= i < init.len() - 1 implies #[trigger] init[i].last() == '\n' by {
                assert(init[i] == ps[i]);
            }
        }
        lemma_pieces_of_flatten(init);
        init.lemma_flatten_push(b);
        assert(init.push(b) =~= ps);
        let a = init.flatten();
        if init.len() > 0 {
            lemma_flatten_last(init);
            assert(init.last() == ps[init.len() - 1]);
        } else {
            assert(a =~= Seq::<char>::empty());
        }
        assert(b.len() > 0);
        assert(no_newline(b.drop_last()));
        lemma_pieces_append_take(a, b, b.len() as int);
        assert(b.take(b.len() as int) =~= b);
    }
}

/// The last character of a flattened sequence is that of its last part, when that part is
/// not empty.
pub proof fn lemma_flatten_last(ps: Seq<Seq<char>>)
    requires
        ps.len() > 0,
        ps.last().len() > 0,
    ensures
        ps.flatten().len() > 0,
        ps.flatten().last() == ps.last().last(),
{
    ps.drop_last().lemma_flatten_push(ps.last());
    assert(ps.drop_last().push(ps.last()) =~= ps);
}

/// A well-formed piece is its body followed by its terminator, and its body holds no newline.
pub proof fn lemma_piece_parts(p: Seq<char>)
    requires
        p.len() > 0,
        no_newline(p.drop_last()),
    ensures
        line_body(p) + line_ending(p) =~= p,
        no_newline(line_body(p)),
        0 <= ending_len(p) <= p.len(),
{
    if ending_len(p) == 0 {
        assert(line_body(p) =~= p);
    } else {
        assert forall|j: int| 0 <= j < line_body(p).len() implies line_body(p)[j] != '\n' by {
            assert(line_body(p)[j] == p.drop_last()[j]);
        }
    }
}

} // verus!
