//! Executing a plan: the confirmation answer, re-resolution of destinations at
//! execution time, and the undo log of an executed batch.
use vstd::prelude::*;
use crate::plan::{
    lemma_plan_destinations_distinct, lemma_plan_sources_distinct, lemma_planned_facts, planned, CandidateEntry,
    PlannedRename,
};
use crate::names::{apply_case, lower_of, CaseMode, RenameConfig};
use crate::text::{chars_of, occurs_at, push_all, slice_chars, string_of};
use crate::unique::{lemma_path_set_finite, make_unique_target, path_set, unique_target, FilePath};

verus! {

/// One executed rename, recorded so that it can be reversed.
#[derive(Clone, Debug)]
pub struct UndoLogEntry {
    pub new_path: String,
    pub old_path: String,
}

impl View for UndoLogEntry {
    /// `(new_path, old_path)`
    type V = (Seq<char>, Seq<char>);

    open spec fn view(&self) -> (Seq<char>, Seq<char>) {
        (self.new_path@, self.old_path@)
    }
}

/// The delimiter between the two paths of a log line.
pub open spec fn arrow() -> Seq<char> {
    seq![' ', '-', '>', ' ']
}

/// The delimiter occurs in `s` at position `i`.
pub open spec fn arrow_at(s: Seq<char>, i: int) -> bool {
    0 <= i && i + 4 <= s.len() && s.subrange(i, i + 4) == arrow()
}

/// The log line of an entry: `new -> old`.
pub open spec fn log_line(e: (Seq<char>, Seq<char>)) -> Seq<char> {
    e.0 + arrow() + e.1
}

/// The destination to use when executing `entry`, given the locations present
/// in its directory now: its planned destination when still free, else the
/// destination resolved afresh against what is present.
pub fn execution_target(entry: &PlannedRename, present: &Vec<FilePath>) -> (r: String)
    ensures
        r@ == unique_target(entry.dir@, entry.destination_name@, path_set(present@)),
        !path_set(present@).contains((entry.dir@, r@)),
{
    let none: Vec<FilePath> = Vec::new();
    assert(path_set(none@).union(path_set(present@)) =~= path_set(present@));
    make_unique_target(&entry.dir, &entry.destination_name, &none, present)
}

/// The result of `str::trim` on a string.
pub uninterp spec fn trim_of(s: Seq<char>) -> Seq<char>;

/// Relies on `str::trim`: the result depends on the characters alone.
#[verifier::external_body]
fn trim(s: &str) -> (r: &str)
    ensures
        r@ == trim_of(s@),
{
    s.trim()
}

/// Whether an already trimmed and lower-cased answer accepts the plan: `y` or `yes`.
pub fn is_yes(answer: &str) -> (r: bool)
    ensures
        r == (answer@ == seq!['y'] || answer@ == seq!['y', 'e', 's']),
{
    let chars = chars_of(answer);
    let mut yes: Vec<char> = Vec::new();
    yes.push('y');
    assert(yes@ =~= seq!['y']);
    let short = chars.len() == 1 && occurs_at(&chars, 0, &yes);
    yes.push('e');
    yes.push('s');
    assert(yes@ =~= seq!['y', 'e', 's']);
    let long = chars.len() == 3 && occurs_at(&chars, 0, &yes);
    proof {
        if chars@.len() == 1 {
            assert(chars@.subrange(0, 1) =~= chars@);
        }
        if chars@.len() == 3 {
            assert(chars@.subrange(0, 3) =~= chars@);
        }
    }
    short || long
}

/// Whether a typed answer to the confirmation prompt accepts the plan: after
/// trimming and lower-casing it reads `y` or `yes`. Anything else declines.
pub fn is_affirmative(answer: &str) -> (r: bool)
    ensures
        r == (lower_of(trim_of(answer@)) == seq!['y'] || lower_of(trim_of(answer@)) == seq!['y', 'e', 's']),
{
    let folded = apply_case(trim(answer), CaseMode::Lower);
    is_yes(folded.as_str())
}

/// Renders an entry as one log line, `new -> old`.
pub fn format_undo_line(entry: &UndoLogEntry) -> (r: String)
    ensures
        r@ == log_line(entry@),
{
    let mut chars = chars_of(entry.new_path.as_str());
    chars.push(' ');
    chars.push('-');
    chars.push('>');
    chars.push(' ');
    let old = chars_of(entry.old_path.as_str());
    push_all(&mut chars, &old);
    proof {
        assert(chars@ =~= entry.new_path@ + arrow() + entry.old_path@);
    }
    string_of(&chars)
}

/// Reads one log line, splitting it at the first ` -> `; `None` when the line
/// holds no delimiter.
pub fn parse_undo_line(line: &str) -> (r: Option<UndoLogEntry>)
    ensures
        r is Some <==> exists|i: int| arrow_at(line@, i),
        r matches Some(e) ==> exists|i: int| {
            &&& arrow_at(line@, i)
            &&& forall|j: int| 0 <= j < i ==> !arrow_at(line@, j)
            &&& e.new_path@ == line@.subrange(0, i)
            &&& e.old_path@ == line@.subrange(i + 4, line@.len() as int)
        },
{
    let chars = chars_of(line);
    let n = chars.len();
    let mut delim: Vec<char> = Vec::new();
    delim.push(' ');
    delim.push('-');
    delim.push('>');
    delim.push(' ');
    assert(delim@ =~= arrow());
    if n < 4 {
        return None;
    }
    let mut i: usize = 0;
    while i <= n - 4
        invariant
            n == chars@.len() == line@.len(),
            chars@ == line@,
            delim@ == arrow(),
            i <= n,
            n >= 4,
            forall|j: int| 0 <= j < i ==> !arrow_at(line@, j),
        decreases n - i,
    {
        if occurs_at(&chars, i, &delim) {
            let new_part = slice_chars(&chars, 0, i);
            let old_part = slice_chars(&chars, i + 4, n);
            let e = UndoLogEntry { new_path: string_of(&new_part), old_path: string_of(&old_part) };
            assert(arrow_at(line@, i as int));
            return Some(e);
        }
        i = i + 1;
    }
    None
}

/// A log line written from `(new_path, old_path)` reads back as that entry: its
/// first delimiter sits right after `new_path`, provided `new_path` holds no `>`.
pub proof fn lemma_log_line_round_trip(new_path: Seq<char>, old_path: Seq<char>)
    requires
        forall|k: int| 0 <= k < new_path.len() ==> new_path[k] != '>',
    ensures
        arrow_at(log_line((new_path, old_path)), new_path.len() as int),
        forall|j: int| 0 <= j < new_path.len() ==> !arrow_at(log_line((new_path, old_path)), j),
        log_line((new_path, old_path)).subrange(0, new_path.len() as int) == new_path,
        log_line((new_path, old_path)).subrange(new_path.len() + 4int, log_line((new_path, old_path)).len() as int) == old_path,
{
    let line = log_line((new_path, old_path));
    let n = new_path.len() as int;
    assert(line.subrange(n, n + 4) =~= arrow());
    assert(line.subrange(0, n) =~= new_path);
    assert(line.subrange(n + 4, line.len() as int) =~= old_path);
    assert forall|j: int| 0 <= j < n implies !arrow_at(line, j) by {
        if arrow_at(line, j) {
            assert(line.subrange(j, j + 4)[2] == '>');
            assert(line[j + 2] == '>');
            if j + 2 < n {
                assert(new_path[j + 2] == '>');
            } else {
                assert(line[j + 2] == arrow()[j + 2 - n]);
            }
        }
    }
}

/// The entries of `log` to reverse, in log order: those whose new path is
/// among the paths `present` now. The others are skipped.
pub fn undo_selection(log: &Vec<UndoLogEntry>, present: &Vec<String>) -> (r: Vec<UndoLogEntry>)
    ensures
        r@.map_values(|e: UndoLogEntry| e@) == log@.map_values(|e: UndoLogEntry| e@).filter(
            |e: (Seq<char>, Seq<char>)| present@.map_values(|p: String| p@).contains(e.0),
        ),
{
    let ghost pv = present@.map_values(|p: String| p@);
    let ghost keep = |e: (Seq<char>, Seq<char>)| pv.contains(e.0);
    let ghost lv = log@.map_values(|e: UndoLogEntry| e@);
    let mut out: Vec<UndoLogEntry> = Vec::new();
    let mut i: usize = 0;
    assert(lv.subrange(0, 0).filter(keep) =~= Seq::empty());
    while i < log.len()
        invariant
            i <= log@.len(),
            lv == log@.map_values(|e: UndoLogEntry| e@),
            pv == present@.map_values(|p: String| p@),
            keep == (|e: (Seq<char>, Seq<char>)| pv.contains(e.0)),
            out@.map_values(|e: UndoLogEntry| e@) == lv.subrange(0, i as int).filter(keep),
        decreases log@.len() - i,
    {
        let mut found = false;
        let mut j: usize = 0;
        while j < present.len()
            invariant
                i < log@.len(),
                j <= present@.len(),
                pv == present@.map_values(|p: String| p@),
                found <==> exists|k: int| 0 <= k < j && pv[k] == log@[i as int].new_path@,
            decreases present@.len() - j,
        {
            assert(pv[j as int] == present@[j as int]@);
            if present[j] == log[i].new_path {
                found = true;
            }
            j = j + 1;
        }
        assert(found <==> pv.contains(log@[i as int].new_path@));
        assert(lv[i as int] == log@[i as int]@);
        proof {
            assert(lv.subrange(0, i + 1) =~= lv.subrange(0, i as int).push(lv[i as int]));
            Seq::filter_distributes_over_add(lv.subrange(0, i as int), seq![lv[i as int]], keep);
            assert(lv.subrange(0, i as int).push(lv[i as int]) =~= lv.subrange(0, i as int) + seq![lv[i as int]]);
        }
        if found {
            let ghost before = out@;
            let entry = UndoLogEntry { new_path: log[i].new_path.clone(), old_path: log[i].old_path.clone() };
            out.push(entry);
            assert(seq![lv[i as int]].filter(keep) =~= seq![lv[i as int]]) by {
                reveal_with_fuel(Seq::filter, 2);
                assert(seq![lv[i as int]].drop_last() =~= Seq::empty());
            }
            assert(out@.map_values(|e: UndoLogEntry| e@) =~= before.map_values(|e: UndoLogEntry| e@).push(lv[i as int]));
        } else {
            assert(seq![lv[i as int]].filter(keep) =~= Seq::empty()) by {
                reveal_with_fuel(Seq::filter, 2);
                assert(seq![lv[i as int]].drop_last() =~= Seq::empty());
            }
        }
        i = i + 1;
    }
    assert(lv.subrange(0, log@.len() as int) =~= lv);
    out
}


/// `fs` after moving the file at `from` to `to`; nothing happens when there is
/// no file at `from` or one is already at `to`. A filesystem maps each path to
/// the identity of the file stored there.
pub open spec fn rename_path<K>(fs: Map<K, nat>, from: K, to: K) -> Map<K, nat> {
    if fs.contains_key(from) && !fs.contains_key(to) {
        fs.remove(from).insert(to, fs[from])
    } else {
        fs
    }
}

/// `fs` after executing the renames recorded in `log` (`old -> new`), in order.
pub open spec fn execute_log<K>(fs: Map<K, nat>, log: Seq<(K, K)>) -> Map<K, nat>
    decreases log.len(),
{
    if log.len() == 0 {
        fs
    } else {
        rename_path(execute_log(fs, log.drop_last()), log.last().1, log.last().0)
    }
}

/// `fs` after undoing the entries of `log` in file order (`new -> old`),
/// skipping those whose new path is gone.
pub open spec fn undo_log<K>(fs: Map<K, nat>, log: Seq<(K, K)>) -> Map<K, nat>
    decreases log.len(),
{
    if log.len() == 0 {
        fs
    } else {
        rename_path(undo_log(fs, log.drop_last()), log.last().0, log.last().1)
    }
}

/// A log that a planned batch produces on `fs`: every old path holds a file, no
/// new path does, and no path appears twice on the same side.
pub open spec fn log_fits<K>(fs: Map<K, nat>, log: Seq<(K, K)>) -> bool {
    &&& forall|i: int| 0 <= i < log.len() ==> fs.contains_key(#[trigger] log[i].1)
    &&& forall|i: int| 0 <= i < log.len() ==> !fs.contains_key(#[trigger] log[i].0)
    &&& forall|i: int, j: int| #![trigger log[i], log[j]] 0 <= i < j < log.len() ==> log[i].0 != log[j].0 && log[i].1 != log[j].1
}

/// `p` is one of the paths of the first `k` entries.
pub open spec fn mentioned<K>(log: Seq<(K, K)>, k: int, p: K) -> bool {
    exists|i: int| 0 <= i < k && (#[trigger] log[i].0 == p || log[i].1 == p)
}

proof fn lemma_execute_shape<K>(fs: Map<K, nat>, log: Seq<(K, K)>)
    requires
        log_fits(fs, log),
    ensures
        forall|i: int| 0 <= i < log.len() ==> !execute_log(fs, log).contains_key(#[trigger] log[i].1),
        forall|i: int| 0 <= i < log.len() ==> execute_log(fs, log).contains_key(#[trigger] log[i].0)
            && execute_log(fs, log)[log[i].0] == fs[log[i].1],
        forall|p: K| !mentioned(log, log.len() as int, p) ==>
            (#[trigger] execute_log(fs, log).contains_key(p) == fs.contains_key(p))
            && (fs.contains_key(p) ==> execute_log(fs, log)[p] == fs[p]),
    decreases log.len(),
{
    if log.len() > 0 {
        let d = log.drop_last();
        let n = log.len() - 1;
        assert forall|i: int| 0 <= i < d.len() implies d[i] == log[i] by {}
        assert(log_fits(fs, d));
        lemma_execute_shape(fs, d);
        let prev = execute_log(fs, d);
        let e = log.last();
        assert(e == log[n]);
        // the old path of the last entry is still in place
        if !mentioned(d, d.len() as int, e.1) {
        } else {
            let i = choose|i: int| 0 <= i < d.len() && (#[trigger] d[i].0 == e.1 || d[i].1 == e.1);
            assert(log[i] == d[i]);
            assert(fs.contains_key(log[n].1));
            assert(!fs.contains_key(log[i].0));
            assert(log[i].1 != log[n].1);
        }
        assert(prev.contains_key(e.1));
        if mentioned(d, d.len() as int, e.0) {
            let i = choose|i: int| 0 <= i < d.len() && (#[trigger] d[i].0 == e.0 || d[i].1 == e.0);
            assert(log[i] == d[i]);
            assert(fs.contains_key(log[i].1));
            assert(!fs.contains_key(log[n].0));
            assert(log[i].0 != log[n].0);
        }
        assert(!prev.contains_key(e.0));
        let cur = execute_log(fs, log);
        assert(cur == prev.remove(e.1).insert(e.0, prev[e.1]));
        assert forall|i: int| 0 <= i < log.len() implies !cur.contains_key(#[trigger] log[i].1) by {
            if i < n {
                assert(log[i] == d[i]);
            }
        }
        assert forall|i: int| 0 <= i < log.len() implies cur.contains_key(#[trigger] log[i].0)
            && cur[log[i].0] == fs[log[i].1] by {
            if i < n {
                assert(log[i] == d[i]);
            }
        }
        assert forall|p: K| !mentioned(log, log.len() as int, p) implies
            (#[trigger] cur.contains_key(p) == fs.contains_key(p)) && (fs.contains_key(p) ==> cur[p] == fs[p]) by {
            if mentioned(d, d.len() as int, p) {
                let i = choose|i: int| 0 <= i < d.len() && (#[trigger] d[i].0 == p || d[i].1 == p);
                assert(log[i] == d[i]);
                assert(log[i].0 == p || log[i].1 == p);
                assert(mentioned(log, log.len() as int, p));
            }
            if p == e.0 || p == e.1 {
                assert(log[n].0 == p || log[n].1 == p);
                assert(mentioned(log, log.len() as int, p));
            }
        }
    }
}

proof fn lemma_undo_shape<K>(fs: Map<K, nat>, log: Seq<(K, K)>, m: int)
    requires
        log_fits(fs, log),
        0 <= m <= log.len(),
    ensures
        ({
            let st = undo_log(execute_log(fs, log), log.subrange(0, m));
            &&& forall|i: int| 0 <= i < m ==> st.contains_key(#[trigger] log[i].1) && st[log[i].1] == fs[log[i].1]
                && !st.contains_key(log[i].0)
            &&& forall|i: int| m <= i < log.len() ==> st.contains_key(#[trigger] log[i].0) && st[log[i].0] == fs[log[i].1]
                && !st.contains_key(log[i].1)
            &&& forall|p: K| !mentioned(log, log.len() as int, p) ==>
                (#[trigger] st.contains_key(p) == fs.contains_key(p)) && (fs.contains_key(p) ==> st[p] == fs[p])
        }),
    decreases m,
{
    lemma_execute_shape(fs, log);
    if m == 0 {
        assert(log.subrange(0, 0) =~= Seq::<(K, K)>::empty());
    } else {
        lemma_undo_shape(fs, log, m - 1);
        let sub = log.subrange(0, m);
        assert(sub.drop_last() =~= log.subrange(0, m - 1));
        assert(sub.last() == log[m - 1]);
        let prev = undo_log(execute_log(fs, log), log.subrange(0, m - 1));
        let e = log[m - 1];
        assert(prev.contains_key(e.0));
        assert(!prev.contains_key(e.1));
        let st = undo_log(execute_log(fs, log), sub);
        assert(st == prev.remove(e.0).insert(e.1, prev[e.0]));
        assert forall|i: int| 0 <= i < m implies st.contains_key(#[trigger] log[i].1) && st[log[i].1] == fs[log[i].1]
            && !st.contains_key(log[i].0) by {
            if i < m - 1 {
                assert(log[i].1 != e.1);
                assert(log[i].0 != e.0);
                assert(log[i].1 != e.0);
            }
        }
        assert forall|i: int| m <= i < log.len() implies st.contains_key(#[trigger] log[i].0) && st[log[i].0] == fs[log[i].1]
            && !st.contains_key(log[i].1) by {
            assert(log[i].0 != e.0);
            assert(log[i].1 != e.1);
            assert(log[i].0 != e.1);
        }
        assert forall|p: K| !mentioned(log, log.len() as int, p) implies
            (#[trigger] st.contains_key(p) == fs.contains_key(p)) && (fs.contains_key(p) ==> st[p] == fs[p]) by {
            if p == e.0 || p == e.1 {
                assert(mentioned(log, log.len() as int, p));
            }
        }
    }
}

/// Executing a batch and then undoing its log in file order gives back the
/// filesystem as it was: every renamed file is at its old path again, and every
/// other path is untouched.
pub proof fn lemma_undo_restores<K>(fs: Map<K, nat>, log: Seq<(K, K)>)
    requires
        log_fits(fs, log),
    ensures
        undo_log(execute_log(fs, log), log) == fs,
{
    lemma_undo_shape(fs, log, log.len() as int);
    let st = undo_log(execute_log(fs, log), log.subrange(0, log.len() as int));
    assert(log.subrange(0, log.len() as int) =~= log);
    assert forall|p: K| #[trigger] st.contains_key(p) == fs.contains_key(p) by {
        if mentioned(log, log.len() as int, p) {
            let i = choose|i: int| 0 <= i < log.len() && (#[trigger] log[i].0 == p || log[i].1 == p);
            if log[i].0 == p {
                assert(!st.contains_key(log[i].0));
            } else {
                assert(st.contains_key(log[i].1));
            }
        }
    }
    assert forall|p: K| #[trigger] st.contains_key(p) implies st[p] == fs[p] by {
        if mentioned(log, log.len() as int, p) {
            let i = choose|i: int| 0 <= i < log.len() && (#[trigger] log[i].0 == p || log[i].1 == p);
            if log[i].1 == p {
                assert(st[log[i].1] == fs[log[i].1]);
            } else {
                assert(!st.contains_key(log[i].0));
            }
        }
    }
    assert(st =~= fs);
}


/// The log that executing the renaming entries of a plan writes, in plan
/// order: `(dir, destination) -> (dir, source)` for each entry that is no no-op.
pub open spec fn plan_log(es: Seq<(Seq<char>, Seq<char>, Seq<char>, bool)>)
    -> Seq<((Seq<char>, Seq<char>), (Seq<char>, Seq<char>))>
    decreases es.len(),
{
    if es.len() == 0 {
        Seq::empty()
    } else {
        let prev = plan_log(es.drop_last());
        let e = es.last();
        if e.3 {
            prev
        } else {
            prev.push(((e.0, e.2), (e.0, e.1)))
        }
    }
}

proof fn lemma_plan_log_fits(
    fs: Map<(Seq<char>, Seq<char>), nat>,
    es: Seq<(Seq<char>, Seq<char>, Seq<char>, bool)>,
)
    requires
        forall|i: int| 0 <= i < es.len() ==> fs.contains_key(((#[trigger] es[i]).0, es[i].1)),
        forall|i: int| 0 <= i < es.len() && !(#[trigger] es[i]).3 ==> !fs.contains_key((es[i].0, es[i].2)),
        forall|i: int, j: int| 0 <= i < j < es.len() && !(#[trigger] es[i]).3 && !(#[trigger] es[j]).3
            ==> (es[i].0, es[i].2) != (es[j].0, es[j].2),
        forall|i: int, j: int| 0 <= i < j < es.len() ==> ((#[trigger] es[i]).0, es[i].1) != ((#[trigger] es[j]).0, es[j].1),
    ensures
        log_fits(fs, plan_log(es)),
        forall|k: int| 0 <= k < plan_log(es).len() ==> exists|i: int| 0 <= i < es.len() && !(#[trigger] es[i]).3
            && #[trigger] plan_log(es)[k] == ((es[i].0, es[i].2), (es[i].0, es[i].1)),
    decreases es.len(),
{
    if es.len() > 0 {
        let d = es.drop_last();
        let n = es.len() - 1;
        assert forall|i: int| 0 <= i < d.len() implies #[trigger] d[i] == es[i] by {}
        lemma_plan_log_fits(fs, d);
        let prev = plan_log(d);
        let cur = plan_log(es);
        let e = es[n];
        assert(es.last() == e);
        if !e.3 {
            assert(cur == prev.push(((e.0, e.2), (e.0, e.1))));
            assert forall|k: int| 0 <= k < cur.len() implies exists|i: int| 0 <= i < es.len() && !(#[trigger] es[i]).3
                && #[trigger] cur[k] == ((es[i].0, es[i].2), (es[i].0, es[i].1)) by {
                if k < prev.len() {
                    let i = choose|i: int| 0 <= i < d.len() && !(#[trigger] d[i]).3
                        && #[trigger] prev[k] == ((d[i].0, d[i].2), (d[i].0, d[i].1));
                    assert(cur[k] == prev[k]);
                    assert(es[i] == d[i]);
                } else {
                    assert(cur[k] == ((es[n].0, es[n].2), (es[n].0, es[n].1)));
                }
            }
            assert forall|k: int, l: int| #![trigger cur[k], cur[l]] 0 <= k < l < cur.len()
                implies cur[k].0 != cur[l].0 && cur[k].1 != cur[l].1 by {
                assert(cur[k] == prev[k]);
                if l < prev.len() {
                    assert(cur[l] == prev[l]);
                } else {
                    let i = choose|i: int| 0 <= i < d.len() && !(#[trigger] d[i]).3
                        && #[trigger] prev[k] == ((d[i].0, d[i].2), (d[i].0, d[i].1));
                    assert(es[i] == d[i]);
                }
            }
            assert forall|k: int| 0 <= k < cur.len() implies fs.contains_key(#[trigger] cur[k].1) by {
                if k < prev.len() {
                    assert(cur[k] == prev[k]);
                }
            }
            assert forall|k: int| 0 <= k < cur.len() implies !fs.contains_key(#[trigger] cur[k].0) by {
                if k < prev.len() {
                    assert(cur[k] == prev[k]);
                }
            }
        } else {
            assert(cur == prev);
            assert forall|k: int| 0 <= k < cur.len() implies exists|i: int| 0 <= i < es.len() && !(#[trigger] es[i]).3
                && #[trigger] cur[k] == ((es[i].0, es[i].2), (es[i].0, es[i].1)) by {
                let i = choose|i: int| 0 <= i < d.len() && !(#[trigger] d[i]).3
                    && #[trigger] prev[k] == ((d[i].0, d[i].2), (d[i].0, d[i].1));
                assert(es[i] == d[i]);
            }
        }
    }
}

/// Executing a plan made from distinct candidates that are all on disk, and
/// then undoing its log, restores the filesystem: every renamed file is back
/// under its original name and every other location is untouched. `fs` holds a
/// file at exactly the locations listed in `disk`.
pub proof fn lemma_plan_undo_restores(
    cands: Seq<CandidateEntry>,
    config: RenameConfig,
    disk: Seq<FilePath>,
    fs: Map<(Seq<char>, Seq<char>), nat>,
)
    requires
        fs.dom() == path_set(disk),
        forall|j: int| 0 <= j < cands.len() ==> path_set(disk).contains(((#[trigger] cands[j]).dir@, cands[j].name@)),
        forall|i: int, j: int| 0 <= i < j < cands.len() ==>
            ((#[trigger] cands[i]).dir@, cands[i].name@) != ((#[trigger] cands[j]).dir@, cands[j].name@),
    ensures
        undo_log(
            execute_log(fs, plan_log(planned(cands, config, path_set(disk)).0)),
            plan_log(planned(cands, config, path_set(disk)).0),
        ) == fs,
{
    let es = planned(cands, config, path_set(disk)).0;
    lemma_path_set_finite(disk);
    lemma_planned_facts(cands, config, path_set(disk));
    lemma_plan_destinations_distinct(cands, config, disk);
    lemma_plan_sources_distinct(cands, config, disk);
    assert forall|i: int| 0 <= i < es.len() implies fs.contains_key(((#[trigger] es[i]).0, es[i].1)) by {
        let j = choose|j: int| 0 <= j < cands.len() && (#[trigger] cands[j]).dir@ == es[i].0 && cands[j].name@ == es[i].1;
    }
    lemma_plan_log_fits(fs, es);
    lemma_undo_restores(fs, plan_log(es));
}

} // verus!
