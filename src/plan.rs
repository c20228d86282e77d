//! The rename planner: an ordered, collision-free plan from a snapshot of
//! candidate files and of the locations already present on disk.
use vstd::prelude::*;
use crate::numbering::decimal;
use crate::names::{
    extension_of, filter_accepts, last_dot, lemma_last_dot_bounds, opt_view, passes_filter, split_name, stem_of, transform,
    transformed_name, RenameConfig,
};
use crate::unique::{
    is_least_free_index, lemma_least_free_index_unique, lemma_path_set_finite, lemma_unique_target_free,
    make_unique_target, numbered_name, path_set, unique_target, FilePath,
};

verus! {

/// A file under consideration, with its name already split.
#[derive(Clone, Debug)]
pub struct CandidateEntry {
    pub dir: String,
    pub name: String,
    pub stem: String,
    pub extension: Option<String>,
}

/// One entry of a plan. A no-op entry keeps its name and is never renamed.
#[derive(Clone, Debug)]
pub struct PlannedRename {
    pub dir: String,
    pub source_name: String,
    pub destination_name: String,
    pub is_noop: bool,
}

impl View for PlannedRename {
    /// `(dir, source_name, destination_name, is_noop)`
    type V = (Seq<char>, Seq<char>, Seq<char>, bool);

    open spec fn view(&self) -> (Seq<char>, Seq<char>, Seq<char>, bool) {
        (self.dir@, self.source_name@, self.destination_name@, self.is_noop)
    }
}

/// A plan in input order, with the destinations it reserved.
#[derive(Clone, Debug)]
pub struct RenamePlan {
    pub entries: Vec<PlannedRename>,
    pub reserved: Vec<FilePath>,
}

impl CandidateEntry {
    /// A candidate for the file `name` in `dir`, split at the last `.` of its name.
    pub fn new(dir: String, name: String) -> (r: CandidateEntry)
        ensures
            r.dir@ == dir@,
            r.name@ == name@,
            r.stem@ == stem_of(name@),
            opt_view(r.extension) == extension_of(name@),
    {
        let (stem, extension) = split_name(name.as_str());
        CandidateEntry { dir, name, stem, extension }
    }
}

/// What planning makes of one candidate, given the locations already taken:
/// nothing when the filter drops it, a no-op entry when its name does not
/// change, else an entry whose destination is resolved against `taken`.
pub open spec fn plan_step(c: CandidateEntry, config: RenameConfig, taken: Set<(Seq<char>, Seq<char>)>)
    -> Option<(Seq<char>, Seq<char>, Seq<char>, bool)>
{
    if !filter_accepts(opt_view(c.extension), config.extension_filter@) {
        None
    } else {
        let new_name = transformed_name(c.stem@, opt_view(c.extension), config);
        if new_name == c.name@ {
            Some((c.dir@, c.name@, c.name@, true))
        } else {
            Some((c.dir@, c.name@, unique_target(c.dir@, new_name, taken), false))
        }
    }
}

/// The plan for `cands` in order, and the set of destinations it reserved.
pub open spec fn planned(cands: Seq<CandidateEntry>, config: RenameConfig, disk: Set<(Seq<char>, Seq<char>)>)
    -> (Seq<(Seq<char>, Seq<char>, Seq<char>, bool)>, Set<(Seq<char>, Seq<char>)>)
    decreases cands.len(),
{
    if cands.len() == 0 {
        (Seq::empty(), Set::empty())
    } else {
        let prev = planned(cands.drop_last(), config, disk);
        match plan_step(cands.last(), config, prev.1.union(disk)) {
            None => prev,
            Some(e) => (prev.0.push(e), if e.3 { prev.1 } else { prev.1.insert((e.0, e.2)) }),
        }
    }
}

pub open spec fn entry_views(v: Seq<PlannedRename>) -> Seq<(Seq<char>, Seq<char>, Seq<char>, bool)> {
    v.map_values(|e: PlannedRename| e@)
}

proof fn lemma_path_set_push(v: Seq<FilePath>, x: FilePath)
    ensures
        path_set(v.push(x)) == path_set(v).insert(x@),
{
    let w = v.push(x);
    assert forall|p| path_set(w).contains(p) implies path_set(v).insert(x@).contains(p) by {
        let i = choose|i: int| 0 <= i < w.len() && #[trigger] w[i]@ == p;
        if i < v.len() {
            assert(v[i]@ == p);
        }
    }
    assert forall|p| path_set(v).insert(x@).contains(p) implies path_set(w).contains(p) by {
        if p == x@ {
            assert(w[v.len() as int]@ == p);
        } else {
            let i = choose|i: int| 0 <= i < v.len() && #[trigger] v[i]@ == p;
            assert(w[i]@ == p);
        }
    }
    assert(path_set(w) =~= path_set(v).insert(x@));
}

/// The facts that every plan satisfies, proved together by induction.
pub(crate) proof fn lemma_planned_facts(cands: Seq<CandidateEntry>, config: RenameConfig, disk: Set<(Seq<char>, Seq<char>)>)
    requires
        disk.finite(),
    ensures
        planned(cands, config, disk).1.finite(),
        forall|i: int| 0 <= i < planned(cands, config, disk).0.len() && (#[trigger] planned(cands, config, disk).0[i]).3
            ==> planned(cands, config, disk).0[i].2 == planned(cands, config, disk).0[i].1,
        forall|i: int| 0 <= i < planned(cands, config, disk).0.len() && !(#[trigger] planned(cands, config, disk).0[i]).3
            ==> planned(cands, config, disk).1.contains((planned(cands, config, disk).0[i].0, planned(cands, config, disk).0[i].2))
                && !disk.contains((planned(cands, config, disk).0[i].0, planned(cands, config, disk).0[i].2)),
        forall|p: (Seq<char>, Seq<char>)| #[trigger] planned(cands, config, disk).1.contains(p) ==>
            exists|i: int| 0 <= i < planned(cands, config, disk).0.len() && !(#[trigger] planned(cands, config, disk).0[i]).3
                && (planned(cands, config, disk).0[i].0, planned(cands, config, disk).0[i].2) == p,
        forall|i: int, j: int| 0 <= i < j < planned(cands, config, disk).0.len()
            && !(#[trigger] planned(cands, config, disk).0[i]).3 && !(#[trigger] planned(cands, config, disk).0[j]).3
            ==> (planned(cands, config, disk).0[i].0, planned(cands, config, disk).0[i].2)
                != (planned(cands, config, disk).0[j].0, planned(cands, config, disk).0[j].2),
        forall|i: int| 0 <= i < planned(cands, config, disk).0.len() ==> exists|j: int| 0 <= j < cands.len()
            && (#[trigger] cands[j]).dir@ == (#[trigger] planned(cands, config, disk).0[i]).0
            && cands[j].name@ == planned(cands, config, disk).0[i].1,
    decreases cands.len(),
{
    if cands.len() > 0 {
        let d = cands.drop_last();
        lemma_planned_facts(d, config, disk);
        let prev = planned(d, config, disk);
        let cur = planned(cands, config, disk);
        let c = cands.last();
        assert forall|i: int| 0 <= i < prev.0.len() implies exists|j: int| 0 <= j < cands.len()
            && (#[trigger] cands[j]).dir@ == (#[trigger] prev.0[i]).0 && cands[j].name@ == prev.0[i].1 by {
            let j = choose|j: int| 0 <= j < d.len() && (#[trigger] d[j]).dir@ == prev.0[i].0 && d[j].name@ == prev.0[i].1;
            assert(cands[j] == d[j]);
        }
        match plan_step(c, config, prev.1.union(disk)) {
            None => {},
            Some(e) => {
                assert(cur.0 == prev.0.push(e));
                assert(cands[cands.len() - 1] == c);
                assert(cur.0[prev.0.len() as int] == e);
                assert forall|i: int| 0 <= i < prev.0.len() implies #[trigger] cur.0[i] == prev.0[i] by {}
                if !e.3 {
                    lemma_unique_target_free(c.dir@, transformed_name(c.stem@, opt_view(c.extension), config), prev.1.union(disk));
                    assert forall|p: (Seq<char>, Seq<char>)| #[trigger] cur.1.contains(p) implies
                        exists|i: int| 0 <= i < cur.0.len() && !(#[trigger] cur.0[i]).3 && (cur.0[i].0, cur.0[i].2) == p by {
                        if p != (e.0, e.2) {
                            assert(prev.1.contains(p));
                            let i = choose|i: int| 0 <= i < prev.0.len() && !(#[trigger] prev.0[i]).3 && (prev.0[i].0, prev.0[i].2) == p;
                            assert(cur.0[i] == prev.0[i]);
                        } else {
                            assert(cur.0[prev.0.len() as int] == e);
                        }
                    }
                    assert forall|i: int, j: int| 0 <= i < j < cur.0.len() && !(#[trigger] cur.0[i]).3 && !(#[trigger] cur.0[j]).3
                        implies (cur.0[i].0, cur.0[i].2) != (cur.0[j].0, cur.0[j].2) by {
                        if j == prev.0.len() {
                            assert(prev.1.contains((prev.0[i].0, prev.0[i].2)));
                        } else {
                            assert(cur.0[i] == prev.0[i] && cur.0[j] == prev.0[j]);
                        }
                    }
                } else {
                    assert forall|p: (Seq<char>, Seq<char>)| #[trigger] cur.1.contains(p) implies
                        exists|i: int| 0 <= i < cur.0.len() && !(#[trigger] cur.0[i]).3 && (cur.0[i].0, cur.0[i].2) == p by {
                        let i = choose|i: int| 0 <= i < prev.0.len() && !(#[trigger] prev.0[i]).3 && (prev.0[i].0, prev.0[i].2) == p;
                        assert(cur.0[i] == prev.0[i]);
                    }
                    assert forall|i: int, j: int| 0 <= i < j < cur.0.len() && !(#[trigger] cur.0[i]).3 && !(#[trigger] cur.0[j]).3
                        implies (cur.0[i].0, cur.0[i].2) != (cur.0[j].0, cur.0[j].2) by {
                        assert(cur.0[i] == prev.0[i] && cur.0[j] == prev.0[j]);
                    }
                }
                assert forall|i: int| 0 <= i < cur.0.len() implies exists|j: int| 0 <= j < cands.len()
                    && (#[trigger] cands[j]).dir@ == (#[trigger] cur.0[i]).0 && cands[j].name@ == cur.0[i].1 by {
                    if i == prev.0.len() {
                        assert(cands[cands.len() - 1].dir@ == cur.0[i].0);
                    } else {
                        assert(cur.0[i] == prev.0[i]);
                    }
                }
            },
        }
    }
}

/// An entry whose transformed name equals its current name is a no-op: it keeps
/// its name, and, when every candidate is present on disk, its location is never
/// among the plan's reserved destinations.
pub proof fn lemma_noop_entries_untouched(cands: Seq<CandidateEntry>, config: RenameConfig, disk: Seq<FilePath>)
    requires
        forall|j: int| 0 <= j < cands.len() ==> path_set(disk).contains(((#[trigger] cands[j]).dir@, cands[j].name@)),
    ensures
        forall|i: int| 0 <= i < planned(cands, config, path_set(disk)).0.len()
            && (#[trigger] planned(cands, config, path_set(disk)).0[i]).3 ==> {
                let e = planned(cands, config, path_set(disk)).0[i];
                e.2 == e.1 && !planned(cands, config, path_set(disk)).1.contains((e.0, e.1))
            },
{
    lemma_path_set_finite(disk);
    lemma_planned_facts(cands, config, path_set(disk));
    let es = planned(cands, config, path_set(disk)).0;
    let res = planned(cands, config, path_set(disk)).1;
    assert forall|i: int| 0 <= i < es.len() && (#[trigger] es[i]).3 implies es[i].2 == es[i].1 && !res.contains((es[i].0, es[i].1)) by {
        let j = choose|j: int| 0 <= j < cands.len() && (#[trigger] cands[j]).dir@ == es[i].0 && cands[j].name@ == es[i].1;
        assert(path_set(disk).contains((es[i].0, es[i].1)));
        if res.contains((es[i].0, es[i].1)) {
            let k = choose|k: int| 0 <= k < es.len() && !(#[trigger] es[k]).3 && (es[k].0, es[k].2) == (es[i].0, es[i].1);
            assert(!path_set(disk).contains((es[k].0, es[k].2)));
        }
    }
}

/// The destinations of the renaming (non-no-op) entries of a plan are pairwise
/// distinct, and none of them is a location already present on disk.
pub proof fn lemma_plan_destinations_distinct(cands: Seq<CandidateEntry>, config: RenameConfig, disk: Seq<FilePath>)
    ensures
        forall|i: int, j: int| 0 <= i < j < planned(cands, config, path_set(disk)).0.len()
            && !(#[trigger] planned(cands, config, path_set(disk)).0[i]).3
            && !(#[trigger] planned(cands, config, path_set(disk)).0[j]).3
            ==> (planned(cands, config, path_set(disk)).0[i].0, planned(cands, config, path_set(disk)).0[i].2)
                != (planned(cands, config, path_set(disk)).0[j].0, planned(cands, config, path_set(disk)).0[j].2),
        forall|i: int| 0 <= i < planned(cands, config, path_set(disk)).0.len()
            && !(#[trigger] planned(cands, config, path_set(disk)).0[i]).3
            ==> !path_set(disk).contains((planned(cands, config, path_set(disk)).0[i].0, planned(cands, config, path_set(disk)).0[i].2)),
{
    lemma_path_set_finite(disk);
    lemma_planned_facts(cands, config, path_set(disk));
}

/// When the candidates are distinct locations, so are the sources of the
/// plan's entries.
pub proof fn lemma_plan_sources_distinct(cands: Seq<CandidateEntry>, config: RenameConfig, disk: Seq<FilePath>)
    requires
        forall|i: int, j: int| 0 <= i < j < cands.len() ==>
            ((#[trigger] cands[i]).dir@, cands[i].name@) != ((#[trigger] cands[j]).dir@, cands[j].name@),
    ensures
        forall|i: int, j: int| 0 <= i < j < planned(cands, config, path_set(disk)).0.len() ==>
            ((#[trigger] planned(cands, config, path_set(disk)).0[i]).0, planned(cands, config, path_set(disk)).0[i].1)
                != ((#[trigger] planned(cands, config, path_set(disk)).0[j]).0, planned(cands, config, path_set(disk)).0[j].1),
    decreases cands.len(),
{
    lemma_path_set_finite(disk);
    if cands.len() > 0 {
        let d = cands.drop_last();
        assert forall|i: int, j: int| 0 <= i < j < d.len() implies
            ((#[trigger] d[i]).dir@, d[i].name@) != ((#[trigger] d[j]).dir@, d[j].name@) by {
            assert(d[i] == cands[i] && d[j] == cands[j]);
        }
        lemma_plan_sources_distinct(d, config, disk);
        lemma_planned_facts(d, config, path_set(disk));
        let prev = planned(d, config, path_set(disk)).0;
        let cur = planned(cands, config, path_set(disk)).0;
        let c = cands.last();
        match plan_step(c, config, planned(d, config, path_set(disk)).1.union(path_set(disk))) {
            None => {},
            Some(e) => {
                assert(cur == prev.push(e));
                assert forall|i: int, j: int| 0 <= i < j < cur.len() implies
                    ((#[trigger] cur[i]).0, cur[i].1) != ((#[trigger] cur[j]).0, cur[j].1) by {
                    assert(cur[i] == prev[i]);
                    if j == prev.len() {
                        let k = choose|k: int| 0 <= k < d.len() && (#[trigger] d[k]).dir@ == prev[i].0 && d[k].name@ == prev[i].1;
                        assert(d[k] == cands[k]);
                        assert(c == cands[cands.len() - 1]);
                    } else {
                        assert(cur[j] == prev[j]);
                    }
                }
            },
        }
    }
}

/// Among distinct candidates, one has an entry in the plan (a renaming or a
/// no-op one) exactly when the extension filter accepts it: a rejected file is
/// absent from the plan altogether.
pub proof fn lemma_plan_keeps_accepted(cands: Seq<CandidateEntry>, config: RenameConfig, disk: Seq<FilePath>)
    requires
        forall|i: int, j: int| 0 <= i < j < cands.len() ==>
            ((#[trigger] cands[i]).dir@, cands[i].name@) != ((#[trigger] cands[j]).dir@, cands[j].name@),
    ensures
        forall|j: int| 0 <= j < cands.len() ==> (
            filter_accepts(opt_view((#[trigger] cands[j]).extension), config.extension_filter@)
                <==> exists|i: int| 0 <= i < planned(cands, config, path_set(disk)).0.len()
                    && (#[trigger] planned(cands, config, path_set(disk)).0[i]).0 == cands[j].dir@
                    && planned(cands, config, path_set(disk)).0[i].1 == cands[j].name@
        ),
    decreases cands.len(),
{
    lemma_path_set_finite(disk);
    if cands.len() > 0 {
        let n = cands.len() - 1;
        let d = cands.drop_last();
        assert forall|i: int, j: int| 0 <= i < j < d.len() implies
            ((#[trigger] d[i]).dir@, d[i].name@) != ((#[trigger] d[j]).dir@, d[j].name@) by {
            assert(d[i] == cands[i] && d[j] == cands[j]);
        }
        lemma_plan_keeps_accepted(d, config, disk);
        lemma_planned_facts(d, config, path_set(disk));
        let prev = planned(d, config, path_set(disk)).0;
        let cur = planned(cands, config, path_set(disk)).0;
        let c = cands[n];
        assert(cands.last() == c);
        let step = plan_step(c, config, planned(d, config, path_set(disk)).1.union(path_set(disk)));
        assert forall|j: int| 0 <= j < cands.len() implies (
            filter_accepts(opt_view((#[trigger] cands[j]).extension), config.extension_filter@)
                <==> exists|i: int| 0 <= i < cur.len() && (#[trigger] cur[i]).0 == cands[j].dir@ && cur[i].1 == cands[j].name@
        ) by {
            if j < n {
                assert(d[j] == cands[j]);
                if exists|i: int| 0 <= i < cur.len() && (#[trigger] cur[i]).0 == cands[j].dir@ && cur[i].1 == cands[j].name@ {
                    let i = choose|i: int| 0 <= i < cur.len() && (#[trigger] cur[i]).0 == cands[j].dir@ && cur[i].1 == cands[j].name@;
                    if i < prev.len() {
                        assert(cur[i] == prev[i]);
                    } else {
                        assert(cur[i].0 == c.dir@ && cur[i].1 == c.name@);
                        assert(((cands[j]).dir@, cands[j].name@) != ((cands[n]).dir@, cands[n].name@));
                    }
                }
                if exists|i: int| 0 <= i < prev.len() && (#[trigger] prev[i]).0 == d[j].dir@ && prev[i].1 == d[j].name@ {
                    let i = choose|i: int| 0 <= i < prev.len() && (#[trigger] prev[i]).0 == d[j].dir@ && prev[i].1 == d[j].name@;
                    assert(cur[i] == prev[i]);
                }
            } else {
                if step is Some {
                    assert(cur[prev.len() as int].0 == c.dir@ && cur[prev.len() as int].1 == c.name@);
                } else {
                    assert(cur == prev);
                    if exists|i: int| 0 <= i < cur.len() && (#[trigger] cur[i]).0 == c.dir@ && cur[i].1 == c.name@ {
                        let i = choose|i: int| 0 <= i < cur.len() && (#[trigger] cur[i]).0 == c.dir@ && cur[i].1 == c.name@;
                        let k = choose|k: int| 0 <= k < d.len() && (#[trigger] d[k]).dir@ == prev[i].0 && d[k].name@ == prev[i].1;
                        assert(d[k] == cands[k]);
                    }
                }
            }
        }
    }
}

/// Of two candidates in one directory that both transform to the same new name
/// `x`, the earlier keeps `x` and the later receives `x` numbered with 1, when
/// neither location is taken on disk.
pub proof fn lemma_earlier_entry_wins(first: CandidateEntry, second: CandidateEntry, config: RenameConfig, disk: Seq<FilePath>)
    requires
        first.dir@ == second.dir@,
        filter_accepts(opt_view(first.extension), config.extension_filter@),
        filter_accepts(opt_view(second.extension), config.extension_filter@),
        transformed_name(first.stem@, opt_view(first.extension), config)
            == transformed_name(second.stem@, opt_view(second.extension), config),
        transformed_name(first.stem@, opt_view(first.extension), config) != first.name@,
        transformed_name(second.stem@, opt_view(second.extension), config) != second.name@,
        !path_set(disk).contains((first.dir@, transformed_name(first.stem@, opt_view(first.extension), config))),
        !path_set(disk).contains((first.dir@, numbered_name(transformed_name(first.stem@, opt_view(first.extension), config), 1))),
    ensures
        planned(seq![first, second], config, path_set(disk)).0 == seq![
            (first.dir@, first.name@, transformed_name(first.stem@, opt_view(first.extension), config), false),
            (second.dir@, second.name@, numbered_name(transformed_name(first.stem@, opt_view(first.extension), config), 1), false),
        ],
{
    let x = transformed_name(first.stem@, opt_view(first.extension), config);
    let dir = first.dir@;
    let cands = seq![first, second];
    let disk_set = path_set(disk);
    assert(cands.drop_last() =~= seq![first]);
    assert(seq![first].drop_last() =~= Seq::<CandidateEntry>::empty());
    let p0 = planned(Seq::<CandidateEntry>::empty(), config, disk_set);
    assert(p0.1 =~= Set::empty());
    assert(p0.1.union(disk_set) =~= disk_set);
    let p1 = planned(seq![first], config, disk_set);
    assert(unique_target(dir, x, disk_set) == x);
    assert(p1.1 == Set::<(Seq<char>, Seq<char>)>::empty().insert((dir, x)));
    let taken = p1.1.union(disk_set);
    assert(taken.contains((dir, x)));
    assert(decimal(1) == seq!['1']);
    if let Some(p) = last_dot(x) {
        lemma_last_dot_bounds(x);
    }
    assert(numbered_name(x, 1).len() == x.len() + 2);
    assert(numbered_name(x, 1) != x);
    assert(is_least_free_index(dir, x, taken, 1));
    lemma_least_free_index_unique(dir, x, taken, 1);
    assert(planned(cands, config, disk_set).0 =~= seq![
        (dir, first.name@, x, false),
        (second.dir@, second.name@, numbered_name(x, 1), false),
    ]);
}

/// Plans the renaming of `candidates`, in order, against the locations on `disk`.
pub fn plan(candidates: &Vec<CandidateEntry>, config: &RenameConfig, disk: &Vec<FilePath>) -> (r: RenamePlan)
    ensures
        entry_views(r.entries@) == planned(candidates@, *config, path_set(disk@)).0,
        path_set(r.reserved@) == planned(candidates@, *config, path_set(disk@)).1,
{
    let ghost disk_set = path_set(disk@);
    let mut entries: Vec<PlannedRename> = Vec::new();
    let mut reserved: Vec<FilePath> = Vec::new();
    let mut i: usize = 0;
    proof {
        assert(candidates@.subrange(0, 0) =~= Seq::<CandidateEntry>::empty());
        assert(entry_views(entries@) =~= Seq::empty());
        assert(path_set(reserved@) =~= Set::empty());
    }
    while i < candidates.len()
        invariant
            i <= candidates@.len(),
            disk_set == path_set(disk@),
            entry_views(entries@) == planned(candidates@.subrange(0, i as int), *config, disk_set).0,
            path_set(reserved@) == planned(candidates@.subrange(0, i as int), *config, disk_set).1,
        decreases candidates@.len() - i,
    {
        let c = &candidates[i];
        let ghost prefix = candidates@.subrange(0, i + 1);
        proof {
            assert(prefix.drop_last() =~= candidates@.subrange(0, i as int));
            assert(prefix.last() == *c);
        }
        if passes_filter(&c.extension, &config.extension_filter) {
            let new_name = transform(c.stem.as_str(), &c.extension, config);
            if new_name == c.name {
                let entry = PlannedRename {
                    dir: c.dir.clone(),
                    source_name: c.name.clone(),
                    destination_name: c.name.clone(),
                    is_noop: true,
                };
                let ghost before = entries@;
                entries.push(entry);
                assert(entry_views(entries@) =~= entry_views(before).push(entry@));
            } else {
                let destination = make_unique_target(&c.dir, &new_name, &reserved, disk);
                let entry = PlannedRename {
                    dir: c.dir.clone(),
                    source_name: c.name.clone(),
                    destination_name: destination.clone(),
                    is_noop: false,
                };
                let ghost before = entries@;
                entries.push(entry);
                assert(entry_views(entries@) =~= entry_views(before).push(entry@));
                let slot = FilePath { dir: c.dir.clone(), name: destination };
                proof { lemma_path_set_push(reserved@, slot); }
                reserved.push(slot);
            }
        }
        i = i + 1;
    }
    assert(candidates@.subrange(0, i as int) =~= candidates@);
    RenamePlan { entries, reserved }
}

} // verus!
