//! Unique target resolution: `base_N.ext` numbering against taken paths.
use vstd::prelude::*;
use vstd::set_lib::{lemma_int_range, lemma_len_subset, lemma_map_size, set_int_range};
use crate::names::{find_last_dot, last_dot, lemma_last_dot_bounds};
use crate::numbering::{decimal, lemma_decimal_injective, push_decimal};
use crate::text::{chars_of, push_all, slice_chars, string_of};

verus! {

/// A file's location: its parent directory and its name in that directory.
#[derive(Clone, Debug)]
pub struct FilePath {
    pub dir: String,
    pub name: String,
}

impl View for FilePath {
    type V = (Seq<char>, Seq<char>);

    open spec fn view(&self) -> (Seq<char>, Seq<char>) {
        (self.dir@, self.name@)
    }
}

/// The set of locations held in `v`.
pub open spec fn path_set(v: Seq<FilePath>) -> Set<(Seq<char>, Seq<char>)> {
    Set::new(|p: (Seq<char>, Seq<char>)| exists|i: int| 0 <= i < v.len() && #[trigger] v[i]@ == p)
}

/// `desired` with `_k` inserted before its last `.`, or appended when it has none.
pub open spec fn numbered_name(desired: Seq<char>, k: nat) -> Seq<char> {
    match last_dot(desired) {
        Some(p) => desired.subrange(0, p) + seq!['_'] + decimal(k) + seq!['.'] + desired.subrange(p + 1, desired.len() as int),
        None => desired + seq!['_'] + decimal(k),
    }
}

/// `k` is the smallest positive number whose numbered name is free in `dir`.
pub open spec fn is_least_free_index(dir: Seq<char>, desired: Seq<char>, taken: Set<(Seq<char>, Seq<char>)>, k: nat) -> bool {
    &&& k >= 1
    &&& !taken.contains((dir, numbered_name(desired, k)))
    &&& forall|j: nat| 1 <= j < k ==> taken.contains((dir, #[trigger] numbered_name(desired, j)))
}

/// The name that resolution picks: `desired` itself when free, else the
/// numbered name with the smallest free positive index.
pub open spec fn unique_target(dir: Seq<char>, desired: Seq<char>, taken: Set<(Seq<char>, Seq<char>)>) -> Seq<char> {
    if !taken.contains((dir, desired)) {
        desired
    } else {
        numbered_name(desired, choose|k: nat| is_least_free_index(dir, desired, taken, k))
    }
}

pub proof fn lemma_path_set_finite(v: Seq<FilePath>)
    ensures
        path_set(v).finite(),
        path_set(v).len() <= v.len(),
    decreases v.len(),
{
    if v.len() == 0 {
        assert(path_set(v) =~= Set::empty());
    } else {
        let d = v.drop_last();
        lemma_path_set_finite(d);
        assert(path_set(v) =~= path_set(d).insert(v.last()@)) by {
            assert forall|p| path_set(v).contains(p) implies path_set(d).insert(v.last()@).contains(p) by {
                let i = choose|i: int| 0 <= i < v.len() && #[trigger] v[i]@ == p;
                if i < d.len() {
                    assert(d[i]@ == p);
                }
            }
            assert forall|p| path_set(d).insert(v.last()@).contains(p) implies path_set(v).contains(p) by {
                if p != v.last()@ {
                    let i = choose|i: int| 0 <= i < d.len() && #[trigger] d[i]@ == p;
                    assert(v[i]@ == p);
                } else {
                    assert(v[v.len() - 1]@ == p);
                }
            }
        }
    }
}

proof fn lemma_numbered_injective(desired: Seq<char>, a: nat, b: nat)
    requires
        numbered_name(desired, a) == numbered_name(desired, b),
    ensures
        a == b,
{
    let na = numbered_name(desired, a);
    let nb = numbered_name(desired, b);
    match last_dot(desired) {
        Some(p) => {
            lemma_last_dot_bounds(desired);
            let pre = desired.subrange(0, p) + seq!['_'];
            let post = seq!['.'] + desired.subrange(p + 1, desired.len() as int);
            assert(na =~= pre + decimal(a) + post);
            assert(nb =~= pre + decimal(b) + post);
            assert(decimal(a).len() == decimal(b).len());
            assert(na.subrange(pre.len() as int, pre.len() + decimal(a).len() as int) =~= decimal(a));
            assert(nb.subrange(pre.len() as int, pre.len() + decimal(b).len() as int) =~= decimal(b));
        },
        None => {
            let pre = desired + seq!['_'];
            assert(na =~= pre + decimal(a));
            assert(nb =~= pre + decimal(b));
            assert(na.subrange(pre.len() as int, na.len() as int) =~= decimal(a));
            assert(nb.subrange(pre.len() as int, nb.len() as int) =~= decimal(b));
        },
    }
    lemma_decimal_injective(a, b);
}

/// With at most `n` taken locations, one of the first `n + 1` numbered names is free.
pub proof fn lemma_free_index_exists(dir: Seq<char>, desired: Seq<char>, taken: Set<(Seq<char>, Seq<char>)>, n: nat)
    requires
        taken.finite(),
        taken.len() <= n,
    ensures
        exists|k: nat| 1 <= k <= n + 1 && !taken.contains((dir, #[trigger] numbered_name(desired, k))),
{
    let range = set_int_range(1, n as int + 2);
    let f = |k: int| (dir, numbered_name(desired, k as nat));
    lemma_int_range(1, n as int + 2);
    assert forall|x: int, y: int| range.contains(x) && range.contains(y) && #[trigger] f(x) == #[trigger] f(y) implies x == y by {
        lemma_numbered_injective(desired, x as nat, y as nat);
    }
    lemma_map_size(range, range.map(f), f);
    if forall|k: nat| 1 <= k <= n + 1 ==> taken.contains((dir, #[trigger] numbered_name(desired, k))) {
        assert forall|p| range.map(f).contains(p) implies taken.contains(p) by {
            let x = choose|x: int| range.contains(x) && f(x) == p;
            assert(taken.contains((dir, numbered_name(desired, x as nat))));
        }
        lemma_len_subset(range.map(f), taken);
        assert(false);
    }
}

/// The least free index, once a free index is known, is the one `choose` picks.
pub proof fn lemma_least_free_index_unique(dir: Seq<char>, desired: Seq<char>, taken: Set<(Seq<char>, Seq<char>)>, k: nat)
    requires
        is_least_free_index(dir, desired, taken, k),
    ensures
        (choose|j: nat| is_least_free_index(dir, desired, taken, j)) == k,
{
    let c = choose|j: nat| is_least_free_index(dir, desired, taken, j);
    assert(is_least_free_index(dir, desired, taken, c));
    if c < k {
        assert(taken.contains((dir, numbered_name(desired, c))));
    } else if k < c {
        assert(taken.contains((dir, numbered_name(desired, k))));
    }
}


proof fn lemma_least_free_exists(dir: Seq<char>, desired: Seq<char>, taken: Set<(Seq<char>, Seq<char>)>, k: nat)
    requires
        k >= 1,
        !taken.contains((dir, numbered_name(desired, k))),
    ensures
        exists|m: nat| is_least_free_index(dir, desired, taken, m),
    decreases k,
{
    if forall|j: nat| 1 <= j < k ==> taken.contains((dir, #[trigger] numbered_name(desired, j))) {
        assert(is_least_free_index(dir, desired, taken, k));
    } else {
        let j = choose|j: nat| 1 <= j < k && !taken.contains((dir, #[trigger] numbered_name(desired, j)));
        lemma_least_free_exists(dir, desired, taken, j);
    }
}

/// Resolution against a finite set of taken locations always yields a free one.
pub proof fn lemma_unique_target_free(dir: Seq<char>, desired: Seq<char>, taken: Set<(Seq<char>, Seq<char>)>)
    requires
        taken.finite(),
    ensures
        !taken.contains((dir, unique_target(dir, desired, taken))),
{
    if taken.contains((dir, desired)) {
        lemma_free_index_exists(dir, desired, taken, taken.len());
        let k = choose|k: nat| 1 <= k <= taken.len() + 1 && !taken.contains((dir, #[trigger] numbered_name(desired, k)));
        lemma_least_free_exists(dir, desired, taken, k);
        let m = choose|m: nat| is_least_free_index(dir, desired, taken, m);
        lemma_least_free_index_unique(dir, desired, taken, m);
    }
}

/// Whether the location `(dir, name)` is held in `v`.
pub fn contains_path(v: &Vec<FilePath>, dir: &String, name: &String) -> (r: bool)
    ensures
        r == path_set(v@).contains((dir@, name@)),
{
    let mut i: usize = 0;
    while i < v.len()
        invariant
            i <= v@.len(),
            forall|k: int| 0 <= k < i ==> v@[k]@ != (dir@, name@),
        decreases v@.len() - i,
    {
        if v[i].dir == *dir && v[i].name == *name {
            assert(v@[i as int]@ == (dir@, name@));
            return true;
        }
        i = i + 1;
    }
    false
}

/// `desired` numbered with `k`, as in [`numbered_name`].
fn numbered(desired: &Vec<char>, k: u128) -> (r: String)
    ensures
        r@ == numbered_name(desired@, k as nat),
{
    let mut out: Vec<char>;
    match find_last_dot(desired) {
        Some(p) => {
            proof { lemma_last_dot_bounds(desired@); }
            let n = desired.len();
            assert(p < n);
            out = slice_chars(desired, 0, p);
            out.push('_');
            push_decimal(&mut out, k);
            out.push('.');
            let ext = slice_chars(desired, p + 1, n);
            push_all(&mut out, &ext);
        },
        None => {
            out = desired.clone();
            out.push('_');
            push_decimal(&mut out, k);
        },
    }
    string_of(&out)
}

/// Resolves `desired` in `dir` to a name that is neither in `reserved` nor on
/// `disk`: `desired` itself when free, else `base_k.ext` (or `desired_k` when
/// it has no `.`) for the smallest positive `k` that is free.
pub fn make_unique_target(dir: &String, desired: &String, reserved: &Vec<FilePath>, disk: &Vec<FilePath>) -> (r: String)
    ensures
        r@ == unique_target(dir@, desired@, path_set(reserved@).union(path_set(disk@))),
        !path_set(reserved@).contains((dir@, r@)),
        !path_set(disk@).contains((dir@, r@)),
        r@ == desired@ || exists|k: nat| is_least_free_index(dir@, desired@, path_set(reserved@).union(path_set(disk@)), k)
            && r@ == numbered_name(desired@, k),
{
    let ghost taken = path_set(reserved@).union(path_set(disk@));
    if !contains_path(reserved, dir, desired) && !contains_path(disk, dir, desired) {
        return desired.clone();
    }
    proof {
        lemma_path_set_finite(reserved@);
        lemma_path_set_finite(disk@);
        vstd::set_lib::lemma_len_union(path_set(reserved@), path_set(disk@));
        lemma_free_index_exists(dir@, desired@, taken, (reserved@.len() + disk@.len()) as nat);
    }
    let ghost bound = choose|k: nat| 1 <= k <= reserved@.len() + disk@.len() + 1
        && !taken.contains((dir@, #[trigger] numbered_name(desired@, k)));
    let chars = chars_of(desired.as_str());
    let n_reserved = reserved.len();
    let n_disk = disk.len();
    let mut k: u128 = 1;
    loop
        invariant
            chars@ == desired@,
            1 <= k <= bound,
            bound <= reserved@.len() + disk@.len() + 1 <= u128::MAX,
            taken.contains((dir@, desired@)),
            !taken.contains((dir@, numbered_name(desired@, bound))),
            taken == path_set(reserved@).union(path_set(disk@)),
            forall|j: nat| 1 <= j < k ==> taken.contains((dir@, #[trigger] numbered_name(desired@, j))),
        decreases bound - k,
    {
        let name = numbered(&chars, k);
        if !contains_path(reserved, dir, &name) && !contains_path(disk, dir, &name) {
            proof {
                assert(is_least_free_index(dir@, desired@, taken, k as nat));
                lemma_least_free_index_unique(dir@, desired@, taken, k as nat);
            }
            return name;
        }
        k = k + 1;
    }
}

} // verus!
