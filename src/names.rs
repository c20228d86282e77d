//! The name transformer: configuration and the pure mapping from a file's
//! stem and extension to its desired new name.
use vstd::prelude::*;
use crate::text::{chars_of, occurs_at, push_all, slice_chars, string_of};

verus! {

/// Case folding applied to the stem and to the extension.
#[derive(Clone, Copy, Debug, PartialEq, Eq, Structural)]
pub enum CaseMode {
    Unchanged,
    Lower,
    Upper,
}

/// Options that are rejected before any planning starts.
#[derive(Clone, Copy, Debug, PartialEq, Eq, Structural)]
pub enum ConfigError {
    /// Lower-case and upper-case folding were both requested.
    ConflictingCaseModes,
}

/// The immutable configuration of one renaming run.
#[derive(Clone, Debug)]
pub struct RenameConfig {
    pub prefix: String,
    pub suffix: String,
    /// Substring replacement `(from, to)`; an empty `from` does nothing.
    pub replace: Option<(String, String)>,
    pub case_mode: CaseMode,
    pub remove_extension: bool,
    /// Extensions to keep, compared case-insensitively; empty keeps everything.
    pub extension_filter: Vec<String>,
    pub recursive: bool,
}

/// The result of `str::to_lowercase` on a string.
pub uninterp spec fn lower_of(s: Seq<char>) -> Seq<char>;

/// The result of `str::to_uppercase` on a string.
pub uninterp spec fn upper_of(s: Seq<char>) -> Seq<char>;

/// Relies on `str::to_lowercase`: the result depends on the characters alone.
#[verifier::external_body]
fn lowercase(s: &str) -> (r: String)
    ensures
        r@ == lower_of(s@),
{
    s.to_lowercase()
}

/// Relies on `str::to_uppercase`: the result depends on the characters alone.
#[verifier::external_body]
fn uppercase(s: &str) -> (r: String)
    ensures
        r@ == upper_of(s@),
{
    s.to_uppercase()
}

/// `s` with every non-overlapping occurrence of `from`, scanned left to right,
/// replaced by `to`. An empty `from` leaves `s` unchanged.
pub open spec fn replace_all(s: Seq<char>, from: Seq<char>, to: Seq<char>) -> Seq<char>
    decreases s.len(),
{
    if from.len() == 0 || s.len() < from.len() {
        s
    } else if s.subrange(0, from.len() as int) == from {
        to + replace_all(s.subrange(from.len() as int, s.len() as int), from, to)
    } else {
        seq![s[0]] + replace_all(s.subrange(1, s.len() as int), from, to)
    }
}

/// `s` folded by `mode`.
pub open spec fn fold_case(s: Seq<char>, mode: CaseMode) -> Seq<char> {
    match mode {
        CaseMode::Unchanged => s,
        CaseMode::Lower => lower_of(s),
        CaseMode::Upper => upper_of(s),
    }
}

pub open spec fn opt_view(o: Option<String>) -> Option<Seq<char>> {
    match o {
        Some(s) => Some(s@),
        None => None,
    }
}

/// The stem after prefix, replacement and suffix, before case folding.
pub open spec fn decorated_stem(stem: Seq<char>, config: RenameConfig) -> Seq<char> {
    let with_prefix = config.prefix@ + stem;
    let replaced = match config.replace {
        Some(pair) => replace_all(with_prefix, pair.0@, pair.1@),
        None => with_prefix,
    };
    replaced + config.suffix@
}

/// A final name from a (folded) stem and an optional (folded) extension.
pub open spec fn joined_name(stem: Seq<char>, ext: Option<Seq<char>>, remove_extension: bool) -> Seq<char> {
    match ext {
        Some(e) if !remove_extension => stem + seq!['.'] + e,
        _ => stem,
    }
}

/// The new name that `config` gives to a file with this stem and extension.
pub open spec fn transformed_name(stem: Seq<char>, ext: Option<Seq<char>>, config: RenameConfig) -> Seq<char> {
    let folded_ext = match ext {
        Some(e) => Some(fold_case(e, config.case_mode)),
        None => None,
    };
    joined_name(fold_case(decorated_stem(stem, config), config.case_mode), folded_ext, config.remove_extension)
}

/// The position of the last `.` in `s`, if any.
pub open spec fn last_dot(s: Seq<char>) -> Option<int>
    decreases s.len(),
{
    if s.len() == 0 {
        None
    } else if s.last() == '.' {
        Some(s.len() - 1)
    } else {
        last_dot(s.drop_last())
    }
}

/// The stem of a file name: everything before its last `.`, or the whole name.
pub open spec fn stem_of(name: Seq<char>) -> Seq<char> {
    match last_dot(name) {
        Some(p) => name.subrange(0, p),
        None => name,
    }
}

/// The extension of a file name: everything after its last `.`, if there is one.
pub open spec fn extension_of(name: Seq<char>) -> Option<Seq<char>> {
    match last_dot(name) {
        Some(p) => Some(name.subrange(p + 1, name.len() as int)),
        None => None,
    }
}

/// Whether a file with extension `ext` is kept by `filter`.
pub open spec fn filter_accepts(ext: Option<Seq<char>>, filter: Seq<String>) -> bool {
    filter.len() == 0 || match ext {
        Some(e) => exists|i: int| 0 <= i < filter.len() && #[trigger] lower_of(filter[i]@) == lower_of(e),
        None => false,
    }
}

pub proof fn lemma_last_dot_bounds(s: Seq<char>)
    ensures
        last_dot(s) is Some ==> {
            let p = last_dot(s)->0;
            0 <= p < s.len() && s[p] == '.' && forall|j: int| p < j < s.len() ==> s[j] != '.'
        },
        last_dot(s) is None ==> forall|j: int| 0 <= j < s.len() ==> s[j] != '.',
    decreases s.len(),
{
    if s.len() > 0 && s.last() != '.' {
        let d = s.drop_last();
        lemma_last_dot_bounds(d);
        assert(last_dot(s) == last_dot(d));
        assert forall|j: int| 0 <= j < d.len() implies s[j] == #[trigger] d[j] by {}
        if last_dot(d) is Some {
            let p = last_dot(d)->0;
            assert forall|j: int| p < j < s.len() implies s[j] != '.' by {
                if j < d.len() {
                    assert(d[j] != '.');
                }
            }
        } else {
            assert forall|j: int| 0 <= j < s.len() implies s[j] != '.' by {
                if j < d.len() {
                    assert(d[j] != '.');
                }
            }
        }
    }
}

/// The case mode selected by the two folding flags; both at once is an error.
pub fn case_mode_from_flags(lowercase: bool, uppercase: bool) -> (r: Result<CaseMode, ConfigError>)
    ensures
        lowercase && uppercase ==> r == Err::<CaseMode, ConfigError>(ConfigError::ConflictingCaseModes),
        lowercase && !uppercase ==> r == Ok::<CaseMode, ConfigError>(CaseMode::Lower),
        !lowercase && uppercase ==> r == Ok::<CaseMode, ConfigError>(CaseMode::Upper),
        !lowercase && !uppercase ==> r == Ok::<CaseMode, ConfigError>(CaseMode::Unchanged),
{
    if lowercase && uppercase {
        Err(ConfigError::ConflictingCaseModes)
    } else if lowercase {
        Ok(CaseMode::Lower)
    } else if uppercase {
        Ok(CaseMode::Upper)
    } else {
        Ok(CaseMode::Unchanged)
    }
}

proof fn lemma_replace_all_step(s: Seq<char>, i: int, from: Seq<char>, to: Seq<char>)
    requires
        0 <= i <= s.len(),
        from.len() > 0,
    ensures
        i + from.len() > s.len() ==> replace_all(s.subrange(i, s.len() as int), from, to) == s.subrange(i, s.len() as int),
        i + from.len() <= s.len() && s.subrange(i, i + from.len()) == from ==>
            replace_all(s.subrange(i, s.len() as int), from, to)
                == to + replace_all(s.subrange(i + from.len(), s.len() as int), from, to),
        i + from.len() <= s.len() && s.subrange(i, i + from.len()) != from ==>
            replace_all(s.subrange(i, s.len() as int), from, to)
                == seq![s[i]] + replace_all(s.subrange(i + 1, s.len() as int), from, to),
{
    let rest = s.subrange(i, s.len() as int);
    if i + from.len() <= s.len() {
        assert(rest.subrange(0, from.len() as int) =~= s.subrange(i, i + from.len()));
        assert(rest.subrange(from.len() as int, rest.len() as int) =~= s.subrange(i + from.len(), s.len() as int));
        assert(rest.subrange(1, rest.len() as int) =~= s.subrange(i + 1, s.len() as int));
    }
}

/// Replaces every non-overlapping occurrence of `from` in `s` by `to`, left to right.
pub fn replace_occurrences(s: &Vec<char>, from: &Vec<char>, to: &Vec<char>) -> (r: Vec<char>)
    ensures
        r@ == replace_all(s@, from@, to@),
{
    if from.len() == 0 {
        return s.clone();
    }
    let n = s.len();
    let mut out: Vec<char> = Vec::new();
    let mut i: usize = 0;
    assert(s@.subrange(0, n as int) =~= s@);
    while i < n
        invariant
            n == s@.len(),
            from@.len() > 0,
            i <= n,
            out@ + replace_all(s@.subrange(i as int, n as int), from@, to@) == replace_all(s@, from@, to@),
        decreases n - i,
    {
        proof { lemma_replace_all_step(s@, i as int, from@, to@); }
        if from.len() > n - i {
            let rest = slice_chars(s, i, n);
            push_all(&mut out, &rest);
            assert(s@.subrange(n as int, n as int) =~= Seq::<char>::empty());
            assert(out@ + replace_all(s@.subrange(n as int, n as int), from@, to@) =~= out@);
            i = n;
        } else if occurs_at(s, i, from) {
            let ghost before = out@;
            push_all(&mut out, to);
            assert(before + (to@ + replace_all(s@.subrange(i + from@.len(), n as int), from@, to@))
                =~= out@ + replace_all(s@.subrange(i + from@.len(), n as int), from@, to@));
            i = i + from.len();
        } else {
            let ghost before = out@;
            out.push(s[i]);
            assert(before + (seq![s@[i as int]] + replace_all(s@.subrange(i + 1, n as int), from@, to@))
                =~= out@ + replace_all(s@.subrange(i + 1, n as int), from@, to@));
            i = i + 1;
        }
    }
    assert(s@.subrange(n as int, n as int) =~= Seq::<char>::empty());
    assert(out@ + replace_all(s@.subrange(n as int, n as int), from@, to@) =~= out@);
    out
}


/// `s` folded by `mode`.
pub fn apply_case(s: &str, mode: CaseMode) -> (r: String)
    ensures
        r@ == fold_case(s@, mode),
{
    match mode {
        CaseMode::Unchanged => s.to_owned(),
        CaseMode::Lower => lowercase(s),
        CaseMode::Upper => uppercase(s),
    }
}

/// The stem with the prefix prepended, the replacement applied and the suffix
/// appended, in that order.
pub fn decorate_stem(stem: &str, config: &RenameConfig) -> (r: String)
    ensures
        r@ == decorated_stem(stem@, *config),
{
    let mut chars = chars_of(config.prefix.as_str());
    let stem_chars = chars_of(stem);
    push_all(&mut chars, &stem_chars);
    let mut replaced = match &config.replace {
        Some(pair) => {
            let from = chars_of(pair.0.as_str());
            let to = chars_of(pair.1.as_str());
            replace_occurrences(&chars, &from, &to)
        },
        None => chars,
    };
    let suffix = chars_of(config.suffix.as_str());
    push_all(&mut replaced, &suffix);
    string_of(&replaced)
}

/// Joins a stem and an optional extension with a `.`, dropping the extension
/// when `remove_extension` is set.
pub fn join_name(stem: &str, ext: &Option<String>, remove_extension: bool) -> (r: String)
    ensures
        r@ == joined_name(stem@, opt_view(*ext), remove_extension),
{
    let mut chars = chars_of(stem);
    match ext {
        Some(e) => {
            if !remove_extension {
                chars.push('.');
                let e_chars = chars_of(e.as_str());
                push_all(&mut chars, &e_chars);
            }
        },
        None => {},
    }
    string_of(&chars)
}

/// The new name that `config` gives to a file with this stem and extension.
pub fn transform(stem: &str, ext: &Option<String>, config: &RenameConfig) -> (r: String)
    ensures
        r@ == transformed_name(stem@, opt_view(*ext), *config),
{
    let decorated = decorate_stem(stem, config);
    let folded_stem = apply_case(decorated.as_str(), config.case_mode);
    let folded_ext = match ext {
        Some(e) => Some(apply_case(e.as_str(), config.case_mode)),
        None => None,
    };
    join_name(folded_stem.as_str(), &folded_ext, config.remove_extension)
}

/// The position of the last `.` in `v`, if any.
pub fn find_last_dot(v: &Vec<char>) -> (r: Option<usize>)
    ensures
        r matches Some(p) ==> last_dot(v@) == Some(p as int),
        r is None ==> last_dot(v@) is None,
{
    let n = v.len();
    let mut i: usize = n;
    assert(v@.subrange(0, n as int) =~= v@);
    while i > 0
        invariant
            i <= n == v@.len(),
            last_dot(v@) == last_dot(v@.subrange(0, i as int)),
        decreases i,
    {
        if v[i - 1] == '.' {
            assert(v@.subrange(0, i as int).last() == '.');
            return Some(i - 1);
        }
        assert(v@.subrange(0, i as int).drop_last() =~= v@.subrange(0, i - 1));
        i = i - 1;
    }
    assert(v@.subrange(0, 0) =~= Seq::<char>::empty());
    None
}

/// Splits a file name at its last `.` into stem and extension.
pub fn split_name(name: &str) -> (r: (String, Option<String>))
    ensures
        r.0@ == stem_of(name@),
        opt_view(r.1) == extension_of(name@),
{
    let chars = chars_of(name);
    match find_last_dot(&chars) {
        Some(p) => {
            proof { lemma_last_dot_bounds(chars@); }
            let stem = slice_chars(&chars, 0, p);
            let ext = slice_chars(&chars, p + 1, chars.len());
            (string_of(&stem), Some(string_of(&ext)))
        },
        None => (name.to_owned(), None),
    }
}

/// Whether a file with extension `ext` is kept by the extension filter.
pub fn passes_filter(ext: &Option<String>, filter: &Vec<String>) -> (r: bool)
    ensures
        r == filter_accepts(opt_view(*ext), filter@),
{
    if filter.len() == 0 {
        return true;
    }
    match ext {
        None => false,
        Some(e) => {
            let wanted = lowercase(e.as_str());
            let mut i: usize = 0;
            while i < filter.len()
                invariant
                    i <= filter@.len(),
                    wanted@ == lower_of(e@),
                    opt_view(*ext) == Some(e@),
                    filter@.len() > 0,
                    forall|k: int| 0 <= k < i ==> lower_of(filter@[k]@) != lower_of(e@),
                decreases filter@.len() - i,
            {
                let candidate = lowercase(filter[i].as_str());
                if candidate == wanted {
                    assert(lower_of(filter@[i as int]@) == lower_of(e@));
                    return true;
                }
                i = i + 1;
            }
            false
        },
    }
}

} // verus!
