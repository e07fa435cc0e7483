//! The row matcher: partitions two name-keyed rows into shared and exclusive
//! entries and classifies the outcome from the two sides' extensions.
//!
//! The classification reads entries in declaration order — the first
//! exclusive key is the one reported — while rendering sorts; both the
//! record and the tag-union paths share this exact tie-break policy.

use crate::name::Name;
use crate::status::{ProblemModel, StatusModel};
use crate::types::{distinct_keys, ExtModel, TypeExt};
use vstd::prelude::*;

verus! {

/// The first value bound to a key, if any.
pub open spec fn lookup<V>(s: Seq<(Seq<u8>, V)>, k: Seq<u8>) -> Option<V>
    decreases s.len(),
{
    if s.len() == 0 {
        Option::None
    } else if s[0].0 == k {
        Option::Some(s[0].1)
    } else {
        lookup(s.drop_first(), k)
    }
}

/// Whether a row binds a key.
pub open spec fn has_key<V>(s: Seq<(Seq<u8>, V)>, k: Seq<u8>) -> bool {
    lookup(s, k) is Some
}

/// The entries of `s` whose keys the other row lacks, in declaration order.
pub open spec fn only_of<V, W>(s: Seq<(Seq<u8>, V)>, other: Seq<(Seq<u8>, W)>) -> Seq<
    (Seq<u8>, V),
>
    decreases s.len(),
{
    if s.len() == 0 {
        Seq::empty()
    } else {
        let rest = only_of(s.drop_last(), other);
        if has_key(other, s.last().0) {
            rest
        } else {
            rest.push(s.last())
        }
    }
}

/// The keys of a row, in declaration order.
pub open spec fn row_keys<V>(s: Seq<(Seq<u8>, V)>) -> Seq<Seq<u8>>
    decreases s.len(),
{
    if s.len() == 0 {
        Seq::empty()
    } else {
        row_keys(s.drop_last()).push(s.last().0)
    }
}

/// Whether an extension pins the row down: only `FlexOpen` may still grow.
pub open spec fn ext_fixed(e: ExtModel) -> bool {
    match e {
        ExtModel::Closed => true,
        ExtModel::FlexOpen(_) => false,
        ExtModel::RigidOpen(_) => true,
    }
}

/// Whether an extension leaves the row's members fixed.
pub fn ext_has_fixed_fields(ext: &TypeExt) -> (r: bool)
    ensures
        r == ext_fixed(ext@),
{
    match ext {
        TypeExt::Closed => true,
        TypeExt::FlexOpen(_) => false,
        TypeExt::RigidOpen(_) => true,
    }
}

/// The classification of one row comparison, before any per-key recursion.
pub enum RowVerdict {
    /// A key one side has exclusively, against the other side's keys.
    Typo(Seq<u8>, Seq<Seq<u8>>),
    /// Keys only the right side has.
    Missing(Seq<Seq<u8>>),
    /// No exclusive key stands in the way.
    Clean,
}

/// The shared tie-break policy.  With both sides fixed, the first left-only
/// key is a typo against all right keys — this takes precedence over missing
/// members — and otherwise right-only keys are missing.  In a mixed row the
/// open side's first exclusive key is a typo against the fixed side's keys,
/// and the fixed side's exclusive keys are tolerated; two open sides
/// tolerate everything.
pub open spec fn row_verdict<V, W>(
    s1: Seq<(Seq<u8>, V)>,
    e1: ExtModel,
    s2: Seq<(Seq<u8>, W)>,
    e2: ExtModel,
) -> RowVerdict {
    let lo = only_of(s1, s2);
    let ro = only_of(s2, s1);
    if ext_fixed(e1) && ext_fixed(e2) {
        if lo.len() > 0 {
            RowVerdict::Typo(lo[0].0, row_keys(s2))
        } else if ro.len() > 0 {
            RowVerdict::Missing(row_keys(ro))
        } else {
            RowVerdict::Clean
        }
    } else if !ext_fixed(e1) && ext_fixed(e2) {
        if lo.len() > 0 {
            RowVerdict::Typo(lo[0].0, row_keys(s2))
        } else {
            RowVerdict::Clean
        }
    } else if ext_fixed(e1) && !ext_fixed(e2) {
        if ro.len() > 0 {
            RowVerdict::Typo(ro[0].0, row_keys(s1))
        } else {
            RowVerdict::Clean
        }
    } else {
        RowVerdict::Clean
    }
}

/// The verdict's status for a record row.
pub open spec fn verdict_status_fields(v: RowVerdict) -> StatusModel {
    match v {
        RowVerdict::Typo(f, cs) => StatusModel::Different(seq![ProblemModel::FieldTypo(f, cs)]),
        RowVerdict::Missing(ks) => StatusModel::Different(seq![ProblemModel::FieldsMissing(ks)]),
        RowVerdict::Clean => StatusModel::Similar,
    }
}

/// The verdict's status for a tag-union row.
pub open spec fn verdict_status_tags(v: RowVerdict) -> StatusModel {
    match v {
        RowVerdict::Typo(f, cs) => StatusModel::Different(seq![ProblemModel::TagTypo(f, cs)]),
        RowVerdict::Missing(ks) => StatusModel::Different(seq![ProblemModel::TagsMissing(ks)]),
        RowVerdict::Clean => StatusModel::Similar,
    }
}

/// A bound key is bound at some position; the first such position gives the
/// value that `lookup` returns.
pub proof fn lemma_lookup_at<V>(s: Seq<(Seq<u8>, V)>, k: Seq<u8>, i: int)
    requires
        0 <= i < s.len(),
        s[i].0 == k,
        forall|j: int| 0 <= j < i ==> s[j].0 != k,
    ensures
        lookup(s, k) == Option::Some(s[i].1),
    decreases s.len(),
{
    if i > 0 {
        assert(forall|j: int| 0 <= j < i - 1 ==> s.drop_first()[j].0 != k);
        lemma_lookup_at(s.drop_first(), k, i - 1);
    }
}

/// A key bound nowhere is not bound.
pub proof fn lemma_lookup_none<V>(s: Seq<(Seq<u8>, V)>, k: Seq<u8>)
    requires
        forall|j: int| 0 <= j < s.len() ==> s[j].0 != k,
    ensures
        lookup(s, k) is None,
    decreases s.len(),
{
    if s.len() > 0 {
        assert(forall|j: int| 0 <= j < s.drop_first().len() ==> s.drop_first()[j].0 != k);
        lemma_lookup_none(s.drop_first(), k);
    }
}

/// The keys of a row, entry by entry.
pub proof fn lemma_row_keys<V>(s: Seq<(Seq<u8>, V)>)
    ensures
        row_keys(s).len() == s.len(),
        forall|i: int| 0 <= i < s.len() ==> row_keys(s)[i] == s[i].0,
    decreases s.len(),
{
    if s.len() > 0 {
        lemma_row_keys(s.drop_last());
    }
}

/// Finds the first entry bound to a key, scanning in declaration order.
pub fn find_key<V>(s: &Vec<(Name, V)>, k: &Name) -> (r: Option<usize>)
    ensures
        match r {
            Option::Some(i) => i < s@.len() && s@[i as int].0@ == k@ && forall|j: int|
                0 <= j < i ==> s@[j].0@ != k@,
            Option::None => forall|j: int| 0 <= j < s@.len() ==> s@[j].0@ != k@,
        },
{
    let mut i: usize = 0;
    while i < s.len()
        invariant
            i <= s@.len(),
            forall|j: int| 0 <= j < i ==> s@[j].0@ != k@,
        decreases s@.len() - i,
    {
        if crate::name::name_eq(&s[i].0, k) {
            return Option::Some(i);
        }
        i = i + 1;
    }
    Option::None
}

/// A row with distinct keys shares every entry with itself: nothing in a
/// prefix of it is exclusive against the whole.
pub proof fn lemma_only_of_self<V>(k: int, f: Seq<(Seq<u8>, V)>)
    requires
        0 <= k <= f.len(),
        distinct_keys(f),
    ensures
        only_of(f.take(k), f) == Seq::<(Seq<u8>, V)>::empty(),
    decreases k,
{
    if k > 0 {
        lemma_only_of_self(k - 1, f);
        let g = f.take(k);
        assert(g.drop_last() =~= f.take(k - 1));
        assert(g.last() == f[k - 1]);
        assert(forall|j: int| 0 <= j < k - 1 ==> #[trigger] f[j].0 != f[k - 1].0);
        lemma_lookup_at(f, f[k - 1].0, k - 1);
    }
}


/// Law: an open row tolerates the other side's members.  Two open
/// extensions never classify a problem, and an open left side with no
/// exclusive key of its own is clean whatever the right side holds.
pub proof fn lemma_open_row_tolerance<V, W>(
    s1: Seq<(Seq<u8>, V)>,
    e1: ExtModel,
    s2: Seq<(Seq<u8>, W)>,
    e2: ExtModel,
)
    ensures
        !ext_fixed(e1) && !ext_fixed(e2) ==> row_verdict(s1, e1, s2, e2) is Clean,
        !ext_fixed(e1) && only_of(s1, s2).len() == 0 ==> row_verdict(s1, e1, s2, e2) is Clean,
{
}

} // verus!
