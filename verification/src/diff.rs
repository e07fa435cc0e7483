//! The diff engine: walks two type representations in lock-step, producing a
//! rendered document for each side and an accumulated status.
//!
//! Matching shapes are compared member by member; rows are delegated to the
//! row matcher, and the two extensions are compared on their own; everything
//! else falls back to rendering both sides wholesale with no diagnosis, since
//! a bare shape mismatch carries no finer explanation.

use crate::name::{clone_name, name_eq, Name};
use crate::render::{
    apply, doc_apply, doc_function, doc_record, doc_tag_union, ext_doc, ext_to_doc, function,
    lemma_render_fields, lemma_render_tags, lemma_rentries_model, lemma_sort_bridge_r,
    lemma_sort_bridge_t, lemma_tentries_model, opt_model, record, render_args, render_fields,
    render_list, render_model, render_tags, rentries_model, sort_by_name, sort_entries, tag_union,
    tentries_model, texts_model, to_doc, Parens,
};
use crate::rows::{
    ext_has_fixed_fields, find_key, lemma_lookup_at, lemma_lookup_none, lemma_row_keys, lookup,
    only_of, row_keys, row_verdict, verdict_status_fields, verdict_status_tags,
};
use crate::status::{
    lemma_names_model, merge_model, names_model, problems_model, Problem, ProblemModel, Status,
    StatusModel,
};
use crate::types::{
    fields_model, lemma_fields_model, lemma_list_model, lemma_tags_model, list_model, tags_model,
    type_model, ErrorType, ExtModel, TypeExt, TypeModel,
};
use vstd::prelude::*;

verus! {

/// The paired result of one comparison: a document for each side and the
/// accumulated status.  Produced and consumed within one comparison call.
#[derive(Debug, PartialEq, Eq)]
pub struct Diff<T> {
    pub left: T,
    pub right: T,
    pub status: Status,
}

/// Model of a `Diff` over documents.
#[verifier::ext_equal]
pub struct DiffModel {
    pub left: Seq<u8>,
    pub right: Seq<u8>,
    pub status: StatusModel,
}

/// Model of a `Diff` over lists of documents.
#[verifier::ext_equal]
pub struct DiffListModel {
    pub lefts: Seq<Seq<u8>>,
    pub rights: Seq<Seq<u8>>,
    pub status: StatusModel,
}

/// Model of a `Diff` over rendered record entries.
#[verifier::ext_equal]
pub struct RowDiffModel {
    pub lefts: Seq<(Seq<u8>, Seq<u8>)>,
    pub rights: Seq<(Seq<u8>, Seq<u8>)>,
    pub status: StatusModel,
}

/// Model of a `Diff` over rendered tag entries.
#[verifier::ext_equal]
pub struct TagRowDiffModel {
    pub lefts: Seq<(Seq<u8>, Seq<Seq<u8>>)>,
    pub rights: Seq<(Seq<u8>, Seq<Seq<u8>>)>,
    pub status: StatusModel,
}

/// An executable document diff matches its model.
pub open spec fn diff_matches(r: Diff<Vec<u8>>, m: DiffModel) -> bool {
    r.left@ == m.left && r.right@ == m.right && r.status@ == m.status
}

/// An executable list diff matches its model.
pub open spec fn diff_list_matches(r: Diff<Vec<Vec<u8>>>, m: DiffListModel) -> bool {
    texts_model(r.left@) == m.lefts && texts_model(r.right@) == m.rights && r.status@ == m.status
}

/// How two row extensions compare on their own.  Two rigid variables with
/// different names conflict, with the right-hand name embedded as a rigid
/// type; a rigid side against a closed side is a bare difference; everything
/// else is tolerated.
pub open spec fn ext_status(e1: ExtModel, e2: ExtModel) -> StatusModel {
    match e1 {
        ExtModel::Closed => match e2 {
            ExtModel::Closed => StatusModel::Similar,
            ExtModel::FlexOpen(_) => StatusModel::Similar,
            ExtModel::RigidOpen(_) => StatusModel::Different(Seq::empty()),
        },
        ExtModel::FlexOpen(_) => StatusModel::Similar,
        ExtModel::RigidOpen(x) => match e2 {
            ExtModel::Closed => StatusModel::Different(Seq::empty()),
            ExtModel::FlexOpen(_) => StatusModel::Similar,
            ExtModel::RigidOpen(y) => if x == y {
                StatusModel::Similar
            } else {
                StatusModel::Different(
                    seq![ProblemModel::BadRigidVar(x, TypeModel::RigidVar(y))],
                )
            },
        },
    }
}

/// Both sides rendered wholesale at top level, with nothing diagnosed.
pub open spec fn fallback_model(t1: TypeModel, t2: TypeModel) -> DiffModel {
    DiffModel {
        left: render_model(t1, Parens::Unnecessary),
        right: render_model(t2, Parens::Unnecessary),
        status: StatusModel::Similar,
    }
}

/// One type rendered for both sides.
pub open spec fn same_model(t: TypeModel, pos: Parens) -> DiffModel {
    DiffModel {
        left: render_model(t, pos),
        right: render_model(t, pos),
        status: StatusModel::Similar,
    }
}

/// The comparison of two types, rendered in a given position.
pub open spec fn diff_model(t1: TypeModel, t2: TypeModel, pos: Parens) -> DiffModel
    decreases t1, 2int,
{
    match (t1, t2) {
        (TypeModel::Error, TypeModel::Error) => same_model(t1, pos),
        (TypeModel::Infinite, TypeModel::Infinite) => same_model(t1, pos),
        (TypeModel::FlexVar(x), TypeModel::FlexVar(y)) => if x == y {
            same_model(t1, pos)
        } else {
            fallback_model(t1, t2)
        },
        (TypeModel::RigidVar(x), TypeModel::RigidVar(y)) => if x == y {
            same_model(t1, pos)
        } else {
            fallback_model(t1, t2)
        },
        (TypeModel::Function(args1, ret1), TypeModel::Function(args2, ret2)) => if args1.len()
            == args2.len() {
            let ad = diff_list(args1, args2, Parens::InFn);
            let rd = diff_model(*ret1, *ret2, Parens::InFn);
            DiffModel {
                left: doc_function(pos, ad.lefts, rd.left),
                right: doc_function(pos, ad.rights, rd.right),
                status: merge_model(ad.status, rd.status),
            }
        } else {
            DiffModel {
                left: render_model(t1, Parens::InFn),
                right: render_model(t2, Parens::InFn),
                status: StatusModel::Different(
                    seq![ProblemModel::ArityMismatch(args1.len(), args2.len())],
                ),
            }
        },
        (TypeModel::Apply(n1, args1), TypeModel::Apply(n2, args2)) => if n1 == n2 && args1.len()
            == args2.len() {
            let ad = diff_list(args1, args2, Parens::InTypeParam);
            DiffModel {
                left: doc_apply(pos, n1, ad.lefts),
                right: doc_apply(pos, n2, ad.rights),
                status: ad.status,
            }
        } else {
            fallback_model(t1, t2)
        },
        (TypeModel::Alias(n1, args1, _), TypeModel::Alias(n2, args2, _)) => if n1 == n2
            && args1.len() == args2.len() {
            let ad = diff_entry_values(args1, args2);
            DiffModel {
                left: doc_apply(pos, n1, ad.lefts),
                right: doc_apply(pos, n2, ad.rights),
                status: ad.status,
            }
        } else {
            fallback_model(t1, t2)
        },
        (TypeModel::Record(f1, e1), TypeModel::Record(f2, e2)) => record_row_model(f1, e1, f2, e2),
        (TypeModel::TagUnion(g1, e1), TypeModel::TagUnion(g2, e2)) => tag_row_model(
            g1,
            e1,
            g2,
            e2,
        ),
        _ => fallback_model(t1, t2),
    }
}

/// Pairwise comparison of two sequences, stopping at the shorter one, the
/// statuses merged left to right.
pub open spec fn diff_list(s1: Seq<TypeModel>, s2: Seq<TypeModel>, pos: Parens) -> DiffListModel
    decreases s1, 0int,
{
    let n = if s1.len() <= s2.len() {
        s1.len() as int
    } else {
        s2.len() as int
    };
    if n == 0 {
        DiffListModel { lefts: Seq::empty(), rights: Seq::empty(), status: StatusModel::Similar }
    } else {
        let pre = diff_list(s1.take(n - 1), s2.take(n - 1), pos);
        let last = diff_model(s1[n - 1], s2[n - 1], pos);
        DiffListModel {
            lefts: pre.lefts.push(last.left),
            rights: pre.rights.push(last.right),
            status: merge_model(pre.status, last.status),
        }
    }
}

/// Pairwise comparison of two labelled argument lists by their values, the
/// labels ignored.
pub open spec fn diff_entry_values(
    s1: Seq<(Seq<u8>, TypeModel)>,
    s2: Seq<(Seq<u8>, TypeModel)>,
) -> DiffListModel
    decreases s1, 0int,
{
    let n = if s1.len() <= s2.len() {
        s1.len() as int
    } else {
        s2.len() as int
    };
    if n == 0 {
        DiffListModel { lefts: Seq::empty(), rights: Seq::empty(), status: StatusModel::Similar }
    } else {
        let pre = diff_entry_values(s1.take(n - 1), s2.take(n - 1));
        let last = diff_model(s1[n - 1].1, s2[n - 1].1, Parens::InTypeParam);
        DiffListModel {
            lefts: pre.lefts.push(last.left),
            rights: pre.rights.push(last.right),
            status: merge_model(pre.status, last.status),
        }
    }
}

/// The shared entries of two record rows, in the left row's order: each
/// value compared against the first right value under the same key.
pub open spec fn record_shared(
    s1: Seq<(Seq<u8>, TypeModel)>,
    s2: Seq<(Seq<u8>, TypeModel)>,
) -> RowDiffModel
    decreases s1, 0int,
{
    if s1.len() == 0 {
        RowDiffModel { lefts: Seq::empty(), rights: Seq::empty(), status: StatusModel::Similar }
    } else {
        let pre = record_shared(s1.drop_last(), s2);
        let e = s1.last();
        match lookup(s2, e.0) {
            Option::Some(v2) => {
                let d = diff_model(e.1, v2, Parens::Unnecessary);
                RowDiffModel {
                    lefts: pre.lefts.push((e.0, d.left)),
                    rights: pre.rights.push((e.0, d.right)),
                    status: merge_model(pre.status, d.status),
                }
            },
            Option::None => pre,
        }
    }
}

/// The shared entries of two tag rows, in the left row's order: each payload
/// compared pairwise against the first right payload under the same tag.
pub open spec fn tag_shared(
    s1: Seq<(Seq<u8>, Seq<TypeModel>)>,
    s2: Seq<(Seq<u8>, Seq<TypeModel>)>,
) -> TagRowDiffModel
    decreases s1, 1int,
{
    if s1.len() == 0 {
        TagRowDiffModel { lefts: Seq::empty(), rights: Seq::empty(), status: StatusModel::Similar }
    } else {
        let pre = tag_shared(s1.drop_last(), s2);
        let e = s1.last();
        match lookup(s2, e.0) {
            Option::Some(v2) => {
                let d = diff_list(e.1, v2, Parens::Unnecessary);
                TagRowDiffModel {
                    lefts: pre.lefts.push((e.0, d.lefts)),
                    rights: pre.rights.push((e.0, d.rights)),
                    status: merge_model(pre.status, d.status),
                }
            },
            Option::None => pre,
        }
    }
}

/// The whole comparison of two record rows: shared entries compared
/// recursively, exclusive entries rendered as they stand, an unnamed
/// difference merged in when any entry is exclusive, then the row verdict,
/// then the extensions' own status; both documents sorted by field name.
pub open spec fn record_row_model(
    f1: Seq<(Seq<u8>, TypeModel)>,
    e1: ExtModel,
    f2: Seq<(Seq<u8>, TypeModel)>,
    e2: ExtModel,
) -> DiffModel
    decreases f1, 1int,
{
    let sh = record_shared(f1, f2);
    let lo = only_of(f1, f2);
    let ro = only_of(f2, f1);
    let lefts = sh.lefts + render_fields(lo);
    let rights = sh.rights + render_fields(ro);
    let st1 = if lo.len() == 0 && ro.len() == 0 {
        sh.status
    } else {
        merge_model(sh.status, StatusModel::Different(Seq::empty()))
    };
    let st2 = merge_model(st1, verdict_status_fields(row_verdict(f1, e1, f2, e2)));
    let st3 = merge_model(st2, ext_status(e1, e2));
    DiffModel {
        left: doc_record(sort_entries(lefts), ext_doc(e1)),
        right: doc_record(sort_entries(rights), ext_doc(e2)),
        status: st3,
    }
}

/// The whole comparison of two tag-union rows, exactly as for records but
/// with tag problems and tag documents.
pub open spec fn tag_row_model(
    g1: Seq<(Seq<u8>, Seq<TypeModel>)>,
    e1: ExtModel,
    g2: Seq<(Seq<u8>, Seq<TypeModel>)>,
    e2: ExtModel,
) -> DiffModel
    decreases g1, 2int,
{
    let sh = tag_shared(g1, g2);
    let lo = only_of(g1, g2);
    let ro = only_of(g2, g1);
    let lefts = sh.lefts + render_tags(lo, Parens::Unnecessary);
    let rights = sh.rights + render_tags(ro, Parens::Unnecessary);
    let st1 = if lo.len() == 0 && ro.len() == 0 {
        sh.status
    } else {
        merge_model(sh.status, StatusModel::Different(Seq::empty()))
    };
    let st2 = merge_model(st1, verdict_status_tags(row_verdict(g1, e1, g2, e2)));
    let st3 = merge_model(st2, ext_status(e1, e2));
    DiffModel {
        left: doc_tag_union(sort_entries(lefts), ext_doc(e1)),
        right: doc_tag_union(sort_entries(rights), ext_doc(e2)),
        status: st3,
    }
}

// ---- executable comparison ----

fn empty_different() -> (r: Status)
    ensures
        r@ == StatusModel::Different(Seq::empty()),
{
    let ps: Vec<Problem> = Vec::new();
    proof {
        assert(problems_model(ps@) =~= Seq::<ProblemModel>::empty());
    }
    Status::Different(ps)
}

/// How two row extensions compare on their own.
pub fn ext_to_status(ext1: &TypeExt, ext2: &TypeExt) -> (r: Status)
    ensures
        r@ == ext_status(ext1@, ext2@),
{
    match ext1 {
        TypeExt::Closed => match ext2 {
            TypeExt::Closed => Status::Similar,
            TypeExt::FlexOpen(_) => Status::Similar,
            TypeExt::RigidOpen(_) => empty_different(),
        },
        TypeExt::FlexOpen(_) => Status::Similar,
        TypeExt::RigidOpen(x) => match ext2 {
            TypeExt::Closed => empty_different(),
            TypeExt::FlexOpen(_) => Status::Similar,
            TypeExt::RigidOpen(y) => {
                if name_eq(x, y) {
                    Status::Similar
                } else {
                    let mut ps: Vec<Problem> = Vec::new();
                    ps.push(
                        Problem::BadRigidVar(clone_name(x), ErrorType::RigidVar(clone_name(y))),
                    );
                    proof {
                        assert(problems_model(ps@) =~= seq![
                            ProblemModel::BadRigidVar(x@, TypeModel::RigidVar(y@)),
                        ]);
                    }
                    Status::Different(ps)
                }
            },
        },
    }
}

/// The extensions' own documents and status, side by side.
pub fn ext_to_diff(ext1: &TypeExt, ext2: &TypeExt) -> (r: Diff<Option<Vec<u8>>>)
    ensures
        opt_model(r.left) == ext_doc(ext1@),
        opt_model(r.right) == ext_doc(ext2@),
        r.status@ == ext_status(ext1@, ext2@),
{
    Diff {
        left: ext_to_doc(ext1),
        right: ext_to_doc(ext2),
        status: ext_to_status(ext1, ext2),
    }
}

fn wholesale(type1: &ErrorType, type2: &ErrorType) -> (r: Diff<Vec<u8>>)
    ensures
        diff_matches(r, fallback_model(type1@, type2@)),
{
    Diff {
        left: to_doc(Parens::Unnecessary, type1),
        right: to_doc(Parens::Unnecessary, type2),
        status: Status::Similar,
    }
}

/// One type rendered for both sides, similar by construction.
pub fn same(parens: Parens, tipe: &ErrorType) -> (r: Diff<Vec<u8>>)
    ensures
        diff_matches(r, same_model(type_model(*tipe), parens)),
{
    let left = to_doc(parens, tipe);
    let right = to_doc(parens, tipe);
    Diff { left, right, status: Status::Similar }
}

/// Pairwise comparison of two argument lists, up to the shorter one.
pub fn traverse(parens: Parens, args1: &Vec<ErrorType>, args2: &Vec<ErrorType>) -> (r: Diff<
    Vec<Vec<u8>>,
>)
    ensures
        diff_list_matches(r, diff_list(list_model(args1@), list_model(args2@), parens)),
    decreases args1, 0int,
{
    let ghost m1 = list_model(args1@);
    let ghost m2 = list_model(args2@);
    proof {
        lemma_list_model(args1@);
        lemma_list_model(args2@);
    }
    let n = if args1.len() <= args2.len() {
        args1.len()
    } else {
        args2.len()
    };
    let mut lefts: Vec<Vec<u8>> = Vec::new();
    let mut rights: Vec<Vec<u8>> = Vec::new();
    let mut status = Status::Similar;
    let mut i: usize = 0;
    while i < n
        invariant
            i <= n,
            n <= args1@.len(),
            n <= args2@.len(),
            m1 == list_model(args1@),
            m2 == list_model(args2@),
            m1.len() == args1@.len(),
            m2.len() == args2@.len(),
            forall|j: int| 0 <= j < args1@.len() ==> m1[j] == type_model(args1@[j]),
            forall|j: int| 0 <= j < args2@.len() ==> m2[j] == type_model(args2@[j]),
            texts_model(lefts@) == diff_list(m1.take(i as int), m2.take(i as int), parens).lefts,
            texts_model(rights@) == diff_list(m1.take(i as int), m2.take(i as int), parens).rights,
            status@ == diff_list(m1.take(i as int), m2.take(i as int), parens).status,
        decreases n - i,
    {
        let d = to_diff(parens, &args1[i], &args2[i]);
        let ghost pre = diff_list(m1.take(i as int), m2.take(i as int), parens);
        lefts.push(d.left);
        rights.push(d.right);
        status.merge(d.status);
        proof {
            let a = m1.take(i + 1 as int);
            let b = m2.take(i + 1 as int);
            assert(a.take(i as int) =~= m1.take(i as int));
            assert(b.take(i as int) =~= m2.take(i as int));
            assert(a[i as int] == type_model(args1@[i as int]));
            assert(texts_model(lefts@) =~= pre.lefts.push(diff_model(
                a[i as int],
                b[i as int],
                parens,
            ).left));
            assert(texts_model(rights@) =~= pre.rights.push(diff_model(
                a[i as int],
                b[i as int],
                parens,
            ).right));
        }
        i = i + 1;
    }
    proof {
        let nn = n as int;
        if nn == 0 {
            assert(texts_model(lefts@) =~= Seq::<Seq<u8>>::empty());
            assert(texts_model(rights@) =~= Seq::<Seq<u8>>::empty());
        } else {
            assert(m1.take(nn).take(nn - 1) =~= m1.take(nn - 1));
            assert(m2.take(nn).take(nn - 1) =~= m2.take(nn - 1));
            assert(m1.take(nn)[nn - 1] == m1[nn - 1]);
            assert(m2.take(nn)[nn - 1] == m2[nn - 1]);
        }
    }
    Diff { left: lefts, right: rights, status }
}

fn traverse_entry_values(args1: &Vec<(Name, ErrorType)>, args2: &Vec<(Name, ErrorType)>) -> (r:
    Diff<Vec<Vec<u8>>>)
    ensures
        diff_list_matches(
            r,
            diff_entry_values(fields_model(args1@), fields_model(args2@)),
        ),
    decreases args1, 0int,
{
    let ghost m1 = fields_model(args1@);
    let ghost m2 = fields_model(args2@);
    proof {
        lemma_fields_model(args1@);
        lemma_fields_model(args2@);
    }
    let n = if args1.len() <= args2.len() {
        args1.len()
    } else {
        args2.len()
    };
    let mut lefts: Vec<Vec<u8>> = Vec::new();
    let mut rights: Vec<Vec<u8>> = Vec::new();
    let mut status = Status::Similar;
    let mut i: usize = 0;
    while i < n
        invariant
            i <= n,
            n <= args1@.len(),
            n <= args2@.len(),
            m1 == fields_model(args1@),
            m2 == fields_model(args2@),
            m1.len() == args1@.len(),
            m2.len() == args2@.len(),
            forall|j: int|
                0 <= j < args1@.len() ==> m1[j] == (args1@[j].0@, type_model(args1@[j].1)),
            forall|j: int|
                0 <= j < args2@.len() ==> m2[j] == (args2@[j].0@, type_model(args2@[j].1)),
            texts_model(lefts@) == diff_entry_values(m1.take(i as int), m2.take(i as int)).lefts,
            texts_model(rights@) == diff_entry_values(m1.take(i as int), m2.take(i as int)).rights,
            status@ == diff_entry_values(m1.take(i as int), m2.take(i as int)).status,
        decreases n - i,
    {
        let d = to_diff(Parens::InTypeParam, &args1[i].1, &args2[i].1);
        let ghost pre = diff_entry_values(m1.take(i as int), m2.take(i as int));
        lefts.push(d.left);
        rights.push(d.right);
        status.merge(d.status);
        proof {
            let a = m1.take(i + 1 as int);
            let b = m2.take(i + 1 as int);
            assert(a.take(i as int) =~= m1.take(i as int));
            assert(b.take(i as int) =~= m2.take(i as int));
            assert(a[i as int].1 == type_model(args1@[i as int].1));
            assert(texts_model(lefts@) =~= pre.lefts.push(diff_model(
                a[i as int].1,
                b[i as int].1,
                Parens::InTypeParam,
            ).left));
            assert(texts_model(rights@) =~= pre.rights.push(diff_model(
                a[i as int].1,
                b[i as int].1,
                Parens::InTypeParam,
            ).right));
        }
        i = i + 1;
    }
    proof {
        let nn = n as int;
        if nn == 0 {
            assert(texts_model(lefts@) =~= Seq::<Seq<u8>>::empty());
            assert(texts_model(rights@) =~= Seq::<Seq<u8>>::empty());
        } else {
            assert(m1.take(nn).take(nn - 1) =~= m1.take(nn - 1));
            assert(m2.take(nn).take(nn - 1) =~= m2.take(nn - 1));
            assert(m1.take(nn)[nn - 1] == m1[nn - 1]);
            assert(m2.take(nn)[nn - 1] == m2[nn - 1]);
        }
    }
    Diff { left: lefts, right: rights, status }
}

/// The keys of a row's entries, copied out in declaration order.
fn keys_of<V>(s: &Vec<(Name, V)>) -> (r: Vec<Name>)
    ensures
        r@.len() == s@.len(),
        forall|i: int| 0 <= i < s@.len() ==> r@[i]@ == s@[i].0@,
{
    let mut r: Vec<Name> = Vec::new();
    let mut i: usize = 0;
    while i < s.len()
        invariant
            i <= s@.len(),
            r@.len() == i,
            forall|j: int| 0 <= j < i ==> r@[j]@ == s@[j].0@,
        decreases s@.len() - i,
    {
        r.push(clone_name(&s[i].0));
        i = i + 1;
    }
    r
}

/// Compares two record rows: shared fields recursively, exclusive fields
/// rendered as they stand, classified by the row matcher's policy, with the
/// extensions compared on their own; both documents sorted by field name.
pub fn diff_record(
    fields1: &Vec<(Name, ErrorType)>,
    ext1: &TypeExt,
    fields2: &Vec<(Name, ErrorType)>,
    ext2: &TypeExt,
) -> (r: Diff<Vec<u8>>)
    ensures
        diff_matches(
            r,
            record_row_model(fields_model(fields1@), ext1@, fields_model(fields2@), ext2@),
        ),
    decreases fields1, 1int,
{
    let ghost f1m = fields_model(fields1@);
    let ghost f2m = fields_model(fields2@);
    proof {
        lemma_fields_model(fields1@);
        lemma_fields_model(fields2@);
    }
    let mut shared_l: Vec<(Name, Vec<u8>)> = Vec::new();
    let mut shared_r: Vec<(Name, Vec<u8>)> = Vec::new();
    let mut st = Status::Similar;
    let mut lo_docs: Vec<(Name, Vec<u8>)> = Vec::new();
    let mut i: usize = 0;
    while i < fields1.len()
        invariant
            i <= fields1@.len(),
            f1m == fields_model(fields1@),
            f2m == fields_model(fields2@),
            f1m.len() == fields1@.len(),
            f2m.len() == fields2@.len(),
            forall|j: int|
                0 <= j < fields1@.len() ==> f1m[j] == (
                fields1@[j].0@,
                type_model(fields1@[j].1),
                ),
            forall|j: int|
                0 <= j < fields2@.len() ==> f2m[j] == (
                fields2@[j].0@,
                type_model(fields2@[j].1),
                ),
            rentries_model(shared_l@) == record_shared(f1m.take(i as int), f2m).lefts,
            rentries_model(shared_r@) == record_shared(f1m.take(i as int), f2m).rights,
            st@ == record_shared(f1m.take(i as int), f2m).status,
            rentries_model(lo_docs@) == render_fields(only_of(f1m.take(i as int), f2m)),
        decreases fields1@.len() - i,
    {
        let ghost prefix = f1m.take(i as int);
        let ghost cur = f1m.take(i + 1 as int);
        proof {
            assert(cur.drop_last() =~= prefix);
            assert(cur.last() == f1m[i as int]);
        }
        match find_key(fields2, &fields1[i].0) {
            Option::Some(j) => {
                proof {
                    assert(forall|x: int| 0 <= x < j ==> f2m[x].0 != fields1@[i as int].0@);
                    lemma_lookup_at(f2m, fields1@[i as int].0@, j as int);
                }
                let d = to_diff(Parens::Unnecessary, &fields1[i].1, &fields2[j].1);
                shared_l.push((clone_name(&fields1[i].0), d.left));
                shared_r.push((clone_name(&fields1[i].0), d.right));
                st.merge(d.status);
                proof {
                    assert(rentries_model(shared_l@) =~= record_shared(cur, f2m).lefts);
                    assert(rentries_model(shared_r@) =~= record_shared(cur, f2m).rights);
                    assert(only_of(cur, f2m) == only_of(prefix, f2m));
                }
            },
            Option::None => {
                proof {
                    assert(forall|x: int|
                        0 <= x < f2m.len() ==> f2m[x].0 != fields1@[i as int].0@);
                    lemma_lookup_none(f2m, fields1@[i as int].0@);
                }
                let doc = to_doc(Parens::Unnecessary, &fields1[i].1);
                lo_docs.push((clone_name(&fields1[i].0), doc));
                proof {
                    let lo_pre = only_of(prefix, f2m);
                    let lo_cur = only_of(cur, f2m);
                    assert(lo_cur == lo_pre.push(f1m[i as int]));
                    assert(lo_cur.drop_last() =~= lo_pre);
                    assert(lo_cur.last() == f1m[i as int]);
                    assert(rentries_model(lo_docs@) =~= render_fields(lo_cur));
                    assert(record_shared(cur, f2m) == record_shared(prefix, f2m));
                }
            },
        }
        i = i + 1;
    }
    proof {
        assert(f1m.take(fields1@.len() as int) =~= f1m);
    }
    let mut ro_docs: Vec<(Name, Vec<u8>)> = Vec::new();
    let mut k: usize = 0;
    while k < fields2.len()
        invariant
            k <= fields2@.len(),
            f1m == fields_model(fields1@),
            f2m == fields_model(fields2@),
            f1m.len() == fields1@.len(),
            f2m.len() == fields2@.len(),
            forall|j: int|
                0 <= j < fields1@.len() ==> f1m[j] == (
                fields1@[j].0@,
                type_model(fields1@[j].1),
                ),
            forall|j: int|
                0 <= j < fields2@.len() ==> f2m[j] == (
                fields2@[j].0@,
                type_model(fields2@[j].1),
                ),
            rentries_model(ro_docs@) == render_fields(only_of(f2m.take(k as int), f1m)),
        decreases fields2@.len() - k,
    {
        let ghost prefix = f2m.take(k as int);
        let ghost cur = f2m.take(k + 1 as int);
        proof {
            assert(cur.drop_last() =~= prefix);
            assert(cur.last() == f2m[k as int]);
        }
        match find_key(fields1, &fields2[k].0) {
            Option::Some(j) => {
                proof {
                    assert(forall|x: int| 0 <= x < j ==> f1m[x].0 != fields2@[k as int].0@);
                    lemma_lookup_at(f1m, fields2@[k as int].0@, j as int);
                    assert(only_of(cur, f1m) == only_of(prefix, f1m));
                }
            },
            Option::None => {
                proof {
                    assert(forall|x: int|
                        0 <= x < f1m.len() ==> f1m[x].0 != fields2@[k as int].0@);
                    lemma_lookup_none(f1m, fields2@[k as int].0@);
                }
                let doc = to_doc(Parens::Unnecessary, &fields2[k].1);
                ro_docs.push((clone_name(&fields2[k].0), doc));
                proof {
                    let ro_pre = only_of(prefix, f1m);
                    let ro_cur = only_of(cur, f1m);
                    assert(ro_cur == ro_pre.push(f2m[k as int]));
                    assert(ro_cur.drop_last() =~= ro_pre);
                    assert(ro_cur.last() == f2m[k as int]);
                    assert(rentries_model(ro_docs@) =~= render_fields(ro_cur));
                }
            },
        }
        k = k + 1;
    }
    proof {
        assert(f2m.take(fields2@.len() as int) =~= f2m);
    }
    let ghost lom = only_of(f1m, f2m);
    let ghost rom = only_of(f2m, f1m);
    proof {
        lemma_render_fields(lom);
        lemma_render_fields(rom);
        lemma_rentries_model(lo_docs@);
        lemma_rentries_model(ro_docs@);
    }
    let fixed1 = ext_has_fixed_fields(ext1);
    let fixed2 = ext_has_fixed_fields(ext2);
    let verdict: Status = if fixed1 && fixed2 {
        if lo_docs.len() > 0 {
            let cands = keys_of(fields2);
            let mut ps: Vec<Problem> = Vec::new();
            ps.push(Problem::FieldTypo(clone_name(&lo_docs[0].0), cands));
            proof {
                lemma_row_keys(f2m);
                lemma_names_model(cands@);
                assert(names_model(cands@) =~= row_keys(f2m));
                assert(rentries_model(lo_docs@) == render_fields(lom));
                assert(rentries_model(lo_docs@)[0] == (lo_docs@[0].0@, lo_docs@[0].1@));
                assert(render_fields(lom)[0] == (
                    lom[0].0,
                    render_model(lom[0].1, Parens::Unnecessary),
                ));
                assert(lo_docs@[0].0@ == lom[0].0);
                assert(problems_model(ps@) =~= seq![
                    ProblemModel::FieldTypo(lom[0].0, row_keys(f2m)),
                ]);
            }
            Status::Different(ps)
        } else if ro_docs.len() > 0 {
            let ks = keys_of(&ro_docs);
            let mut ps: Vec<Problem> = Vec::new();
            ps.push(Problem::FieldsMissing(ks));
            proof {
                lemma_row_keys(rom);
                lemma_names_model(ks@);
                assert(rentries_model(ro_docs@) == render_fields(rom));
                assert forall|x: int| 0 <= x < ro_docs@.len() implies ks@[x]@ == rom[x].0 by {
                    assert(rentries_model(ro_docs@)[x] == (ro_docs@[x].0@, ro_docs@[x].1@));
                    assert(render_fields(rom)[x] == (
                        rom[x].0,
                        render_model(rom[x].1, Parens::Unnecessary),
                    ));
                }
                assert(names_model(ks@) =~= row_keys(rom));
                assert(problems_model(ps@) =~= seq![ProblemModel::FieldsMissing(row_keys(rom))]);
            }
            Status::Different(ps)
        } else {
            Status::Similar
        }
    } else if !fixed1 && fixed2 {
        if lo_docs.len() > 0 {
            let cands = keys_of(fields2);
            let mut ps: Vec<Problem> = Vec::new();
            ps.push(Problem::FieldTypo(clone_name(&lo_docs[0].0), cands));
            proof {
                lemma_row_keys(f2m);
                lemma_names_model(cands@);
                assert(names_model(cands@) =~= row_keys(f2m));
                assert(rentries_model(lo_docs@) == render_fields(lom));
                assert(rentries_model(lo_docs@)[0] == (lo_docs@[0].0@, lo_docs@[0].1@));
                assert(render_fields(lom)[0] == (
                    lom[0].0,
                    render_model(lom[0].1, Parens::Unnecessary),
                ));
                assert(lo_docs@[0].0@ == lom[0].0);
                assert(problems_model(ps@) =~= seq![
                    ProblemModel::FieldTypo(lom[0].0, row_keys(f2m)),
                ]);
            }
            Status::Different(ps)
        } else {
            Status::Similar
        }
    } else if fixed1 && !fixed2 {
        if ro_docs.len() > 0 {
            let cands = keys_of(fields1);
            let mut ps: Vec<Problem> = Vec::new();
            ps.push(Problem::FieldTypo(clone_name(&ro_docs[0].0), cands));
            proof {
                lemma_row_keys(f1m);
                lemma_names_model(cands@);
                assert(names_model(cands@) =~= row_keys(f1m));
                assert(rentries_model(ro_docs@) == render_fields(rom));
                assert(rentries_model(ro_docs@)[0] == (ro_docs@[0].0@, ro_docs@[0].1@));
                assert(render_fields(rom)[0] == (
                    rom[0].0,
                    render_model(rom[0].1, Parens::Unnecessary),
                ));
                assert(ro_docs@[0].0@ == rom[0].0);
                assert(problems_model(ps@) =~= seq![
                    ProblemModel::FieldTypo(rom[0].0, row_keys(f1m)),
                ]);
            }
            Status::Different(ps)
        } else {
            Status::Similar
        }
    } else {
        Status::Similar
    };
    proof {
        assert(verdict@ == verdict_status_fields(row_verdict(f1m, ext1@, f2m, ext2@)));
    }
    let all_shared = lo_docs.len() == 0 && ro_docs.len() == 0;
    if !all_shared {
        st.merge(empty_different());
    }
    st.merge(verdict);
    st.merge(ext_to_status(ext1, ext2));
    let ghost sh_full = record_shared(f1m, f2m);
    let mut lefts = shared_l;
    let mut lo_docs = lo_docs;
    lefts.append(&mut lo_docs);
    let mut rights = shared_r;
    let mut ro_docs = ro_docs;
    rights.append(&mut ro_docs);
    proof {
        assert(rentries_model(lefts@) =~= sh_full.lefts + render_fields(lom));
        assert(rentries_model(rights@) =~= sh_full.rights + render_fields(rom));
    }
    let ghost lefts_pre = lefts@;
    let ghost rights_pre = rights@;
    let sorted_l = sort_by_name(lefts);
    let sorted_r = sort_by_name(rights);
    proof {
        lemma_sort_bridge_r(lefts_pre);
        lemma_sort_bridge_r(rights_pre);
    }
    let left_doc = record(sorted_l, ext_to_doc(ext1));
    let right_doc = record(sorted_r, ext_to_doc(ext2));
    Diff { left: left_doc, right: right_doc, status: st }
}

/// Compares two tag-union rows: shared payloads pairwise, exclusive tags
/// rendered as they stand, classified exactly as records are.
pub fn diff_tag_union(
    tags1: &Vec<(Name, Vec<ErrorType>)>,
    ext1: &TypeExt,
    tags2: &Vec<(Name, Vec<ErrorType>)>,
    ext2: &TypeExt,
) -> (r: Diff<Vec<u8>>)
    ensures
        diff_matches(
            r,
            tag_row_model(tags_model(tags1@), ext1@, tags_model(tags2@), ext2@),
        ),
    decreases tags1, 2int,
{
    let ghost g1m = tags_model(tags1@);
    let ghost g2m = tags_model(tags2@);
    proof {
        lemma_tags_model(tags1@);
        lemma_tags_model(tags2@);
    }
    let mut shared_l: Vec<(Name, Vec<Vec<u8>>)> = Vec::new();
    let mut shared_r: Vec<(Name, Vec<Vec<u8>>)> = Vec::new();
    let mut st = Status::Similar;
    let mut lo_docs: Vec<(Name, Vec<Vec<u8>>)> = Vec::new();
    let mut i: usize = 0;
    while i < tags1.len()
        invariant
            i <= tags1@.len(),
            g1m == tags_model(tags1@),
            g2m == tags_model(tags2@),
            g1m.len() == tags1@.len(),
            g2m.len() == tags2@.len(),
            forall|j: int|
                0 <= j < tags1@.len() ==> g1m[j] == (tags1@[j].0@, list_model(tags1@[j].1@)),
            forall|j: int|
                0 <= j < tags2@.len() ==> g2m[j] == (tags2@[j].0@, list_model(tags2@[j].1@)),
            tentries_model(shared_l@) == tag_shared(g1m.take(i as int), g2m).lefts,
            tentries_model(shared_r@) == tag_shared(g1m.take(i as int), g2m).rights,
            st@ == tag_shared(g1m.take(i as int), g2m).status,
            tentries_model(lo_docs@) == render_tags(
                only_of(g1m.take(i as int), g2m),
                Parens::Unnecessary,
            ),
        decreases tags1@.len() - i,
    {
        let ghost prefix = g1m.take(i as int);
        let ghost cur = g1m.take(i + 1 as int);
        proof {
            assert(cur.drop_last() =~= prefix);
            assert(cur.last() == g1m[i as int]);
        }
        match find_key(tags2, &tags1[i].0) {
            Option::Some(j) => {
                proof {
                    assert(forall|x: int| 0 <= x < j ==> g2m[x].0 != tags1@[i as int].0@);
                    lemma_lookup_at(g2m, tags1@[i as int].0@, j as int);
                }
                let d = traverse(Parens::Unnecessary, &tags1[i].1, &tags2[j].1);
                shared_l.push((clone_name(&tags1[i].0), d.left));
                shared_r.push((clone_name(&tags1[i].0), d.right));
                st.merge(d.status);
                proof {
                    assert(tentries_model(shared_l@) =~= tag_shared(cur, g2m).lefts);
                    assert(tentries_model(shared_r@) =~= tag_shared(cur, g2m).rights);
                    assert(only_of(cur, g2m) == only_of(prefix, g2m));
                }
            },
            Option::None => {
                proof {
                    assert(forall|x: int| 0 <= x < g2m.len() ==> g2m[x].0 != tags1@[i as int].0@);
                    lemma_lookup_none(g2m, tags1@[i as int].0@);
                }
                let docs = render_args(Parens::Unnecessary, &tags1[i].1);
                lo_docs.push((clone_name(&tags1[i].0), docs));
                proof {
                    let lo_pre = only_of(prefix, g2m);
                    let lo_cur = only_of(cur, g2m);
                    assert(lo_cur == lo_pre.push(g1m[i as int]));
                    assert(lo_cur.drop_last() =~= lo_pre);
                    assert(lo_cur.last() == g1m[i as int]);
                    assert(tentries_model(lo_docs@) =~= render_tags(lo_cur, Parens::Unnecessary));
                    assert(tag_shared(cur, g2m) == tag_shared(prefix, g2m));
                }
            },
        }
        i = i + 1;
    }
    proof {
        assert(g1m.take(tags1@.len() as int) =~= g1m);
    }
    let mut ro_docs: Vec<(Name, Vec<Vec<u8>>)> = Vec::new();
    let mut k: usize = 0;
    while k < tags2.len()
        invariant
            k <= tags2@.len(),
            g1m == tags_model(tags1@),
            g2m == tags_model(tags2@),
            g1m.len() == tags1@.len(),
            g2m.len() == tags2@.len(),
            forall|j: int|
                0 <= j < tags1@.len() ==> g1m[j] == (tags1@[j].0@, list_model(tags1@[j].1@)),
            forall|j: int|
                0 <= j < tags2@.len() ==> g2m[j] == (tags2@[j].0@, list_model(tags2@[j].1@)),
            tentries_model(ro_docs@) == render_tags(
                only_of(g2m.take(k as int), g1m),
                Parens::Unnecessary,
            ),
        decreases tags2@.len() - k,
    {
        let ghost prefix = g2m.take(k as int);
        let ghost cur = g2m.take(k + 1 as int);
        proof {
            assert(cur.drop_last() =~= prefix);
            assert(cur.last() == g2m[k as int]);
        }
        match find_key(tags1, &tags2[k].0) {
            Option::Some(j) => {
                proof {
                    assert(forall|x: int| 0 <= x < j ==> g1m[x].0 != tags2@[k as int].0@);
                    lemma_lookup_at(g1m, tags2@[k as int].0@, j as int);
                    assert(only_of(cur, g1m) == only_of(prefix, g1m));
                }
            },
            Option::None => {
                proof {
                    assert(forall|x: int| 0 <= x < g1m.len() ==> g1m[x].0 != tags2@[k as int].0@);
                    lemma_lookup_none(g1m, tags2@[k as int].0@);
                }
                let docs = render_args(Parens::Unnecessary, &tags2[k].1);
                ro_docs.push((clone_name(&tags2[k].0), docs));
                proof {
                    let ro_pre = only_of(prefix, g1m);
                    let ro_cur = only_of(cur, g1m);
                    assert(ro_cur == ro_pre.push(g2m[k as int]));
                    assert(ro_cur.drop_last() =~= ro_pre);
                    assert(ro_cur.last() == g2m[k as int]);
                    assert(tentries_model(ro_docs@) =~= render_tags(ro_cur, Parens::Unnecessary));
                }
            },
        }
        k = k + 1;
    }
    proof {
        assert(g2m.take(tags2@.len() as int) =~= g2m);
    }
    let ghost lom = only_of(g1m, g2m);
    let ghost rom = only_of(g2m, g1m);
    proof {
        lemma_render_tags(lom, Parens::Unnecessary);
        lemma_render_tags(rom, Parens::Unnecessary);
        lemma_tentries_model(lo_docs@);
        lemma_tentries_model(ro_docs@);
    }
    let fixed1 = ext_has_fixed_fields(ext1);
    let fixed2 = ext_has_fixed_fields(ext2);
    let verdict: Status = if fixed1 && fixed2 {
        if lo_docs.len() > 0 {
            let cands = keys_of(tags2);
            let mut ps: Vec<Problem> = Vec::new();
            ps.push(Problem::TagTypo(clone_name(&lo_docs[0].0), cands));
            proof {
                lemma_row_keys(g2m);
                lemma_names_model(cands@);
                assert(names_model(cands@) =~= row_keys(g2m));
                assert(tentries_model(lo_docs@) == render_tags(lom, Parens::Unnecessary));
                assert(tentries_model(lo_docs@)[0] == (
                    lo_docs@[0].0@,
                    texts_model(lo_docs@[0].1@),
                ));
                assert(render_tags(lom, Parens::Unnecessary)[0] == (
                    lom[0].0,
                    render_list(lom[0].1, Parens::Unnecessary),
                ));
                assert(lo_docs@[0].0@ == lom[0].0);
                assert(problems_model(ps@) =~= seq![
                    ProblemModel::TagTypo(lom[0].0, row_keys(g2m)),
                ]);
            }
            Status::Different(ps)
        } else if ro_docs.len() > 0 {
            let ks = keys_of(&ro_docs);
            let mut ps: Vec<Problem> = Vec::new();
            ps.push(Problem::TagsMissing(ks));
            proof {
                lemma_row_keys(rom);
                lemma_names_model(ks@);
                assert(tentries_model(ro_docs@) == render_tags(rom, Parens::Unnecessary));
                assert forall|x: int| 0 <= x < ro_docs@.len() implies ks@[x]@ == rom[x].0 by {
                    assert(tentries_model(ro_docs@)[x] == (
                        ro_docs@[x].0@,
                        texts_model(ro_docs@[x].1@),
                    ));
                    assert(render_tags(rom, Parens::Unnecessary)[x] == (
                        rom[x].0,
                        render_list(rom[x].1, Parens::Unnecessary),
                    ));
                }
                assert(names_model(ks@) =~= row_keys(rom));
                assert(problems_model(ps@) =~= seq![ProblemModel::TagsMissing(row_keys(rom))]);
            }
            Status::Different(ps)
        } else {
            Status::Similar
        }
    } else if !fixed1 && fixed2 {
        if lo_docs.len() > 0 {
            let cands = keys_of(tags2);
            let mut ps: Vec<Problem> = Vec::new();
            ps.push(Problem::TagTypo(clone_name(&lo_docs[0].0), cands));
            proof {
                lemma_row_keys(g2m);
                lemma_names_model(cands@);
                assert(names_model(cands@) =~= row_keys(g2m));
                assert(tentries_model(lo_docs@) == render_tags(lom, Parens::Unnecessary));
                assert(tentries_model(lo_docs@)[0] == (
                    lo_docs@[0].0@,
                    texts_model(lo_docs@[0].1@),
                ));
                assert(render_tags(lom, Parens::Unnecessary)[0] == (
                    lom[0].0,
                    render_list(lom[0].1, Parens::Unnecessary),
                ));
                assert(lo_docs@[0].0@ == lom[0].0);
                assert(problems_model(ps@) =~= seq![
                    ProblemModel::TagTypo(lom[0].0, row_keys(g2m)),
                ]);
            }
            Status::Different(ps)
        } else {
            Status::Similar
        }
    } else if fixed1 && !fixed2 {
        if ro_docs.len() > 0 {
            let cands = keys_of(tags1);
            let mut ps: Vec<Problem> = Vec::new();
            ps.push(Problem::TagTypo(clone_name(&ro_docs[0].0), cands));
            proof {
                lemma_row_keys(g1m);
                lemma_names_model(cands@);
                assert(names_model(cands@) =~= row_keys(g1m));
                assert(tentries_model(ro_docs@) == render_tags(rom, Parens::Unnecessary));
                assert(tentries_model(ro_docs@)[0] == (
                    ro_docs@[0].0@,
                    texts_model(ro_docs@[0].1@),
                ));
                assert(render_tags(rom, Parens::Unnecessary)[0] == (
                    rom[0].0,
                    render_list(rom[0].1, Parens::Unnecessary),
                ));
                assert(ro_docs@[0].0@ == rom[0].0);
                assert(problems_model(ps@) =~= seq![
                    ProblemModel::TagTypo(rom[0].0, row_keys(g1m)),
                ]);
            }
            Status::Different(ps)
        } else {
            Status::Similar
        }
    } else {
        Status::Similar
    };
    proof {
        assert(verdict@ == verdict_status_tags(row_verdict(g1m, ext1@, g2m, ext2@)));
    }
    let all_shared = lo_docs.len() == 0 && ro_docs.len() == 0;
    if !all_shared {
        st.merge(empty_different());
    }
    st.merge(verdict);
    st.merge(ext_to_status(ext1, ext2));
    let ghost sh_full = tag_shared(g1m, g2m);
    let mut lefts = shared_l;
    let mut lo_docs = lo_docs;
    lefts.append(&mut lo_docs);
    let mut rights = shared_r;
    let mut ro_docs = ro_docs;
    rights.append(&mut ro_docs);
    proof {
        assert(tentries_model(lefts@) =~= sh_full.lefts + render_tags(lom, Parens::Unnecessary));
        assert(tentries_model(rights@) =~= sh_full.rights + render_tags(rom, Parens::Unnecessary));
    }
    let ghost lefts_pre = lefts@;
    let ghost rights_pre = rights@;
    let sorted_l = sort_by_name(lefts);
    let sorted_r = sort_by_name(rights);
    proof {
        lemma_sort_bridge_t(lefts_pre);
        lemma_sort_bridge_t(rights_pre);
    }
    let left_doc = tag_union(sorted_l, ext_to_doc(ext1));
    let right_doc = tag_union(sorted_r, ext_to_doc(ext2));
    Diff { left: left_doc, right: right_doc, status: st }
}

/// Compares two types in lock-step, producing a rendered document for each
/// side and the accumulated status.
pub fn to_diff(parens: Parens, type1: &ErrorType, type2: &ErrorType) -> (r: Diff<Vec<u8>>)
    ensures
        diff_matches(r, diff_model(type1@, type2@, parens)),
    decreases type1, 2int,
{
    match (type1, type2) {
        (ErrorType::Error, ErrorType::Error) => same(parens, type1),
        (ErrorType::Infinite, ErrorType::Infinite) => same(parens, type1),
        (ErrorType::FlexVar(x), ErrorType::FlexVar(y)) => {
            if name_eq(x, y) {
                same(parens, type1)
            } else {
                wholesale(type1, type2)
            }
        },
        (ErrorType::RigidVar(x), ErrorType::RigidVar(y)) => {
            if name_eq(x, y) {
                same(parens, type1)
            } else {
                wholesale(type1, type2)
            }
        },
        (ErrorType::Function(args1, ret1), ErrorType::Function(args2, ret2)) => {
            proof {
                lemma_list_model(args1@);
                lemma_list_model(args2@);
            }
            if args1.len() == args2.len() {
                let ad = traverse(Parens::InFn, args1, args2);
                let rd = to_diff(Parens::InFn, &**ret1, &**ret2);
                let Diff { left: al, right: ar, status: mut st } = ad;
                st.merge(rd.status);
                let left = function(parens, al, rd.left);
                let right = function(parens, ar, rd.right);
                Diff { left, right, status: st }
            } else {
                let left = to_doc(Parens::InFn, type1);
                let right = to_doc(Parens::InFn, type2);
                let mut ps: Vec<Problem> = Vec::new();
                ps.push(Problem::ArityMismatch(args1.len(), args2.len()));
                proof {
                    assert(problems_model(ps@) =~= seq![
                        ProblemModel::ArityMismatch(
                            list_model(args1@).len(),
                            list_model(args2@).len(),
                        ),
                    ]);
                }
                Diff { left, right, status: Status::Different(ps) }
            }
        },
        (ErrorType::Apply(n1, args1), ErrorType::Apply(n2, args2)) => {
            proof {
                lemma_list_model(args1@);
                lemma_list_model(args2@);
            }
            if name_eq(n1, n2) && args1.len() == args2.len() {
                let ad = traverse(Parens::InTypeParam, args1, args2);
                let Diff { left: al, right: ar, status: st } = ad;
                let left = apply(parens, clone_name(n1), al);
                let right = apply(parens, clone_name(n2), ar);
                Diff { left, right, status: st }
            } else {
                wholesale(type1, type2)
            }
        },
        (ErrorType::Alias(n1, args1, _), ErrorType::Alias(n2, args2, _)) => {
            proof {
                lemma_fields_model(args1@);
                lemma_fields_model(args2@);
            }
            if name_eq(n1, n2) && args1.len() == args2.len() {
                let ad = traverse_entry_values(args1, args2);
                let Diff { left: al, right: ar, status: st } = ad;
                let left = apply(parens, clone_name(n1), al);
                let right = apply(parens, clone_name(n2), ar);
                Diff { left, right, status: st }
            } else {
                wholesale(type1, type2)
            }
        },
        (ErrorType::Record(f1, e1), ErrorType::Record(f2, e2)) => diff_record(f1, e1, f2, e2),
        (ErrorType::TagUnion(g1, e1), ErrorType::TagUnion(g2, e2)) => diff_tag_union(
            g1,
            e1,
            g2,
            e2,
        ),
        _ => wholesale(type1, type2),
    }
}

/// Law: two rigid row extensions agree exactly when their names do; a
/// disagreement names the left variable and embeds the right one as a rigid
/// type.
pub proof fn lemma_rigid_extension_conflict(x: Seq<u8>, y: Seq<u8>)
    ensures
        x == y ==> ext_status(ExtModel::RigidOpen(x), ExtModel::RigidOpen(y))
            == StatusModel::Similar,
        x != y ==> ext_status(ExtModel::RigidOpen(x), ExtModel::RigidOpen(y))
            == StatusModel::Different(
            seq![ProblemModel::BadRigidVar(x, TypeModel::RigidVar(y))],
        ),
{
}

proof fn lemma_diff_list_reflexive(s: Seq<TypeModel>, pos: Parens)
    requires
        crate::types::wf_list(s),
    ensures
        diff_list(s, s, pos).status == StatusModel::Similar,
        diff_list(s, s, pos).lefts == diff_list(s, s, pos).rights,
    decreases s, 0int, 0int,
{
    crate::types::lemma_wf_list_char(s);
    let n = s.len() as int;
    if n > 0 {
        crate::types::lemma_wf_list_char(s.take(n - 1));
        assert(forall|i: int| 0 <= i < n - 1 ==> #[trigger] s.take(n - 1)[i] == s[i]);
        lemma_diff_list_reflexive(s.take(n - 1), pos);
        lemma_diff_reflexive(s[n - 1], pos);
    }
}

proof fn lemma_entry_values_reflexive(s: Seq<(Seq<u8>, TypeModel)>)
    requires
        crate::types::wf_entries(s),
    ensures
        diff_entry_values(s, s).status == StatusModel::Similar,
        diff_entry_values(s, s).lefts == diff_entry_values(s, s).rights,
    decreases s, 0int, 0int,
{
    crate::types::lemma_wf_entries_char(s);
    let n = s.len() as int;
    if n > 0 {
        crate::types::lemma_wf_entries_char(s.take(n - 1));
        assert(forall|i: int| 0 <= i < n - 1 ==> #[trigger] s.take(n - 1)[i] == s[i]);
        lemma_entry_values_reflexive(s.take(n - 1));
        lemma_diff_reflexive(s[n - 1].1, Parens::InTypeParam);
    }
}

proof fn lemma_record_shared_reflexive(k: int, f: Seq<(Seq<u8>, TypeModel)>)
    requires
        0 <= k <= f.len(),
        crate::types::distinct_keys(f),
        forall|i: int| 0 <= i < f.len() ==> crate::types::wf_model(#[trigger] f[i].1),
    ensures
        record_shared(f.take(k), f).status == StatusModel::Similar,
        record_shared(f.take(k), f).lefts == record_shared(f.take(k), f).rights,
    decreases f, 0int, k,
{
    if k > 0 {
        lemma_record_shared_reflexive(k - 1, f);
        let g = f.take(k);
        assert(g.drop_last() =~= f.take(k - 1));
        assert(g.last() == f[k - 1]);
        assert(forall|j: int| 0 <= j < k - 1 ==> #[trigger] f[j].0 != f[k - 1].0);
        lemma_lookup_at(f, f[k - 1].0, k - 1);
        lemma_diff_reflexive(f[k - 1].1, Parens::Unnecessary);
    }
}

proof fn lemma_tag_shared_reflexive(k: int, g: Seq<(Seq<u8>, Seq<TypeModel>)>)
    requires
        0 <= k <= g.len(),
        crate::types::distinct_keys(g),
        forall|i: int| 0 <= i < g.len() ==> crate::types::wf_list(#[trigger] g[i].1),
    ensures
        tag_shared(g.take(k), g).status == StatusModel::Similar,
        tag_shared(g.take(k), g).lefts == tag_shared(g.take(k), g).rights,
    decreases g, 1int, k,
{
    if k > 0 {
        lemma_tag_shared_reflexive(k - 1, g);
        let p = g.take(k);
        assert(p.drop_last() =~= g.take(k - 1));
        assert(p.last() == g[k - 1]);
        assert(forall|j: int| 0 <= j < k - 1 ==> #[trigger] g[j].0 != g[k - 1].0);
        lemma_lookup_at(g, g[k - 1].0, k - 1);
        lemma_diff_list_reflexive(g[k - 1].1, Parens::Unnecessary);
    }
}

/// Law: a well-formed type compared with itself is similar, and both sides
/// render to the same document, in every position.
pub proof fn lemma_diff_reflexive(t: TypeModel, pos: Parens)
    requires
        crate::types::wf_model(t),
    ensures
        diff_model(t, t, pos).status == StatusModel::Similar,
        diff_model(t, t, pos).left == diff_model(t, t, pos).right,
    decreases t, 2int, 0int,
{
    match t {
        TypeModel::Function(args, ret) => {
            lemma_diff_list_reflexive(args, Parens::InFn);
            lemma_diff_reflexive(*ret, Parens::InFn);
        },
        TypeModel::Apply(_, args) => {
            lemma_diff_list_reflexive(args, Parens::InTypeParam);
        },
        TypeModel::Alias(_, args, _) => {
            lemma_entry_values_reflexive(args);
        },
        TypeModel::Record(f, e) => {
            crate::types::lemma_wf_entries_char(f);
            lemma_record_shared_reflexive(f.len() as int, f);
            crate::rows::lemma_only_of_self(f.len() as int, f);
            assert(f.take(f.len() as int) =~= f);
            let sh = record_shared(f, f);
            assert(only_of(f, f) == Seq::<(Seq<u8>, TypeModel)>::empty());
            assert(sh.lefts + render_fields(only_of(f, f)) =~= sh.lefts);
            assert(sh.rights + render_fields(only_of(f, f)) =~= sh.rights);
            assert(record_shared(f, f).status == StatusModel::Similar);
            assert(record_shared(f, f).lefts == record_shared(f, f).rights);
            assert(ext_status(e, e) == StatusModel::Similar);
            assert(verdict_status_fields(row_verdict(f, e, f, e)) == StatusModel::Similar);
            assert(record_row_model(f, e, f, e).status == StatusModel::Similar);
            assert(record_row_model(f, e, f, e).left == record_row_model(f, e, f, e).right);
        },
        TypeModel::TagUnion(g, e) => {
            crate::types::lemma_wf_tag_entries_char(g);
            lemma_tag_shared_reflexive(g.len() as int, g);
            crate::rows::lemma_only_of_self(g.len() as int, g);
            assert(g.take(g.len() as int) =~= g);
            let sh = tag_shared(g, g);
            assert(only_of(g, g) == Seq::<(Seq<u8>, Seq<TypeModel>)>::empty());
            assert(sh.lefts + render_tags(only_of(g, g), Parens::Unnecessary) =~= sh.lefts);
            assert(sh.rights + render_tags(only_of(g, g), Parens::Unnecessary) =~= sh.rights);
            assert(tag_shared(g, g).status == StatusModel::Similar);
            assert(tag_shared(g, g).lefts == tag_shared(g, g).rights);
            assert(ext_status(e, e) == StatusModel::Similar);
            assert(verdict_status_tags(row_verdict(g, e, g, e)) == StatusModel::Similar);
            assert(tag_row_model(g, e, g, e).status == StatusModel::Similar);
            assert(tag_row_model(g, e, g, e).left == tag_row_model(g, e, g, e).right);
        },
        _ => {},
    }
}

} // verus!
