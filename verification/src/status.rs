//! The `Similar` / `Different` classification with its problem payload, and
//! the single accumulation law used throughout the engine.

use crate::name::Name;
use crate::types::{ErrorType, TypeModel, type_model};
use vstd::prelude::*;

verus! {

/// A specific, named reason two types differ.
#[derive(Debug, PartialEq, Eq)]
pub enum Problem {
    /// Argument counts found and expected.
    ArityMismatch(usize, usize),
    /// A field present on one side only, with the other side's fields as
    /// candidates.
    FieldTypo(Name, Vec<Name>),
    /// Fields the right side has and the left side lacks.
    FieldsMissing(Vec<Name>),
    /// A tag present on one side only, with the other side's tags as
    /// candidates.
    TagTypo(Name, Vec<Name>),
    /// Tags the right side has and the left side lacks.
    TagsMissing(Vec<Name>),
    /// A rigid row variable met a conflicting type.
    BadRigidVar(Name, ErrorType),
}

/// Model of a diagnostic problem.
#[verifier::ext_equal]
pub enum ProblemModel {
    ArityMismatch(nat, nat),
    FieldTypo(Seq<u8>, Seq<Seq<u8>>),
    FieldsMissing(Seq<Seq<u8>>),
    TagTypo(Seq<u8>, Seq<Seq<u8>>),
    TagsMissing(Seq<Seq<u8>>),
    BadRigidVar(Seq<u8>, TypeModel),
}

/// The model of a list of names.
pub open spec fn names_model(s: Seq<Name>) -> Seq<Seq<u8>> {
    s.map_values(|n: Name| n@)
}

impl Problem {
    /// The model of a problem.
    pub open spec fn model(self) -> ProblemModel {
        match self {
            Problem::ArityMismatch(found, expected) => ProblemModel::ArityMismatch(
                found as nat,
                expected as nat,
            ),
            Problem::FieldTypo(n, cs) => ProblemModel::FieldTypo(n@, names_model(cs@)),
            Problem::FieldsMissing(ns) => ProblemModel::FieldsMissing(names_model(ns@)),
            Problem::TagTypo(n, cs) => ProblemModel::TagTypo(n@, names_model(cs@)),
            Problem::TagsMissing(ns) => ProblemModel::TagsMissing(names_model(ns@)),
            Problem::BadRigidVar(n, t) => ProblemModel::BadRigidVar(n@, type_model(t)),
        }
    }
}

impl View for Problem {
    type V = ProblemModel;

    open spec fn view(&self) -> ProblemModel {
        self.model()
    }
}

/// The model of a list of problems.
pub open spec fn problems_model(s: Seq<Problem>) -> Seq<ProblemModel> {
    s.map_values(|p: Problem| p.model())
}

/// `Similar` when no difference was diagnosed; `Different` carries the
/// accumulated problems (possibly none).
#[derive(Debug, PartialEq, Eq)]
pub enum Status {
    Similar,
    Different(Vec<Problem>),
}

/// Model of a comparison status.
#[verifier::ext_equal]
pub enum StatusModel {
    Similar,
    Different(Seq<ProblemModel>),
}

impl View for Status {
    type V = StatusModel;

    open spec fn view(&self) -> StatusModel {
        match self {
            Status::Similar => StatusModel::Similar,
            Status::Different(ps) => StatusModel::Different(problems_model(ps@)),
        }
    }
}

/// The accumulation law: `Similar` is the identity, and two `Different`s
/// concatenate their problems left-then-right.
pub open spec fn merge_model(a: StatusModel, b: StatusModel) -> StatusModel {
    match a {
        StatusModel::Similar => b,
        StatusModel::Different(p1) => match b {
            StatusModel::Similar => StatusModel::Different(p1),
            StatusModel::Different(p2) => StatusModel::Different(p1 + p2),
        },
    }
}

impl Status {
    /// Absorbs `other` into `self` under the accumulation law.
    pub fn merge(&mut self, other: Status)
        ensures
            final(self)@ == merge_model(old(self)@, other@),
    {
        let mut taken = Status::Similar;
        core::mem::swap(self, &mut taken);
        match taken {
            Status::Similar => {
                *self = other;
            },
            Status::Different(mut p1) => {
                match other {
                    Status::Similar => {
                        *self = Status::Different(p1);
                    },
                    Status::Different(mut p2) => {
                        let ghost old_p1 = p1@;
                        let ghost old_p2 = p2@;
                        p1.append(&mut p2);
                        proof {
                            assert(problems_model(old_p1 + old_p2) =~= problems_model(old_p1)
                                + problems_model(old_p2));
                        }
                        *self = Status::Different(p1);
                    },
                }
            },
        }
    }
}

/// Law: the accumulation is associative, so a fixed left-to-right traversal
/// order concatenates problems the same way however the merges are grouped.
pub proof fn lemma_merge_associative(a: StatusModel, b: StatusModel, c: StatusModel)
    ensures
        merge_model(merge_model(a, b), c) == merge_model(a, merge_model(b, c)),
{
    match (a, b, c) {
        (StatusModel::Different(p1), StatusModel::Different(p2), StatusModel::Different(p3)) => {
            assert((p1 + p2) + p3 =~= p1 + (p2 + p3));
        },
        _ => {},
    }
}

/// Law: `Similar` is the identity element of the accumulation.
pub proof fn lemma_merge_identity(a: StatusModel)
    ensures
        merge_model(StatusModel::Similar, a) == a,
        merge_model(a, StatusModel::Similar) == a,
{
}

/// The names model, name by name.
pub proof fn lemma_names_model(s: Seq<Name>)
    ensures
        names_model(s).len() == s.len(),
        forall|i: int| 0 <= i < s.len() ==> names_model(s)[i] == s[i]@,
{
}

} // verus!
