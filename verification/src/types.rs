//! The type representation the engine operates on, together with its
//! mathematical model.
//!
//! The executable representation keeps rows (record fields, tag-union tags) as
//! vectors of name-keyed entries in declaration order; the model mirrors the
//! same shape over `Seq`, and every contract in this crate speaks of the model.

use crate::name::Name;
use vstd::prelude::*;

verus! {

/// Marks whether a row is sealed (`Closed`), open and unconstrained
/// (`FlexOpen`), or open but pinned to a user-named variable (`RigidOpen`).
/// An extension never appears outside a row type.
#[derive(Debug, PartialEq, Eq)]
pub enum TypeExt {
    Closed,
    FlexOpen(Name),
    RigidOpen(Name),
}

/// The closed, recursive grammar of comparable types.
///
/// Rows are kept in declaration order; classification reads them in that
/// order, while rendering sorts them by name.
#[derive(Debug, PartialEq, Eq)]
pub enum ErrorType {
    /// A type that recurses without bound (occurs-check artifact).
    Infinite,
    /// A type that could not be determined.
    Error,
    /// An unbound type variable, compared by name only.
    FlexVar(Name),
    /// A user-annotated type variable, compared by name only.
    RigidVar(Name),
    /// Argument types and the return type.
    Function(Vec<ErrorType>, Box<ErrorType>),
    /// A named type applied to arguments.
    Apply(Name, Vec<ErrorType>),
    /// A named alias with labelled arguments and its expansion; comparison
    /// and rendering use the name and arguments, never the expansion.
    Alias(Name, Vec<(Name, ErrorType)>, Box<ErrorType>),
    /// Record fields and the row extension.
    Record(Vec<(Name, ErrorType)>, TypeExt),
    /// Tags, each with an ordered payload, and the row extension.
    TagUnion(Vec<(Name, Vec<ErrorType>)>, TypeExt),
    /// A tag union together with its recursion variable.
    RecursiveTagUnion(Box<ErrorType>, Vec<(Name, Vec<ErrorType>)>, TypeExt),
    /// A literal boolean-typed attribute marker.
    Boolean(bool),
}

/// Model of a row extension.
#[verifier::ext_equal]
pub enum ExtModel {
    Closed,
    FlexOpen(Seq<u8>),
    RigidOpen(Seq<u8>),
}

/// Model of a type representation: the same grammar over `Seq`.
#[verifier::ext_equal]
pub enum TypeModel {
    Infinite,
    Error,
    FlexVar(Seq<u8>),
    RigidVar(Seq<u8>),
    Function(Seq<TypeModel>, Box<TypeModel>),
    Apply(Seq<u8>, Seq<TypeModel>),
    Alias(Seq<u8>, Seq<(Seq<u8>, TypeModel)>, Box<TypeModel>),
    Record(Seq<(Seq<u8>, TypeModel)>, ExtModel),
    TagUnion(Seq<(Seq<u8>, Seq<TypeModel>)>, ExtModel),
    RecursiveTagUnion(Box<TypeModel>, Seq<(Seq<u8>, Seq<TypeModel>)>, ExtModel),
    Boolean(bool),
}

impl TypeExt {
    /// The model of an extension.
    pub open spec fn model(self) -> ExtModel {
        match self {
            TypeExt::Closed => ExtModel::Closed,
            TypeExt::FlexOpen(n) => ExtModel::FlexOpen(n@),
            TypeExt::RigidOpen(n) => ExtModel::RigidOpen(n@),
        }
    }
}

impl View for TypeExt {
    type V = ExtModel;

    open spec fn view(&self) -> ExtModel {
        self.model()
    }
}

/// The model of a type representation.
pub open spec fn type_model(t: ErrorType) -> TypeModel
    decreases t,
{
    match t {
        ErrorType::Infinite => TypeModel::Infinite,
        ErrorType::Error => TypeModel::Error,
        ErrorType::FlexVar(n) => TypeModel::FlexVar(n@),
        ErrorType::RigidVar(n) => TypeModel::RigidVar(n@),
        ErrorType::Function(args, ret) => TypeModel::Function(
            list_model(args@),
            Box::new(type_model(*ret)),
        ),
        ErrorType::Apply(n, args) => TypeModel::Apply(n@, list_model(args@)),
        ErrorType::Alias(n, args, expansion) => TypeModel::Alias(
            n@,
            fields_model(args@),
            Box::new(type_model(*expansion)),
        ),
        ErrorType::Record(fields, ext) => TypeModel::Record(fields_model(fields@), ext@),
        ErrorType::TagUnion(tags, ext) => TypeModel::TagUnion(tags_model(tags@), ext@),
        ErrorType::RecursiveTagUnion(rec, tags, ext) => TypeModel::RecursiveTagUnion(
            Box::new(type_model(*rec)),
            tags_model(tags@),
            ext@,
        ),
        ErrorType::Boolean(b) => TypeModel::Boolean(b),
    }
}

/// The model of a sequence of types.
pub open spec fn list_model(s: Seq<ErrorType>) -> Seq<TypeModel>
    decreases s,
{
    if s.len() == 0 {
        Seq::empty()
    } else {
        list_model(s.drop_last()).push(type_model(s.last()))
    }
}

/// The model of a sequence of name-keyed fields.
pub open spec fn fields_model(s: Seq<(Name, ErrorType)>) -> Seq<(Seq<u8>, TypeModel)>
    decreases s,
{
    if s.len() == 0 {
        Seq::empty()
    } else {
        fields_model(s.drop_last()).push((s.last().0@, type_model(s.last().1)))
    }
}

/// The model of a sequence of tags with their payloads.
pub open spec fn tags_model(s: Seq<(Name, Vec<ErrorType>)>) -> Seq<(Seq<u8>, Seq<TypeModel>)>
    decreases s,
{
    if s.len() == 0 {
        Seq::empty()
    } else {
        tags_model(s.drop_last()).push((s.last().0@, list_model(s.last().1@)))
    }
}

impl View for ErrorType {
    type V = TypeModel;

    open spec fn view(&self) -> TypeModel {
        type_model(*self)
    }
}

pub proof fn lemma_list_model(s: Seq<ErrorType>)
    ensures
        list_model(s).len() == s.len(),
        forall|i: int| 0 <= i < s.len() ==> list_model(s)[i] == type_model(s[i]),
    decreases s.len(),
{
    if s.len() > 0 {
        lemma_list_model(s.drop_last());
    }
}

pub proof fn lemma_fields_model(s: Seq<(Name, ErrorType)>)
    ensures
        fields_model(s).len() == s.len(),
        forall|i: int| 0 <= i < s.len() ==> fields_model(s)[i] == (
        s[i].0@,
        type_model(s[i].1),
        ),
    decreases s.len(),
{
    if s.len() > 0 {
        lemma_fields_model(s.drop_last());
    }
}

pub proof fn lemma_tags_model(s: Seq<(Name, Vec<ErrorType>)>)
    ensures
        tags_model(s).len() == s.len(),
        forall|i: int| 0 <= i < s.len() ==> tags_model(s)[i] == (
        s[i].0@,
        list_model(s[i].1@),
        ),
    decreases s.len(),
{
    if s.len() > 0 {
        lemma_tags_model(s.drop_last());
    }
}

/// No two entries of a name-keyed row share a key.
pub open spec fn distinct_keys<V>(s: Seq<(Seq<u8>, V)>) -> bool {
    forall|i: int, j: int| 0 <= i < j < s.len() ==> s[i].0 != s[j].0
}

/// Well-formedness of a model: every row has distinct keys, recursively.
pub open spec fn wf_model(t: TypeModel) -> bool
    decreases t,
{
    match t {
        TypeModel::Function(args, ret) => wf_list(args) && wf_model(*ret),
        TypeModel::Apply(_, args) => wf_list(args),
        TypeModel::Alias(_, args, expansion) => wf_entries(args) && wf_model(*expansion),
        TypeModel::Record(fields, _) => distinct_keys(fields) && wf_entries(fields),
        TypeModel::TagUnion(tags, _) => distinct_keys(tags) && wf_tag_entries(tags),
        TypeModel::RecursiveTagUnion(rec, tags, _) => wf_model(*rec) && distinct_keys(tags)
            && wf_tag_entries(tags),
        _ => true,
    }
}

/// Well-formedness of every type in a sequence.
pub open spec fn wf_list(s: Seq<TypeModel>) -> bool
    decreases s,
{
    if s.len() == 0 {
        true
    } else {
        wf_list(s.drop_last()) && wf_model(s.last())
    }
}

/// Well-formedness of every value of a keyed row.
pub open spec fn wf_entries(s: Seq<(Seq<u8>, TypeModel)>) -> bool
    decreases s,
{
    if s.len() == 0 {
        true
    } else {
        wf_entries(s.drop_last()) && wf_model(s.last().1)
    }
}

/// Well-formedness of every payload of a tag row.
pub open spec fn wf_tag_entries(s: Seq<(Seq<u8>, Seq<TypeModel>)>) -> bool
    decreases s,
{
    if s.len() == 0 {
        true
    } else {
        wf_tag_entries(s.drop_last()) && wf_list(s.last().1)
    }
}

impl ErrorType {
    /// Well-formedness of a type representation.
    pub open spec fn wf(self) -> bool {
        wf_model(type_model(self))
    }
}

/// A list is well-formed exactly when each of its types is.
pub proof fn lemma_wf_list_char(s: Seq<TypeModel>)
    ensures
        wf_list(s) <==> (forall|i: int| 0 <= i < s.len() ==> wf_model(s[i])),
    decreases s.len(),
{
    if s.len() > 0 {
        lemma_wf_list_char(s.drop_last());
        if forall|i: int| 0 <= i < s.drop_last().len() ==> wf_model(s.drop_last()[i]) {
            assert(forall|i: int| 0 <= i < s.len() - 1 ==> s[i] == s.drop_last()[i]);
        }
    }
}

/// A keyed row is well-formed exactly when each of its values is.
pub proof fn lemma_wf_entries_char(s: Seq<(Seq<u8>, TypeModel)>)
    ensures
        wf_entries(s) <==> (forall|i: int| 0 <= i < s.len() ==> wf_model(s[i].1)),
    decreases s.len(),
{
    if s.len() > 0 {
        lemma_wf_entries_char(s.drop_last());
        if forall|i: int| 0 <= i < s.drop_last().len() ==> wf_model(s.drop_last()[i].1) {
            assert(forall|i: int| 0 <= i < s.len() - 1 ==> s[i] == s.drop_last()[i]);
        }
    }
}

/// A tag row is well-formed exactly when each of its payloads is.
pub proof fn lemma_wf_tag_entries_char(s: Seq<(Seq<u8>, Seq<TypeModel>)>)
    ensures
        wf_tag_entries(s) <==> (forall|i: int| 0 <= i < s.len() ==> wf_list(s[i].1)),
    decreases s.len(),
{
    if s.len() > 0 {
        lemma_wf_tag_entries_char(s.drop_last());
        if forall|i: int| 0 <= i < s.drop_last().len() ==> wf_list(s.drop_last()[i].1) {
            assert(forall|i: int| 0 <= i < s.len() - 1 ==> s[i] == s.drop_last()[i]);
        }
    }
}

} // verus!
