use type_diff::diff::{ext_to_diff, ext_to_status, to_diff};
use type_diff::render::Parens;
use type_diff::status::{Problem, Status};
use type_diff::types::{ErrorType, TypeExt};

fn name(s: &str) -> Vec<u8> {
    s.as_bytes().to_vec()
}

fn text(s: &str) -> Vec<u8> {
    s.as_bytes().to_vec()
}

fn apply0(s: &str) -> ErrorType {
    ErrorType::Apply(name(s), vec![])
}

#[test]
fn reflexive_comparison_is_similar() {
    let t = ErrorType::Record(
        vec![
            (name("z"), apply0("Int")),
            (name("a"), ErrorType::Function(vec![apply0("Str")], Box::new(apply0("Bool")))),
        ],
        TypeExt::RigidOpen(name("r")),
    );
    let d = to_diff(Parens::Unnecessary, &t, &t);
    assert_eq!(d.status, Status::Similar);
    assert_eq!(d.left, d.right);
}

#[test]
fn function_arity_mismatch_is_exact() {
    let f1 = ErrorType::Function(vec![apply0("A"), apply0("B")], Box::new(apply0("R")));
    let f2 = ErrorType::Function(vec![apply0("A")], Box::new(apply0("R")));
    let d = to_diff(Parens::Unnecessary, &f1, &f2);
    assert_eq!(d.status, Status::Different(vec![Problem::ArityMismatch(2, 1)]));
    assert_eq!(d.left, text("(A, B -> R)"));
    assert_eq!(d.right, text("(A -> R)"));
}

#[test]
fn fixed_row_typo_precedes_missing_fields() {
    let left = ErrorType::Record(
        vec![(name("a"), apply0("Int")), (name("b"), apply0("Str"))],
        TypeExt::Closed,
    );
    let right = ErrorType::Record(
        vec![(name("a"), apply0("Int")), (name("c"), apply0("Str"))],
        TypeExt::Closed,
    );
    let d = to_diff(Parens::Unnecessary, &left, &right);
    assert_eq!(
        d.status,
        Status::Different(vec![Problem::FieldTypo(name("b"), vec![name("a"), name("c")])])
    );
    assert_eq!(d.left, text("{ a : Int, b : Str }"));
    assert_eq!(d.right, text("{ a : Int, c : Str }"));

    let back = to_diff(Parens::Unnecessary, &right, &left);
    assert_eq!(
        back.status,
        Status::Different(vec![Problem::FieldTypo(name("c"), vec![name("a"), name("b")])])
    );
}

#[test]
fn open_left_row_reports_no_problem() {
    let open_left = ErrorType::Record(
        vec![(name("a"), apply0("Int"))],
        TypeExt::FlexOpen(name("r")),
    );
    let right = ErrorType::Record(
        vec![(name("a"), apply0("Int")), (name("b"), apply0("Str"))],
        TypeExt::Closed,
    );
    let d = to_diff(Parens::Unnecessary, &open_left, &right);
    // The open left side tolerates the extra field: no problem is reported,
    // though the uncovered exclusive key still marks the row as different.
    assert_eq!(d.status, Status::Different(vec![]));
    assert_eq!(d.left, text("{ a : Int }r"));
    assert_eq!(d.right, text("{ a : Int, b : Str }"));
}

#[test]
fn closed_left_row_reports_missing_fields() {
    let closed_left = ErrorType::Record(vec![(name("a"), apply0("Int"))], TypeExt::Closed);
    let right = ErrorType::Record(
        vec![(name("a"), apply0("Int")), (name("b"), apply0("Str"))],
        TypeExt::Closed,
    );
    let d = to_diff(Parens::Unnecessary, &closed_left, &right);
    assert_eq!(
        d.status,
        Status::Different(vec![Problem::FieldsMissing(vec![name("b")])])
    );
}

#[test]
fn rigid_extensions_conflict_by_name() {
    let s = ext_to_status(&TypeExt::RigidOpen(name("a")), &TypeExt::RigidOpen(name("b")));
    assert_eq!(
        s,
        Status::Different(vec![Problem::BadRigidVar(
            name("a"),
            ErrorType::RigidVar(name("b")),
        )])
    );
    let same = ext_to_status(&TypeExt::RigidOpen(name("a")), &TypeExt::RigidOpen(name("a")));
    assert_eq!(same, Status::Similar);
}

#[test]
fn rigid_extension_conflict_surfaces_in_record_diff() {
    let left = ErrorType::Record(vec![], TypeExt::RigidOpen(name("a")));
    let right = ErrorType::Record(vec![], TypeExt::RigidOpen(name("b")));
    let d = to_diff(Parens::Unnecessary, &left, &right);
    assert_eq!(
        d.status,
        Status::Different(vec![Problem::BadRigidVar(
            name("a"),
            ErrorType::RigidVar(name("b")),
        )])
    );
    assert_eq!(d.left, text("{}a"));
    assert_eq!(d.right, text("{}b"));
}

#[test]
fn ext_to_diff_carries_docs_and_status() {
    let d = ext_to_diff(&TypeExt::FlexOpen(name("r")), &TypeExt::Closed);
    assert_eq!(d.left, Some(name("r")));
    assert_eq!(d.right, None);
    assert_eq!(d.status, Status::Similar);
}

#[test]
fn merge_is_associative_in_order() {
    let p1 = Problem::ArityMismatch(1, 2);
    let p2 = Problem::ArityMismatch(3, 4);
    let mut grouped_left = Status::Similar;
    grouped_left.merge(Status::Different(vec![Problem::ArityMismatch(1, 2)]));
    grouped_left.merge(Status::Different(vec![Problem::ArityMismatch(3, 4)]));

    let mut inner = Status::Different(vec![Problem::ArityMismatch(1, 2)]);
    inner.merge(Status::Different(vec![Problem::ArityMismatch(3, 4)]));
    let mut grouped_right = Status::Similar;
    grouped_right.merge(inner);

    assert_eq!(grouped_left, Status::Different(vec![p1, p2]));
    assert_eq!(grouped_left, grouped_right);
}

#[test]
fn merge_keeps_similar_as_identity() {
    let mut s = Status::Different(vec![Problem::ArityMismatch(1, 2)]);
    s.merge(Status::Similar);
    assert_eq!(s, Status::Different(vec![Problem::ArityMismatch(1, 2)]));
    let mut t = Status::Similar;
    t.merge(Status::Similar);
    assert_eq!(t, Status::Similar);
}

#[test]
fn mismatched_shapes_fall_back_to_wholesale_render() {
    let found = apply0("Str");
    let expected = ErrorType::Apply(
        name("Task"),
        vec![
            ErrorType::Record(vec![], TypeExt::Closed),
            ErrorType::TagUnion(vec![], TypeExt::Closed),
        ],
    );
    let d = to_diff(Parens::Unnecessary, &found, &expected);
    assert_eq!(d.status, Status::Similar);
    assert_eq!(d.left, text("Str"));
    assert_eq!(d.right, text("Task {} []"));
}

#[test]
fn tag_typo_names_the_first_exclusive_tag() {
    let left = ErrorType::TagUnion(
        vec![(name("Red"), vec![]), (name("Green"), vec![])],
        TypeExt::Closed,
    );
    let right = ErrorType::TagUnion(
        vec![(name("Red"), vec![]), (name("Blue"), vec![])],
        TypeExt::Closed,
    );
    let d = to_diff(Parens::Unnecessary, &left, &right);
    assert_eq!(
        d.status,
        Status::Different(vec![Problem::TagTypo(
            name("Green"),
            vec![name("Red"), name("Blue")],
        )])
    );
    assert_eq!(d.left, text("[ Green, Red ]"));
    assert_eq!(d.right, text("[ Blue, Red ]"));
}

#[test]
fn tags_missing_lists_right_exclusive_tags() {
    let left = ErrorType::TagUnion(vec![(name("Red"), vec![])], TypeExt::Closed);
    let right = ErrorType::TagUnion(
        vec![(name("Red"), vec![]), (name("Blue"), vec![])],
        TypeExt::Closed,
    );
    let d = to_diff(Parens::Unnecessary, &left, &right);
    assert_eq!(
        d.status,
        Status::Different(vec![Problem::TagsMissing(vec![name("Blue")])])
    );
}

#[test]
fn shared_tag_payloads_are_compared_pairwise() {
    let left = ErrorType::TagUnion(
        vec![(
            name("Just"),
            vec![ErrorType::Function(vec![apply0("A")], Box::new(apply0("R")))],
        )],
        TypeExt::Closed,
    );
    let right = ErrorType::TagUnion(
        vec![(
            name("Just"),
            vec![ErrorType::Function(
                vec![apply0("A"), apply0("B")],
                Box::new(apply0("R")),
            )],
        )],
        TypeExt::Closed,
    );
    let d = to_diff(Parens::Unnecessary, &left, &right);
    assert_eq!(d.status, Status::Different(vec![Problem::ArityMismatch(1, 2)]));
}

#[test]
fn applications_with_same_name_diff_their_arguments() {
    let left = ErrorType::Apply(name("Pair"), vec![apply0("A"), apply0("B")]);
    let right = ErrorType::Apply(name("Pair"), vec![apply0("A"), apply0("C")]);
    let d = to_diff(Parens::Unnecessary, &left, &right);
    assert_eq!(d.status, Status::Similar);
    assert_eq!(d.left, text("Pair A B"));
    assert_eq!(d.right, text("Pair A C"));
}

#[test]
fn aliases_compare_by_argument_values() {
    let left = ErrorType::Alias(
        name("Opt"),
        vec![(name("item"), apply0("A"))],
        Box::new(apply0("Hidden")),
    );
    let right = ErrorType::Alias(
        name("Opt"),
        vec![(name("item"), apply0("A"))],
        Box::new(apply0("Other")),
    );
    // The expansions differ but are never compared or rendered.
    let d = to_diff(Parens::Unnecessary, &left, &right);
    assert_eq!(d.status, Status::Similar);
    assert_eq!(d.left, text("Opt A"));
    assert_eq!(d.right, text("Opt A"));
}

#[test]
fn recursive_tag_unions_are_rendered_wholesale() {
    let left = ErrorType::RecursiveTagUnion(
        Box::new(ErrorType::FlexVar(name("x"))),
        vec![(name("Cons"), vec![apply0("A")]), (name("Nil"), vec![])],
        TypeExt::Closed,
    );
    let right = ErrorType::RecursiveTagUnion(
        Box::new(ErrorType::FlexVar(name("y"))),
        vec![(name("Nil"), vec![])],
        TypeExt::Closed,
    );
    let d = to_diff(Parens::Unnecessary, &left, &right);
    assert_eq!(d.status, Status::Similar);
    assert_eq!(d.left, text("[ Cons A, Nil ] as x"));
    assert_eq!(d.right, text("[ Nil ] as y"));
}

#[test]
fn variables_compare_by_name_only() {
    let d = to_diff(
        Parens::Unnecessary,
        &ErrorType::FlexVar(name("a")),
        &ErrorType::FlexVar(name("a")),
    );
    assert_eq!(d.status, Status::Similar);
    assert_eq!(d.left, d.right);

    let e = to_diff(
        Parens::Unnecessary,
        &ErrorType::RigidVar(name("a")),
        &ErrorType::RigidVar(name("b")),
    );
    assert_eq!(e.status, Status::Similar);
    assert_eq!(e.left, text("a"));
    assert_eq!(e.right, text("b"));
}

#[test]
fn shared_field_problems_come_before_the_row_verdict() {
    let left = ErrorType::Record(
        vec![(
            name("f"),
            ErrorType::Function(vec![apply0("A"), apply0("B")], Box::new(apply0("R"))),
        )],
        TypeExt::Closed,
    );
    let right = ErrorType::Record(
        vec![
            (
                name("f"),
                ErrorType::Function(vec![apply0("A")], Box::new(apply0("R"))),
            ),
            (name("g"), apply0("Int")),
        ],
        TypeExt::Closed,
    );
    let d = to_diff(Parens::Unnecessary, &left, &right);
    assert_eq!(
        d.status,
        Status::Different(vec![
            Problem::ArityMismatch(2, 1),
            Problem::FieldsMissing(vec![name("g")]),
        ])
    );
}

#[test]
fn extension_conflicts_come_after_row_problems() {
    let left = ErrorType::Record(
        vec![(name("a"), apply0("Int")), (name("b"), apply0("X"))],
        TypeExt::RigidOpen(name("r")),
    );
    let right = ErrorType::Record(
        vec![(name("a"), apply0("Int")), (name("c"), apply0("X"))],
        TypeExt::RigidOpen(name("s")),
    );
    let d = to_diff(Parens::Unnecessary, &left, &right);
    assert_eq!(
        d.status,
        Status::Different(vec![
            Problem::FieldTypo(name("b"), vec![name("a"), name("c")]),
            Problem::BadRigidVar(name("r"), ErrorType::RigidVar(name("s"))),
        ])
    );
}
