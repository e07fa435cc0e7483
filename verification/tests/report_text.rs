use type_diff::report::{count_arguments, int_to_ordinal, lone_type, to_comparison, type_comparison};
use type_diff::status::Problem;
use type_diff::types::{ErrorType, TypeExt};

fn name(s: &str) -> Vec<u8> {
    s.as_bytes().to_vec()
}

fn text(s: &str) -> Vec<u8> {
    s.as_bytes().to_vec()
}

fn apply0(s: &str) -> ErrorType {
    ErrorType::Apply(name(s), vec![])
}

#[test]
fn ordinals_follow_the_last_digit() {
    assert_eq!(int_to_ordinal(1), "1st");
    assert_eq!(int_to_ordinal(2), "2nd");
    assert_eq!(int_to_ordinal(3), "3rd");
    assert_eq!(int_to_ordinal(4), "4th");
    assert_eq!(int_to_ordinal(10), "10th");
    assert_eq!(int_to_ordinal(21), "21st");
    assert_eq!(int_to_ordinal(42), "42nd");
    assert_eq!(int_to_ordinal(63), "63rd");
    assert_eq!(int_to_ordinal(0), "0th");
}

#[test]
fn teens_always_take_th() {
    assert_eq!(int_to_ordinal(11), "11th");
    assert_eq!(int_to_ordinal(12), "12th");
    assert_eq!(int_to_ordinal(13), "13th");
    assert_eq!(int_to_ordinal(111), "111th");
    assert_eq!(int_to_ordinal(112), "112th");
    assert_eq!(int_to_ordinal(113), "113th");
    assert_eq!(int_to_ordinal(101), "101st");
}

#[test]
fn counting_arguments_sees_through_aliases() {
    let f = ErrorType::Function(vec![apply0("A"), apply0("B")], Box::new(apply0("R")));
    assert_eq!(count_arguments(&f), 2);
    let aliased = ErrorType::Alias(name("F"), vec![], Box::new(f));
    assert_eq!(count_arguments(&aliased), 2);
    assert_eq!(count_arguments(&apply0("Str")), 0);
    assert_eq!(count_arguments(&ErrorType::Error), 0);
}

#[test]
fn comparison_carries_both_documents_and_problems() {
    let left = ErrorType::Record(
        vec![(name("a"), apply0("Int")), (name("b"), apply0("Str"))],
        TypeExt::Closed,
    );
    let right = ErrorType::Record(
        vec![(name("a"), apply0("Int")), (name("c"), apply0("Str"))],
        TypeExt::Closed,
    );
    let c = to_comparison(&left, &right);
    assert_eq!(c.actual, text("{ a : Int, b : Str }"));
    assert_eq!(c.expected, text("{ a : Int, c : Str }"));
    assert_eq!(
        c.problems,
        vec![Problem::FieldTypo(name("b"), vec![name("a"), name("c")])]
    );
}

#[test]
fn comparison_of_similar_types_has_no_problems() {
    let t = apply0("Str");
    let c = to_comparison(&t, &ErrorType::Apply(name("Task"), vec![]));
    assert_eq!(c.problems, Vec::<Problem>::new());
    assert_eq!(c.actual, text("Str"));
    assert_eq!(c.expected, text("Task"));
}

#[test]
fn type_comparison_stacks_its_parts() {
    let found = apply0("Str");
    let expected = apply0("Int");
    let r = type_comparison(
        &found,
        &expected,
        text("It is"),
        text("But you are trying to use it as:"),
        text(""),
    );
    assert_eq!(
        r,
        text("It is\n\nStr\n\nBut you are trying to use it as:\n\nInt\n\n"),
    );
}

#[test]
fn lone_type_stacks_the_left_side_only() {
    let found = apply0("Str");
    let expected = apply0("Int");
    let r = lone_type(&found, &expected, text("Right now it is"), text("Details"));
    assert_eq!(r, text("Right now it is\n\nStr\n\nDetails"));
}
