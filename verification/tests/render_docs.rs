use type_diff::render::{to_doc, Parens};
use type_diff::types::{ErrorType, TypeExt};

fn name(s: &str) -> Vec<u8> {
    s.as_bytes().to_vec()
}

fn text(s: &str) -> Vec<u8> {
    s.as_bytes().to_vec()
}

fn apply0(s: &str) -> ErrorType {
    ErrorType::Apply(name(s), vec![])
}

#[test]
fn leaves_render_to_their_atoms() {
    assert_eq!(to_doc(Parens::Unnecessary, &ErrorType::Infinite), "\u{221e}".as_bytes().to_vec());
    assert_eq!(to_doc(Parens::Unnecessary, &ErrorType::Error), text("?"));
    assert_eq!(to_doc(Parens::Unnecessary, &ErrorType::FlexVar(name("a"))), text("a"));
    assert_eq!(to_doc(Parens::Unnecessary, &ErrorType::RigidVar(name("msg"))), text("msg"));
    assert_eq!(to_doc(Parens::Unnecessary, &ErrorType::Boolean(true)), text("true"));
    assert_eq!(to_doc(Parens::Unnecessary, &ErrorType::Boolean(false)), text("false"));
}

#[test]
fn functions_parenthesize_outside_top_level() {
    let f = ErrorType::Function(vec![apply0("A"), apply0("B")], Box::new(apply0("R")));
    assert_eq!(to_doc(Parens::Unnecessary, &f), text("A, B -> R"));
    assert_eq!(to_doc(Parens::InFn, &f), text("(A, B -> R)"));
    assert_eq!(to_doc(Parens::InTypeParam, &f), text("(A, B -> R)"));

    let nested = ErrorType::Function(
        vec![ErrorType::Function(vec![apply0("A")], Box::new(apply0("B")))],
        Box::new(apply0("C")),
    );
    assert_eq!(to_doc(Parens::Unnecessary, &nested), text("(A -> B) -> C"));
}

#[test]
fn applications_parenthesize_only_in_type_parameters() {
    let inner = ErrorType::Apply(name("List"), vec![apply0("A")]);
    let outer = ErrorType::Apply(name("List"), vec![inner]);
    assert_eq!(to_doc(Parens::Unnecessary, &outer), text("List (List A)"));
    assert_eq!(to_doc(Parens::InFn, &outer), text("List (List A)"));
    let bare = apply0("Str");
    assert_eq!(to_doc(Parens::InTypeParam, &bare), text("Str"));
}

#[test]
fn records_render_sorted_with_extension_appended() {
    let r = ErrorType::Record(
        vec![
            (name("z"), apply0("Int")),
            (name("a"), apply0("Str")),
            (name("m"), apply0("Bool")),
        ],
        TypeExt::Closed,
    );
    assert_eq!(to_doc(Parens::Unnecessary, &r), text("{ a : Str, m : Bool, z : Int }"));

    let open = ErrorType::Record(vec![(name("a"), apply0("Int"))], TypeExt::FlexOpen(name("r")));
    assert_eq!(to_doc(Parens::Unnecessary, &open), text("{ a : Int }r"));

    let empty = ErrorType::Record(vec![], TypeExt::Closed);
    assert_eq!(to_doc(Parens::Unnecessary, &empty), text("{}"));

    let empty_rigid = ErrorType::Record(vec![], TypeExt::RigidOpen(name("e")));
    assert_eq!(to_doc(Parens::Unnecessary, &empty_rigid), text("{}e"));
}

#[test]
fn sort_is_input_order_independent() {
    let one = ErrorType::Record(
        vec![
            (name("z"), apply0("Int")),
            (name("a"), apply0("Str")),
            (name("m"), apply0("Bool")),
        ],
        TypeExt::Closed,
    );
    let other = ErrorType::Record(
        vec![
            (name("m"), apply0("Bool")),
            (name("z"), apply0("Int")),
            (name("a"), apply0("Str")),
        ],
        TypeExt::Closed,
    );
    assert_eq!(to_doc(Parens::Unnecessary, &one), to_doc(Parens::Unnecessary, &other));
}

#[test]
fn tag_unions_render_sorted_with_payloads() {
    let t = ErrorType::TagUnion(
        vec![
            (name("Nil"), vec![]),
            (name("Cons"), vec![apply0("A"), apply0("B")]),
        ],
        TypeExt::Closed,
    );
    assert_eq!(to_doc(Parens::Unnecessary, &t), text("[ Cons A B, Nil ]"));

    let empty = ErrorType::TagUnion(vec![], TypeExt::Closed);
    assert_eq!(to_doc(Parens::Unnecessary, &empty), text("[]"));

    let open = ErrorType::TagUnion(vec![(name("Go"), vec![])], TypeExt::FlexOpen(name("u")));
    assert_eq!(to_doc(Parens::Unnecessary, &open), text("[ Go ]u"));
}

#[test]
fn recursive_tag_unions_append_their_recursion_variable() {
    let t = ErrorType::RecursiveTagUnion(
        Box::new(ErrorType::FlexVar(name("x"))),
        vec![
            (name("Nil"), vec![]),
            (name("Cons"), vec![apply0("A")]),
        ],
        TypeExt::Closed,
    );
    assert_eq!(to_doc(Parens::Unnecessary, &t), text("[ Cons A, Nil ] as x"));

    let empty = ErrorType::RecursiveTagUnion(
        Box::new(ErrorType::FlexVar(name("x"))),
        vec![],
        TypeExt::Closed,
    );
    assert_eq!(to_doc(Parens::Unnecessary, &empty), text("[]"));
}

#[test]
fn tag_payloads_parenthesize_applied_arguments() {
    let t = ErrorType::TagUnion(
        vec![(name("Ok"), vec![ErrorType::Apply(name("List"), vec![apply0("A")])])],
        TypeExt::Closed,
    );
    assert_eq!(to_doc(Parens::Unnecessary, &t), text("[ Ok (List A) ]"));
}

#[test]
fn alias_renders_its_own_arguments_not_the_expansion() {
    let t = ErrorType::Alias(
        name("Opt"),
        vec![(name("item"), apply0("A"))],
        Box::new(ErrorType::TagUnion(
            vec![(name("Some"), vec![apply0("A")]), (name("None"), vec![])],
            TypeExt::Closed,
        )),
    );
    assert_eq!(to_doc(Parens::Unnecessary, &t), text("Opt A"));
}
