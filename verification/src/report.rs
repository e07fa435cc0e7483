//! Report assembly: the comparison record handed to the report layer, the
//! framing that stacks its parts, and small text helpers.

use crate::diff::{diff_model, to_diff, DiffModel};
use crate::render::{join, texts_model};
use crate::status::{problems_model, Problem, ProblemModel, Status, StatusModel};
use crate::types::{type_model, ErrorType, TypeModel};
use vstd::prelude::*;
use vstd::string::StringExecFns;

verus! {

/// The problems a status carries: none when similar.
pub open spec fn status_problems(s: StatusModel) -> Seq<ProblemModel> {
    match s {
        StatusModel::Similar => Seq::empty(),
        StatusModel::Different(ps) => ps,
    }
}

/// Both sides of one comparison, rendered, with the problems found.
#[derive(Debug, PartialEq, Eq)]
pub struct Comparison {
    pub actual: Vec<u8>,
    pub expected: Vec<u8>,
    pub problems: Vec<Problem>,
}

/// Compares two types at top level and hands out the rendered sides with
/// the accumulated problems.
pub fn to_comparison(actual: &ErrorType, expected: &ErrorType) -> (r: Comparison)
    ensures
        r.actual@ == diff_model(actual@, expected@, crate::render::Parens::Unnecessary).left,
        r.expected@ == diff_model(actual@, expected@, crate::render::Parens::Unnecessary).right,
        problems_model(r.problems@) == status_problems(
            diff_model(actual@, expected@, crate::render::Parens::Unnecessary).status,
        ),
{
    let d = to_diff(crate::render::Parens::Unnecessary, actual, expected);
    let problems: Vec<Problem> = match d.status {
        Status::Similar => {
            let ps: Vec<Problem> = Vec::new();
            proof {
                assert(problems_model(ps@) =~= Seq::<ProblemModel>::empty());
            }
            ps
        },
        Status::Different(ps) => ps,
    };
    Comparison { actual: d.left, expected: d.right, problems }
}

/// A blank line between stacked report parts.
pub open spec fn txt_blank_line() -> Seq<u8> {
    seq![10u8, 10u8]
}

/// Report parts stacked with blank lines between them.
pub open spec fn stack_model(parts: Seq<Seq<u8>>) -> Seq<u8> {
    join(parts, txt_blank_line())
}

fn blank_line() -> (r: Vec<u8>)
    ensures
        r@ == txt_blank_line(),
{
    let mut r: Vec<u8> = Vec::new();
    r.push(10u8);
    r.push(10u8);
    proof {
        assert(r@ =~= txt_blank_line());
    }
    r
}

/// Frames one comparison: what was seen, the two rendered sides around the
/// "instead of" line, and any closing hints, stacked with blank lines.
pub fn type_comparison(
    actual: &ErrorType,
    expected: &ErrorType,
    i_am_seeing: Vec<u8>,
    instead_of: Vec<u8>,
    context_hints: Vec<u8>,
) -> (r: Vec<u8>)
    ensures
        r@ == stack_model(
            seq![
                i_am_seeing@,
                diff_model(actual@, expected@, crate::render::Parens::Unnecessary).left,
                instead_of@,
                diff_model(actual@, expected@, crate::render::Parens::Unnecessary).right,
                context_hints@,
            ],
        ),
{
    let comparison = to_comparison(actual, expected);
    let mut parts: Vec<Vec<u8>> = Vec::new();
    parts.push(i_am_seeing);
    parts.push(comparison.actual);
    parts.push(instead_of);
    parts.push(comparison.expected);
    parts.push(context_hints);
    let sep = blank_line();
    let ghost pm = texts_model(parts@);
    let r = crate::render::join_texts(&parts, &sep);
    proof {
        assert(pm =~= seq![
            i_am_seeing@,
            diff_model(type_model(*actual), type_model(*expected), crate::render::Parens::Unnecessary).left,
            instead_of@,
            diff_model(type_model(*actual), type_model(*expected), crate::render::Parens::Unnecessary).right,
            context_hints@,
        ]);
    }
    r
}

/// Frames one type on its own: what was seen, the rendered left side, and
/// the closing details, stacked with blank lines.
pub fn lone_type(
    actual: &ErrorType,
    expected: &ErrorType,
    i_am_seeing: Vec<u8>,
    further_details: Vec<u8>,
) -> (r: Vec<u8>)
    ensures
        r@ == stack_model(
            seq![
                i_am_seeing@,
                diff_model(actual@, expected@, crate::render::Parens::Unnecessary).left,
                further_details@,
            ],
        ),
{
    let comparison = to_comparison(actual, expected);
    let mut parts: Vec<Vec<u8>> = Vec::new();
    parts.push(i_am_seeing);
    parts.push(comparison.actual);
    parts.push(further_details);
    let sep = blank_line();
    let ghost pm = texts_model(parts@);
    let r = crate::render::join_texts(&parts, &sep);
    proof {
        assert(pm =~= seq![
            i_am_seeing@,
            diff_model(type_model(*actual), type_model(*expected), crate::render::Parens::Unnecessary).left,
            further_details@,
        ]);
    }
    r
}

/// The number of arguments a type takes when called: a function's argument
/// count, looked up through alias expansions.
pub open spec fn count_args_model(t: TypeModel) -> nat
    decreases t,
{
    match t {
        TypeModel::Function(args, _) => args.len(),
        TypeModel::Alias(_, _, expansion) => count_args_model(*expansion),
        _ => 0,
    }
}

/// Counts the arguments a type takes when called.
pub fn count_arguments(tipe: &ErrorType) -> (r: usize)
    ensures
        r == count_args_model(tipe@),
    decreases tipe,
{
    match tipe {
        ErrorType::Function(args, _) => {
            proof {
                crate::types::lemma_list_model(args@);
            }
            args.len()
        },
        ErrorType::Alias(_, _, expansion) => count_arguments(&**expansion),
        _ => 0,
    }
}

/// The decimal digits of a number, most significant first.
pub open spec fn dec_digits(n: nat) -> Seq<char>
    decreases n,
{
    if n < 10 {
        seq![digit_char(n)]
    } else {
        dec_digits(n / 10).push(digit_char(n % 10))
    }
}

/// The character of one decimal digit.
pub open spec fn digit_char(d: nat) -> char {
    if d == 0 {
        '0'
    } else if d == 1 {
        '1'
    } else if d == 2 {
        '2'
    } else if d == 3 {
        '3'
    } else if d == 4 {
        '4'
    } else if d == 5 {
        '5'
    } else if d == 6 {
        '6'
    } else if d == 7 {
        '7'
    } else if d == 8 {
        '8'
    } else {
        '9'
    }
}

/// The ordinal ending of a one-based number: `th` for the teens, else by
/// the last digit.
pub open spec fn ordinal_suffix(n: nat) -> Seq<char> {
    if 11 <= n % 100 <= 13 {
        seq!['t', 'h']
    } else if n % 10 == 1 {
        seq!['s', 't']
    } else if n % 10 == 2 {
        seq!['n', 'd']
    } else if n % 10 == 3 {
        seq!['r', 'd']
    } else {
        seq!['t', 'h']
    }
}

/// A one-based number written as an ordinal.
pub open spec fn ordinal_text(n: nat) -> Seq<char> {
    dec_digits(n) + ordinal_suffix(n)
}

fn digit_string(d: usize) -> (s: String)
    requires
        d < 10,
    ensures
        s@ == seq![digit_char(d as nat)],
{
    let s = if d == 0 {
        proof {
            reveal_strlit("0");
        }
        String::from_str("0")
    } else if d == 1 {
        proof {
            reveal_strlit("1");
        }
        String::from_str("1")
    } else if d == 2 {
        proof {
            reveal_strlit("2");
        }
        String::from_str("2")
    } else if d == 3 {
        proof {
            reveal_strlit("3");
        }
        String::from_str("3")
    } else if d == 4 {
        proof {
            reveal_strlit("4");
        }
        String::from_str("4")
    } else if d == 5 {
        proof {
            reveal_strlit("5");
        }
        String::from_str("5")
    } else if d == 6 {
        proof {
            reveal_strlit("6");
        }
        String::from_str("6")
    } else if d == 7 {
        proof {
            reveal_strlit("7");
        }
        String::from_str("7")
    } else if d == 8 {
        proof {
            reveal_strlit("8");
        }
        String::from_str("8")
    } else {
        proof {
            reveal_strlit("9");
        }
        String::from_str("9")
    };
    proof {
        assert(s@ =~= seq![digit_char(d as nat)]);
    }
    s
}

fn dec_string(n: usize) -> (s: String)
    ensures
        s@ == dec_digits(n as nat),
    decreases n,
{
    if n < 10 {
        digit_string(n)
    } else {
        let mut s = dec_string(n / 10);
        let d = digit_string(n % 10);
        s.append(d.as_str());
        proof {
            assert(s@ =~= dec_digits((n / 10) as nat).push(digit_char((n % 10) as nat)));
        }
        s
    }
}

/// Writes a one-based number as an English ordinal: the digits followed by
/// `st`, `nd`, `rd` or `th`, with the teens always taking `th`.
pub fn int_to_ordinal(number: usize) -> (r: String)
    ensures
        r@ == ordinal_text(number as nat),
{
    let mut s = dec_string(number);
    let rem100 = number % 100;
    let rem10 = number % 10;
    if 11 <= rem100 && rem100 <= 13 {
        proof {
            reveal_strlit("th");
        }
        s.append("th");
    } else if rem10 == 1 {
        proof {
            reveal_strlit("st");
        }
        s.append("st");
    } else if rem10 == 2 {
        proof {
            reveal_strlit("nd");
        }
        s.append("nd");
    } else if rem10 == 3 {
        proof {
            reveal_strlit("rd");
        }
        s.append("rd");
    } else {
        proof {
            reveal_strlit("th");
        }
        s.append("th");
    }
    proof {
        assert(s@ =~= ordinal_text(number as nat));
    }
    s
}

} // verus!
