use kong::{default_terms, get_op_prece, get_seq, post2in, sel, EvalError, Op, Term};

#[test]
fn calc_simple_addition() {
    let expr = vec![Term::Number(2), Term::Number(2), Term::Operator(Op::Add)];
    assert_eq!(kong::eval::calc(&expr, 3), Ok(4));
}

#[test]
fn calc_all_operators() {
    let sub = vec![Term::Number(22), Term::Number(2), Term::Operator(Op::Sub)];
    assert_eq!(kong::eval::calc(&sub, 3), Ok(20));
    let mul = vec![Term::Number(22), Term::Number(2), Term::Operator(Op::Mul)];
    assert_eq!(kong::eval::calc(&mul, 3), Ok(44));
    let div = vec![Term::Number(22), Term::Number(2), Term::Operator(Op::Div)];
    assert_eq!(kong::eval::calc(&div, 3), Ok(11));
}

#[test]
fn calc_prefix_only() {
    let expr = vec![Term::Number(2), Term::Number(3), Term::Operator(Op::Add)];
    assert_eq!(kong::eval::calc(&expr, 1), Ok(2));
}

#[test]
fn calc_inexact_division() {
    let expr = vec![Term::Number(2), Term::Number(22), Term::Operator(Op::Div)];
    assert_eq!(
        kong::eval::calc(&expr, 3),
        Err(EvalError::InexactOrZeroDivision)
    );
}

#[test]
fn calc_zero_division() {
    let expr = vec![Term::Number(2), Term::Number(0), Term::Operator(Op::Div)];
    assert_eq!(
        kong::eval::calc(&expr, 3),
        Err(EvalError::InexactOrZeroDivision)
    );
}

#[test]
fn calc_stack_underflow() {
    let expr = vec![Term::Number(2), Term::Operator(Op::Add)];
    assert_eq!(kong::eval::calc(&expr, 2), Err(EvalError::StackUnderflow));
}

#[test]
fn calc_incomplete_expression() {
    let expr = vec![Term::Number(2), Term::Number(2)];
    assert_eq!(
        kong::eval::calc(&expr, 2),
        Err(EvalError::IncompleteExpression)
    );
    let empty: Vec<Term> = Vec::new();
    assert_eq!(
        kong::eval::calc(&empty, 0),
        Err(EvalError::IncompleteExpression)
    );
}

#[test]
fn calc_overflow() {
    let add = vec![
        Term::Number(i64::MAX),
        Term::Number(i64::MAX),
        Term::Operator(Op::Add),
    ];
    assert_eq!(kong::eval::calc(&add, 3), Err(EvalError::Overflow));
    let sub = vec![
        Term::Number(i64::MIN),
        Term::Number(1),
        Term::Operator(Op::Sub),
    ];
    assert_eq!(kong::eval::calc(&sub, 3), Err(EvalError::Overflow));
    let mul = vec![
        Term::Number(i64::MAX),
        Term::Number(2),
        Term::Operator(Op::Mul),
    ];
    assert_eq!(kong::eval::calc(&mul, 3), Err(EvalError::Overflow));
    let div = vec![
        Term::Number(i64::MIN),
        Term::Number(-1),
        Term::Operator(Op::Div),
    ];
    assert_eq!(kong::eval::calc(&div, 3), Err(EvalError::Overflow));
}

#[test]
fn calc_negative_division_exact() {
    let expr = vec![Term::Number(-22), Term::Number(2), Term::Operator(Op::Div)];
    assert_eq!(kong::eval::calc(&expr, 3), Ok(-11));
}

#[test]
fn render_left_association_stays_flat() {
    let expr = vec![
        Term::Number(2),
        Term::Number(22),
        Term::Operator(Op::Sub),
        Term::Number(222),
        Term::Operator(Op::Sub),
    ];
    assert_eq!(post2in(&expr, 5), Ok(String::from("2 - 22 - 222")));
}

#[test]
fn render_right_association_needs_parens() {
    let expr = vec![
        Term::Number(2),
        Term::Number(22),
        Term::Number(222),
        Term::Operator(Op::Sub),
        Term::Operator(Op::Sub),
    ];
    assert_eq!(post2in(&expr, 5), Ok(String::from("2 - (22 - 222)")));
}

#[test]
fn render_precedence_parens() {
    let low_under_high = vec![
        Term::Number(2),
        Term::Number(22),
        Term::Operator(Op::Add),
        Term::Number(222),
        Term::Operator(Op::Mul),
    ];
    assert_eq!(post2in(&low_under_high, 5), Ok(String::from("(2 + 22) * 222")));
    let high_under_low = vec![
        Term::Number(2),
        Term::Number(22),
        Term::Number(222),
        Term::Operator(Op::Mul),
        Term::Operator(Op::Add),
    ];
    assert_eq!(post2in(&high_under_low, 5), Ok(String::from("2 + 22 * 222")));
}

#[test]
fn render_single_operand() {
    let expr = vec![Term::Number(12)];
    assert_eq!(post2in(&expr, 1), Ok(String::from("12")));
    let negative = vec![Term::Number(-5)];
    assert_eq!(post2in(&negative, 1), Ok(String::from("-5")));
}

#[test]
fn render_fails_like_eval_on_structure() {
    let underflow = vec![Term::Number(2), Term::Operator(Op::Add)];
    assert_eq!(post2in(&underflow, 2), Err(EvalError::StackUnderflow));
    let incomplete = vec![Term::Number(2), Term::Number(2)];
    assert_eq!(post2in(&incomplete, 2), Err(EvalError::IncompleteExpression));
}

#[test]
fn render_does_not_evaluate_division() {
    let expr = vec![Term::Number(2), Term::Number(0), Term::Operator(Op::Div)];
    assert_eq!(post2in(&expr, 3), Ok(String::from("2 / 0")));
}

#[test]
fn operator_precedences() {
    assert_eq!(get_op_prece(Op::Mul), 2);
    assert_eq!(get_op_prece(Op::Div), 2);
    assert_eq!(get_op_prece(Op::Add), 1);
    assert_eq!(get_op_prece(Op::Sub), 1);
}

#[test]
fn default_vocabulary() {
    let terms = default_terms();
    assert_eq!(terms.len(), 8);
    assert_eq!(terms[0], Term::Number(2));
    assert_eq!(terms[1], Term::Number(22));
    assert_eq!(terms[2], Term::Number(222));
    assert_eq!(terms[3], Term::Number(2222));
    assert_eq!(terms[4], Term::Operator(Op::Add));
    assert_eq!(terms[5], Term::Operator(Op::Sub));
    assert_eq!(terms[6], Term::Operator(Op::Mul));
    assert_eq!(terms[7], Term::Operator(Op::Div));
}

#[test]
fn reduced_alphabet_round_limit_two() {
    let alpha = vec![
        Term::Number(2),
        Term::Number(22),
        Term::Operator(Op::Add),
        Term::Operator(Op::Sub),
    ];
    let mut sols = vec![String::new(); 1001];
    let mut expr = vec![Term::Empty; 50];
    sel(&alpha, 0, 1, &mut expr, 0, 0, &mut sols);
    sel(&alpha, 0, 3, &mut expr, 0, 0, &mut sols);
    assert_eq!(sols[4], "2 + 2");
    assert_eq!(sols[20], "22 - 2");
    assert_eq!(sols[0], "2 - 2");
    assert_eq!(sols[2], "2");
    assert_eq!(sols[22], "22");
    assert_eq!(sols[24], "2 + 22");
    assert_eq!(sols[44], "22 + 22");
    let reached = [0usize, 2, 4, 20, 22, 24, 44];
    for (v, sol) in sols.iter().enumerate() {
        if !reached.contains(&v) {
            assert_eq!(sol, "", "unexpected entry at {}", v);
        }
    }
}

#[test]
fn boundary_results() {
    let mut expr = vec![Term::Empty; 50];

    let exact_max = vec![Term::Number(1000)];
    let mut sols = vec![String::new(); 1001];
    sel(&exact_max, 0, 1, &mut expr, 0, 0, &mut sols);
    assert_eq!(sols[1000], "1000");

    let above_max = vec![Term::Number(1001)];
    let mut sols = vec![String::new(); 1001];
    sel(&above_max, 0, 1, &mut expr, 0, 0, &mut sols);
    assert!(sols.iter().all(|s| s.is_empty()));

    let below_zero = vec![Term::Number(-1)];
    let mut sols = vec![String::new(); 1001];
    sel(&below_zero, 0, 1, &mut expr, 0, 0, &mut sols);
    assert!(sols.iter().all(|s| s.is_empty()));

    let exact_zero = vec![Term::Number(0)];
    let mut sols = vec![String::new(); 1001];
    sel(&exact_zero, 0, 1, &mut expr, 0, 0, &mut sols);
    assert_eq!(sols[0], "0");
}

#[test]
fn table_shape_and_small_runs() {
    let empty_run = get_seq(0);
    assert_eq!(empty_run.len(), 1001);
    assert!(empty_run.iter().all(|s| s.is_empty()));

    let one_round = get_seq(1);
    assert_eq!(one_round.len(), 1001);
    assert_eq!(one_round[2], "2");
    assert_eq!(one_round[22], "22");
    assert_eq!(one_round[222], "222");
    assert!(one_round
        .iter()
        .enumerate()
        .all(|(v, s)| [2usize, 22, 222].contains(&v) || s.is_empty()));
}

#[test]
fn two_rounds_shortest_and_first_found() {
    let sols = get_seq(2);
    assert_eq!(sols[2], "2");
    assert_eq!(sols[22], "22");
    // 2 + 2 and 2 * 2 both reach 4 with equal length; the first found stays
    assert_eq!(sols[4], "2 + 2");
    assert_eq!(sols[0], "2 - 2");
    assert_eq!(sols[1], "2 / 2");
    assert_eq!(sols[20], "22 - 2");
    assert_eq!(sols[24], "2 + 22");
    // 2 * 22 is enumerated before 22 + 22
    assert_eq!(sols[44], "2 * 22");
    assert_eq!(sols[11], "22 / 2");
    assert_eq!(sols[244], "22 + 222");
    assert_eq!(sols[3], "");
}

#[test]
fn identical_runs_identical_tables() {
    let first = get_seq(2);
    let second = get_seq(2);
    assert_eq!(first, second);
}

#[test]
fn longer_round_finds_shorter_rendering() {
    // 2 * (2 + 2) reaches 8 first, but the later 2 * 2 * 2 renders shorter
    let sols = get_seq(3);
    assert_eq!(sols[8], "2 * 2 * 2");
}
