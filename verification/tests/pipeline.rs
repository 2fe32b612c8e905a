use hats::guard::Guard;
use hats::print::Index;
use hats::solve::{Comparison, Problem, Variable};
use hats::solve::File as Hats;
use hats::types::{Arrow, Basic, File, Type};

/// Solves the linear problem as the program does: every variable costs one,
/// is bounded below by its lower bound, and its value is truncated.
fn optimise(problem: &Problem) -> Option<Vec<usize>> {
    let mut lp = minilp::Problem::new(minilp::OptimizationDirection::Minimize);
    let vars: Vec<minilp::Variable> = problem
        .lower
        .iter()
        .map(|&lo| lp.add_var(1.0, (lo as f64, f64::INFINITY)))
        .collect();
    for row in &problem.rows {
        let expr: Vec<(minilp::Variable, f64)> = row
            .terms
            .iter()
            .map(|&(v, c)| (vars[v.0], c as f64))
            .collect();
        let op = match row.op {
            Comparison::Ge => minilp::ComparisonOp::Ge,
            Comparison::Eq => minilp::ComparisonOp::Eq,
        };
        lp.add_constraint(&expr[..], op, 0.0);
    }
    let solution = lp.solve().ok()?;
    Some(vars.iter().map(|&v| solution[v] as usize).collect())
}

/// Runs the whole program on a text.
fn run(text: &str) -> Result<String, String> {
    let file = File::try_from(text.as_bytes().to_vec())?;
    let tree = Guard::from(&file);
    let (problem, vterm, vtype) = Hats::problem(&file, &tree);
    let values = optimise(&problem).ok_or_else(|| "Unguarded Recursion".to_string())?;
    let hats = Hats {
        solve: values,
        vterm,
        vtype,
    };
    let index = Index::try_make(&file, &tree, &hats).ok_or_else(|| "no end".to_string())?;
    Ok(index.prints())
}

#[test]
fn omega_prints_guarded_definition() {
    assert_eq!(run("x => x x"), Ok("A := [A] => B\nA => B".to_string()));
}

#[test]
fn identity_prints_one_basic_type() {
    assert_eq!(run("x => x"), Ok("A => A".to_string()));
}

#[test]
fn constant_prints_nested_arrow_without_parentheses() {
    assert_eq!(run("x => y => x"), Ok("A => B => A".to_string()));
}

#[test]
fn white_space_and_parentheses_do_not_change_the_type() {
    assert_eq!(run("  ( x  =>(x) )\n"), Ok("A => A".to_string()));
}

#[test]
fn unbound_variable_is_refused() {
    assert_eq!(
        run("x"),
        Err("Binding Unrecognized Variable - x".to_string())
    );
    assert_eq!(
        run("x => y"),
        Err("Binding Unrecognized Variable - y".to_string())
    );
}

#[test]
fn first_unbound_variable_from_the_left_is_named() {
    assert_eq!(
        run("f => g h"),
        Err("Binding Unrecognized Variable - g".to_string())
    );
}

#[test]
fn empty_text_is_refused() {
    assert_eq!(
        run(""),
        Err("Parsing Invalid Syntax - no term at the start of the text".to_string())
    );
}

#[test]
fn trailing_input_is_refused_with_its_offset() {
    assert_eq!(
        run("x => x )"),
        Err("Parsing Invalid Syntax - unexpected input at byte 7".to_string())
    );
}

#[test]
fn omega_splits_into_one_basic_and_two_function_types() {
    let file = File::try_from(b"x => x x".to_vec()).unwrap();
    assert_eq!(file.basic.len(), 1);
    assert_eq!(file.arrow.len(), 2);
    let self_type = (Type::Arrow(Arrow(1)), Type::Basic(Basic(0)));
    assert_eq!(file.arrow[Arrow(0)], self_type);
    assert_eq!(file.arrow[Arrow(1)], self_type);
    assert_eq!(*file.assoc.index(file.terms.origin), Type::Arrow(Arrow(0)));
}

#[test]
fn omega_marks_the_argument_side_of_the_cycle() {
    let file = File::try_from(b"x => x x".to_vec()).unwrap();
    let tree = Guard::from(&file);
    assert_eq!(tree.guard.len(), 2);
    assert_eq!(tree.guard[Arrow(0)], (false, false));
    assert_eq!(tree.guard[Arrow(1)], (true, false));
}

#[test]
fn omega_problem_has_one_bound_and_five_rows() {
    let file = File::try_from(b"x => x x".to_vec()).unwrap();
    let tree = Guard::from(&file);
    let (problem, vterm, vtype) = Hats::problem(&file, &tree);
    assert_eq!(problem.lower, vec![0, 0, 0, 0, 0, 0, 1, 0]);
    assert_eq!(problem.rows.len(), 5);
    assert_eq!(vtype[Arrow(0)], (Variable(4), Variable(5)));
    assert_eq!(vtype[Arrow(1)], (Variable(6), Variable(7)));
    assert_eq!(*vterm.index(file.terms.origin), Variable(2));
    for row in &problem.rows[0..2] {
        assert!(row.op == Comparison::Ge);
        assert_eq!(row.terms.len(), 2);
        assert_eq!(row.terms[0].1, 1);
        assert_eq!(row.terms[1], (Variable(4), -1));
    }
    assert!(problem.rows[2].op == Comparison::Eq);
    assert_eq!(problem.rows[2].terms, vec![(Variable(5), 1), (Variable(3), -1)]);
    assert!(problem.rows[3].op == Comparison::Eq);
    assert_eq!(problem.rows[3].terms[1], (Variable(6), 1));
    assert!(problem.rows[4].op == Comparison::Eq);
    assert_eq!(problem.rows[4].terms[1], (Variable(7), 1));
    assert_eq!(problem.rows[4].terms[2], (Variable(3), -1));
}

#[test]
fn omega_least_solution_puts_one_hat() {
    let file = File::try_from(b"x => x x".to_vec()).unwrap();
    let tree = Guard::from(&file);
    let (problem, _, _) = Hats::problem(&file, &tree);
    let values = optimise(&problem).unwrap();
    assert_eq!(values.iter().sum::<usize>(), 2);
    assert_eq!(values[6], 1);
    assert_eq!(values[7], 0);
}

#[test]
fn definition_names_count_in_bijective_base_26() {
    assert_eq!(Index::print0(0), "A");
    assert_eq!(Index::print0(1), "B");
    assert_eq!(Index::print0(25), "Z");
    assert_eq!(Index::print0(26), "AA");
    assert_eq!(Index::print0(27), "AB");
    assert_eq!(Index::print0(51), "AZ");
    assert_eq!(Index::print0(52), "BA");
    assert_eq!(Index::print0(701), "ZZ");
    assert_eq!(Index::print0(702), "AAA");
}

#[test]
fn definition_names_are_distinct() {
    let names: Vec<String> = (0..2000).map(Index::print0).collect();
    for i in 0..names.len() {
        for j in (i + 1)..names.len() {
            assert_ne!(names[i], names[j]);
        }
    }
}

#[test]
fn combinator_s_gets_its_principal_type() {
    assert_eq!(
        run("x => y => z => x z (y z)"),
        Ok("(A => B => C) => (A => B) => A => C".to_string())
    );
}

#[test]
fn combinator_b_gets_its_principal_type() {
    assert_eq!(
        run("f => g => x => f (g x)"),
        Ok("(A => B) => (C => A) => C => B".to_string())
    );
}

#[test]
fn combinator_c_gets_its_principal_type() {
    assert_eq!(
        run("f => x => y => f y x"),
        Ok("(A => B => C) => B => A => C".to_string())
    );
}

#[test]
fn church_two_gets_its_principal_type() {
    assert_eq!(
        run("f => x => f (f x)"),
        Ok("(A => A) => A => A".to_string())
    );
}

/// Lists the definitions with every hat count at its lower bound.
fn listing_ends(text: &str) -> bool {
    let file = File::try_from(text.as_bytes().to_vec()).unwrap();
    let tree = Guard::from(&file);
    let (problem, vterm, vtype) = Hats::problem(&file, &tree);
    let hats = Hats {
        solve: problem.lower.clone(),
        vterm,
        vtype,
    };
    Index::try_make(&file, &tree, &hats).is_some()
}

#[test]
fn search_ends_where_no_unmarked_cycle_remains() {
    assert!(listing_ends("x => x x"));
    assert!(listing_ends("x => y => z => x z (y z)"));
}

