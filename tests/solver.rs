use sat_solver::algorithms::dpll;
use sat_solver::formula::{CNFWrapper, Clause, Literal, State, CNF};
use sat_solver::parser::{parse_cnf, parse_folded};

fn clause(literals: &[Literal]) -> Clause {
    let mut c = Clause::new();
    for l in literals {
        c.add(*l);
    }
    c
}

fn pos(v: char) -> Literal {
    Literal::Literal(v)
}

fn neg(v: char) -> Literal {
    Literal::ComplementedLiteral(v)
}

fn formula(clauses: Vec<Clause>) -> CNF {
    let mut f = CNF::new();
    for c in clauses {
        f.add(c);
    }
    f
}

fn solve_text(text: &str) -> State {
    let mut w = parse_cnf(text).unwrap();
    dpll(&mut w.cnf, &mut w.literals)
}

fn sorted(mut v: Vec<char>) -> Vec<char> {
    v.sort();
    v
}

#[test]
fn empty_formula_is_satisfiable() {
    let mut f = CNF::new();
    assert!(f.is_empty());
    let mut pool = vec!['a'];
    assert_eq!(dpll(&mut f, &mut pool), State::SATISFIABLE);
    let mut f = CNF::new();
    assert!(f.reduce(pos('x')).is_statifiable());
}

#[test]
fn empty_pool_gives_unsatisfiable() {
    let mut f = CNF::new();
    let mut pool: Vec<char> = Vec::new();
    assert_eq!(dpll(&mut f, &mut pool), State::UNSATISFIABLE);
}

#[test]
fn contradiction_is_unsatisfiable() {
    let mut f = formula(vec![clause(&[pos('a')]), clause(&[neg('a')])]);
    let mut pool = vec!['a'];
    assert_eq!(dpll(&mut f, &mut pool), State::UNSATISFIABLE);
    assert_eq!(pool, vec!['a']);
    assert_eq!(solve_text("(a) && (a')"), State::UNSATISFIABLE);
    assert_eq!(solve_text("(a)&&(a')"), State::UNSATISFIABLE);
}

#[test]
fn three_variable_formula_is_satisfiable() {
    let text = "(a || b || c) && (a’ || b’|| c) && (a’|| b || c’) && (a || b’ || c’)";
    assert_eq!(solve_text(text), State::SATISFIABLE);
    let mut f = formula(vec![
        clause(&[pos('a'), pos('b'), pos('c')]),
        clause(&[neg('a'), neg('b'), pos('c')]),
        clause(&[neg('a'), pos('b'), neg('c')]),
        clause(&[pos('a'), neg('b'), neg('c')]),
    ]);
    let mut pool = vec!['a', 'b', 'c'];
    assert_eq!(dpll(&mut f, &mut pool), State::SATISFIABLE);
}

#[test]
fn single_unit_clause_is_satisfiable() {
    assert_eq!(solve_text("(a)"), State::SATISFIABLE);
    let mut f = formula(vec![clause(&[pos('a')])]);
    let mut pool = vec!['a'];
    assert_eq!(dpll(&mut f, &mut pool), State::SATISFIABLE);
}

#[test]
fn two_units_and_their_exclusion_are_unsatisfiable() {
    assert_eq!(solve_text("(a) && (b) && (a' || b')"), State::UNSATISFIABLE);
    let mut f = formula(vec![
        clause(&[pos('a')]),
        clause(&[pos('b')]),
        clause(&[neg('a'), neg('b')]),
    ]);
    let mut pool = vec!['a', 'b'];
    assert_eq!(dpll(&mut f, &mut pool), State::UNSATISFIABLE);
    assert_eq!(pool, vec!['a', 'b']);
}

#[test]
fn verdict_does_not_depend_on_branching_order() {
    let orders = [
        vec!['a', 'b', 'c'],
        vec!['a', 'c', 'b'],
        vec!['b', 'a', 'c'],
        vec!['b', 'c', 'a'],
        vec!['c', 'a', 'b'],
        vec!['c', 'b', 'a'],
    ];
    for order in orders.iter() {
        let mut sat = formula(vec![
            clause(&[pos('a'), pos('b'), pos('c')]),
            clause(&[neg('a'), neg('b'), pos('c')]),
            clause(&[neg('a'), pos('b'), neg('c')]),
            clause(&[pos('a'), neg('b'), neg('c')]),
        ]);
        let mut pool = order.clone();
        assert_eq!(dpll(&mut sat, &mut pool), State::SATISFIABLE);
        let mut unsat = formula(vec![
            clause(&[pos('a'), pos('b')]),
            clause(&[neg('a'), pos('c')]),
            clause(&[neg('b'), pos('c')]),
            clause(&[neg('c')]),
        ]);
        let mut pool = order.clone();
        assert_eq!(dpll(&mut unsat, &mut pool), State::UNSATISFIABLE);
        assert_eq!(&pool, order);
    }
}

#[test]
fn search_that_needs_backtracking() {
    // The asserted branch on the last variable fails; its negation succeeds.
    let mut f = formula(vec![clause(&[neg('b')]), clause(&[pos('a'), pos('b')])]);
    let mut pool = vec!['a', 'b'];
    assert_eq!(dpll(&mut f, &mut pool), State::SATISFIABLE);
    assert!(pool.len() < 2);
    assert_eq!(pool[..], ['a', 'b'][..pool.len()]);
}

#[test]
fn contradiction_among_more_variables_is_unsatisfiable() {
    let mut f = formula(vec![clause(&[pos('a')]), clause(&[neg('a')]), clause(&[pos('b')])]);
    for order in [vec!['a', 'b'], vec!['b', 'a']] {
        let mut pool = order;
        assert_eq!(dpll(&mut f, &mut pool), State::UNSATISFIABLE);
    }
}

#[test]
fn empty_clause_is_unsatisfiable() {
    let mut f = formula(vec![clause(&[pos('a')]), Clause::new()]);
    let mut pool = vec!['a'];
    assert_eq!(dpll(&mut f, &mut pool), State::UNSATISFIABLE);
}

#[test]
fn reduce_by_matching_literal_satisfies() {
    let c = clause(&[pos('a'), neg('b')]);
    let r = c.reduce(&pos('a'));
    assert!(r.is_statifiable());
    assert!(!r.is_undertimed());
    let r = c.reduce(&neg('b'));
    assert!(r.is_statifiable());
}

#[test]
fn reduce_by_complement_drops_the_literal() {
    let c = clause(&[pos('a'), neg('b')]);
    let r = c.reduce(&pos('b'));
    assert!(r.is_undertimed());
    assert_eq!(r, clause(&[pos('a')]));
    let r = r.reduce(&neg('a'));
    assert!(r.is_unstatifiable());
    assert!(r.is_empty());
}

#[test]
fn reduce_by_unrelated_literal_keeps_the_clause() {
    let c = clause(&[pos('a'), neg('b')]);
    let r = c.reduce(&pos('c'));
    assert!(r.is_undertimed());
    assert_eq!(r, c);
    let r = c.reduce(&neg('c'));
    assert_eq!(r, c);
}

#[test]
fn settled_clauses_keep_their_status() {
    let c = clause(&[pos('a'), neg('b')]);
    let sat = c.reduce(&pos('a'));
    for l in [pos('a'), neg('a'), pos('b'), neg('b'), pos('z')] {
        assert!(sat.reduce(&l).is_statifiable());
    }
    let unsat = clause(&[pos('a')]).reduce(&neg('a'));
    for l in [pos('a'), neg('a'), pos('z')] {
        let r = unsat.reduce(&l);
        assert!(r.is_unstatifiable());
        assert!(r.is_empty());
    }
}

#[test]
fn reduce_never_adds_literals() {
    let c = clause(&[pos('a'), neg('b'), pos('c')]);
    let r = c.reduce(&neg('a')).reduce(&pos('b')).reduce(&pos('z'));
    assert_eq!(r, clause(&[pos('c')]));
    assert!(r.is_undertimed());
}

#[test]
fn clause_add_ignores_repeats_and_clear_empties() {
    let mut c = Clause::new();
    assert!(c.is_empty());
    c.add(pos('a'));
    c.add(pos('a'));
    c.add(neg('a'));
    assert_eq!(c, clause(&[neg('a'), pos('a')]));
    let r = c.reduce(&pos('a'));
    assert!(r.is_statifiable());
    c.clear();
    assert!(c.is_empty());
    assert!(c.is_undertimed());
}

#[test]
fn clause_set_state() {
    let mut c = clause(&[pos('a')]);
    c.set_state(State::SATISFIABLE);
    assert!(c.is_statifiable());
    c.set_state(State::UNSATISFIABLE);
    assert!(c.is_unstatifiable());
    assert!(!c.is_empty());
    assert_ne!(c, clause(&[pos('a')]));
}

#[test]
fn formula_reduce_statuses() {
    let mut f = formula(vec![clause(&[pos('a')]), clause(&[neg('a'), pos('b')])]);
    let g = f.reduce(pos('a'));
    assert!(!g.is_statifiable());
    assert!(!g.is_empty());
    let mut g = g;
    assert!(g.reduce(pos('b')).is_statifiable());
    assert!(!f.reduce(neg('a')).is_statifiable());
    let mut f = formula(vec![clause(&[pos('a')]), clause(&[pos('a'), pos('b')])]);
    assert!(f.reduce(pos('a')).is_statifiable());
}

#[test]
fn formula_set_state() {
    let mut f = CNF::new();
    assert!(!f.is_statifiable());
    f.set_state(State::SATISFIABLE);
    assert!(f.is_statifiable());
}

#[test]
fn parse_collects_variables_once() {
    let w = parse_cnf("(a || b) && (a' || c) && (b)").unwrap();
    assert_eq!(sorted(w.literals), vec!['a', 'b', 'c']);
    assert!(!w.cnf.is_empty());
}

#[test]
fn parse_folds_case() {
    let w = parse_cnf("(A || B)").unwrap();
    assert_eq!(sorted(w.literals), vec!['a', 'b']);
    assert_eq!(solve_text("(A) && (a')"), State::UNSATISFIABLE);
}

#[test]
fn parse_drops_whitespace() {
    assert_eq!(solve_text(" ( a\t|| b ) &&\n( a' ) && ( b' ) "), State::UNSATISFIABLE);
    assert_eq!(solve_text("(a || b) && (a')"), State::SATISFIABLE);
}

#[test]
fn parse_rejects_empty_literals() {
    assert!(parse_cnf("").is_none());
    assert!(parse_cnf("()").is_none());
    assert!(parse_cnf("(a ||)").is_none());
    assert!(parse_cnf("(a) && ").is_none());
}

#[test]
fn parse_folded_reads_lowercase_text() {
    let text: Vec<char> = "((a||b'))&&c".chars().collect();
    let mut w = parse_folded(&text).unwrap();
    assert_eq!(sorted(w.literals.clone()), vec!['a', 'b', 'c']);
    assert_eq!(dpll(&mut w.cnf, &mut w.literals), State::SATISFIABLE);
    let upper: Vec<char> = "(A)&&(a')".chars().collect();
    let w = parse_folded(&upper).unwrap();
    assert_eq!(sorted(w.literals), vec!['A', 'a']);
}

#[test]
fn wrapper_starts_empty() {
    let w = CNFWrapper::new();
    assert!(w.cnf.is_empty());
    assert!(w.literals.is_empty());
}
