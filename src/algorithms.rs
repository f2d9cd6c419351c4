use crate::formula::{ClauseView, CNFView, Literal, State, CNF};
use vstd::prelude::*;

verus! {

/// The outcome of the search on formula `f` with the variables of `pool`:
/// satisfiable exactly when the pool is not empty and some assignment to its
/// variables makes every clause hold.
pub open spec fn verdict(f: CNFView, pool: Seq<char>) -> State {
    if pool.len() > 0 && f.satisfiable_within(pool.to_set()) {
        State::SATISFIABLE
    } else {
        State::UNSATISFIABLE
    }
}

/// A formula with no clauses is satisfiable: reducing it by any literal
/// settles it as satisfied, every assignment satisfies it, and the search
/// reports it satisfiable as soon as it has a variable to branch on.
pub proof fn lemma_empty_formula(f: CNFView, l: Literal, g: CNFView, pool: Seq<char>)
    requires
        f.clauses.len() == 0,
        f.reduces_to(l, g),
    ensures
        g.state == State::SATISFIABLE,
        f.satisfiable(),
        pool.len() > 0 ==> verdict(f, pool) == State::SATISFIABLE,
{
    let a = |v: char| true;
    assert(f.holds(a));
    assert(f.holds_within(pool.to_set(), a));
}

/// The verdict does not depend on the order in which the pool holds its
/// variables, which is the order in which the search branches on them.
pub proof fn lemma_order_independent(f: CNFView, p1: Seq<char>, p2: Seq<char>)
    requires
        p1.no_duplicates(),
        p2.no_duplicates(),
        p1.to_set() == p2.to_set(),
    ensures
        verdict(f, p1) == verdict(f, p2),
{
    p1.unique_seq_to_set();
    p2.unique_seq_to_set();
}

/// With a pool that holds every variable of the formula, the verdict is
/// satisfiable exactly when the pool is not empty and some assignment
/// satisfies the formula: the search is sound and complete.
pub proof fn lemma_verdict_exact(f: CNFView, pool: Seq<char>)
    requires
        f.vars().subset_of(pool.to_set()),
    ensures
        (verdict(f, pool) == State::SATISFIABLE) == (pool.len() > 0 && f.satisfiable()),
{
    let d = pool.to_set();
    assert forall|a: spec_fn(char) -> bool| #[trigger] f.holds_within(d, a) == f.holds(a) by {
        if f.holds_within(d, a) {
            assert forall|i: int| 0 <= i < f.clauses.len() implies #[trigger] f.clauses[i].holds(
                a,
            ) by {
                let c = f.clauses[i];
                assert(c.holds_within(d, a));
                if c.state == State::UNDERTIMINED {
                    let m = choose|m: Literal|
                        #![trigger c.literals.contains(m), m.holds(a)]
                        c.literals.contains(m) && d.contains(m.var()) && m.holds(a);
                    assert(c.literals.contains(m) && m.holds(a));
                }
            }
        }
        if f.holds(a) {
            assert forall|i: int| 0 <= i < f.clauses.len() implies #[trigger] f.clauses[i].holds_within(
                d,
                a,
            ) by {
                let c = f.clauses[i];
                assert(c.holds(a));
                if c.state == State::UNDERTIMINED {
                    let m = choose|m: Literal|
                        #![trigger c.literals.contains(m), m.holds(a)]
                        c.literals.contains(m) && m.holds(a);
                    assert(f.vars().contains(m.var()));
                    assert(c.literals.contains(m) && d.contains(m.var()) && m.holds(a));
                }
            }
        }
    }
    if f.satisfiable() {
        let a = choose|a: spec_fn(char) -> bool| f.holds(a);
        assert(f.holds_within(d, a));
    }
    if f.satisfiable_within(d) {
        let a = choose|a: spec_fn(char) -> bool| f.holds_within(d, a);
        assert(f.holds(a));
    }
}

/// The two literals of a variable are the only ones that speak of it.
proof fn lemma_same_var(m: Literal, l: Literal)
    requires
        m.var() == l.var(),
    ensures
        m == l || m == l.complement(),
{
}

/// Making `l` true and then dropping its variable from the domain leaves
/// unchanged whether a clause holds, under an assignment that makes `l` true.
proof fn lemma_clause_step(c: ClauseView, l: Literal, q: Set<char>, a: spec_fn(char) -> bool)
    requires
        !q.contains(l.var()),
        l.holds(a),
    ensures
        c.holds_within(q.insert(l.var()), a) == c.reduced(l).holds_within(q, a),
{
    let p = q.insert(l.var());
    let r = c.reduced(l);
    if c.state != State::UNDERTIMINED {
    } else if c.literals.contains(l) {
        assert(c.literals.contains(l) && p.contains(l.var()) && l.holds(a));
    } else if c.literals.contains(l.complement()) {
        if c.holds_within(p, a) {
            let m = choose|m: Literal|
                #![trigger c.literals.contains(m), m.holds(a)]
                c.literals.contains(m) && p.contains(m.var()) && m.holds(a);
            if m.var() == l.var() {
                lemma_same_var(m, l);
            }
            assert(r.literals.contains(m));
            assert(r.state == State::UNDERTIMINED);
            assert(r.literals.contains(m) && q.contains(m.var()) && m.holds(a));
        }
        if r.holds_within(q, a) {
            let m = choose|m: Literal|
                #![trigger r.literals.contains(m), m.holds(a)]
                r.literals.contains(m) && q.contains(m.var()) && m.holds(a);
            assert(c.literals.contains(m) && p.contains(m.var()) && m.holds(a));
        }
    } else {
        if c.holds_within(p, a) {
            let m = choose|m: Literal|
                #![trigger c.literals.contains(m), m.holds(a)]
                c.literals.contains(m) && p.contains(m.var()) && m.holds(a);
            if m.var() == l.var() {
                lemma_same_var(m, l);
            }
            assert(c.literals.contains(m) && q.contains(m.var()) && m.holds(a));
        }
        if r.holds_within(q, a) {
            let m = choose|m: Literal|
                #![trigger r.literals.contains(m), m.holds(a)]
                r.literals.contains(m) && q.contains(m.var()) && m.holds(a);
            assert(c.literals.contains(m) && p.contains(m.var()) && m.holds(a));
        }
    }
}

/// The formula-level form of `lemma_clause_step`.
proof fn lemma_formula_step(
    f: CNFView,
    l: Literal,
    g: CNFView,
    q: Set<char>,
    a: spec_fn(char) -> bool,
)
    requires
        f.reduces_to(l, g),
        !q.contains(l.var()),
        l.holds(a),
    ensures
        f.holds_within(q.insert(l.var()), a) == g.holds_within(q, a),
{
    let p = q.insert(l.var());
    if g.state == State::UNSATISFIABLE {
        let k = g.clauses.len() - 1;
        lemma_clause_step(f.clauses[k], l, q, a);
        assert(!g.clauses[k].holds_within(q, a));
    } else {
        assert forall|i: int| 0 <= i < f.clauses.len() implies #[trigger] f.clauses[i].holds_within(
            p,
            a,
        ) == g.clauses[i].holds_within(q, a) by {
            lemma_clause_step(f.clauses[i], l, q, a);
        }
        if f.holds_within(p, a) {
            assert forall|i: int| 0 <= i < g.clauses.len() implies #[trigger] g.clauses[i].holds_within(
                q,
                a,
            ) by {
                assert(f.clauses[i].holds_within(p, a));
            }
        }
        if g.holds_within(q, a) {
            assert forall|i: int| 0 <= i < f.clauses.len() implies #[trigger] f.clauses[i].holds_within(
                p,
                a,
            ) by {
                assert(g.clauses[i].holds_within(q, a));
            }
        }
    }
}

/// Whether a formula holds within `d` depends only on the values of the
/// variables in `d`.
proof fn lemma_agree(g: CNFView, d: Set<char>, a: spec_fn(char) -> bool, b: spec_fn(char) -> bool)
    requires
        g.holds_within(d, a),
        forall|v: char| d.contains(v) ==> a(v) == b(v),
    ensures
        g.holds_within(d, b),
{
    assert forall|i: int| 0 <= i < g.clauses.len() implies #[trigger] g.clauses[i].holds_within(
        d,
        b,
    ) by {
        let c = g.clauses[i];
        assert(c.holds_within(d, a));
        if c.state == State::UNDERTIMINED {
            let m = choose|m: Literal|
                #![trigger c.literals.contains(m), m.holds(a)]
                c.literals.contains(m) && d.contains(m.var()) && m.holds(a);
            assert(c.literals.contains(m) && d.contains(m.var()) && m.holds(b));
        }
    }
}

/// A reduced formula whose status is satisfied holds under every assignment.
proof fn lemma_satisfied_holds(
    f: CNFView,
    l: Literal,
    g: CNFView,
    d: Set<char>,
    a: spec_fn(char) -> bool,
)
    requires
        f.reduces_to(l, g),
        g.state == State::SATISFIABLE,
    ensures
        g.holds_within(d, a),
{
    assert forall|i: int| 0 <= i < g.clauses.len() implies #[trigger] g.clauses[i].holds_within(
        d,
        a,
    ) by {
        assert(f.clauses[i].reduced(l).state == State::SATISFIABLE);
    }
}

/// A reduced formula that holds with no variable to count on has the status
/// satisfied.
proof fn lemma_holds_without_vars(f: CNFView, l: Literal, g: CNFView, a: spec_fn(char) -> bool)
    requires
        f.reduces_to(l, g),
        g.holds_within(Set::<char>::empty(), a),
    ensures
        g.state == State::SATISFIABLE,
{
    let e = Set::<char>::empty();
    if g.state == State::UNSATISFIABLE {
        assert(g.clauses[g.clauses.len() - 1].holds_within(e, a));
    } else {
        assert forall|i: int| 0 <= i < f.clauses.len() implies (
        #[trigger] f.clauses[i].reduced(l)).state == State::SATISFIABLE by {
            let c = g.clauses[i];
            assert(c.holds_within(e, a));
            if c.state == State::UNDERTIMINED {
                let m = choose|m: Literal|
                    #![trigger c.literals.contains(m), m.holds(a)]
                    c.literals.contains(m) && e.contains(m.var()) && m.holds(a);
            }
        }
    }
}

/// A reduction by `l` that is settled satisfied, or satisfiable within the
/// rest of the pool, shows the formula satisfiable within the whole pool.
proof fn lemma_branch_sound(f: CNFView, l: Literal, q: Seq<char>, g: CNFView)
    requires
        f.reduces_to(l, g),
        !q.to_set().contains(l.var()),
        g.state == State::SATISFIABLE || verdict(g, q) == State::SATISFIABLE,
    ensures
        f.satisfiable_within(q.to_set().insert(l.var())),
{
    let qs = q.to_set();
    let x = l.var();
    let pol = l is Literal;
    let a = if g.state == State::SATISFIABLE {
        |v: char| pol
    } else {
        choose|a: spec_fn(char) -> bool| g.holds_within(qs, a)
    };
    if g.state == State::SATISFIABLE {
        lemma_satisfied_holds(f, l, g, qs, a);
    }
    let b = |v: char| if v == x { pol } else { a(v) };
    lemma_agree(g, qs, a, b);
    assert(l.holds(b));
    lemma_formula_step(f, l, g, qs, b);
}

/// A formula satisfiable within the pool has one of its two reductions by the
/// pool's variable `x` settled satisfied, or satisfiable within the rest of
/// a pool that is not empty.
proof fn lemma_branch_complete(f: CNFView, x: char, q: Seq<char>, g1: CNFView, g2: CNFView)
    requires
        f.reduces_to(Literal::Literal(x), g1),
        f.reduces_to(Literal::ComplementedLiteral(x), g2),
        !q.to_set().contains(x),
        f.satisfiable_within(q.to_set().insert(x)),
    ensures
        g1.state == State::SATISFIABLE || verdict(g1, q) == State::SATISFIABLE || g2.state
            == State::SATISFIABLE || verdict(g2, q) == State::SATISFIABLE,
{
    let qs = q.to_set();
    let p = qs.insert(x);
    let pos = Literal::Literal(x);
    let neg = Literal::ComplementedLiteral(x);
    if q.len() == 0 {
        assert(qs =~= Set::<char>::empty());
    }
    let a = choose|a: spec_fn(char) -> bool| f.holds_within(p, a);
    if a(x) {
        lemma_formula_step(f, pos, g1, qs, a);
        if q.len() == 0 {
            lemma_holds_without_vars(f, pos, g1, a);
        }
    } else {
        lemma_formula_step(f, neg, g2, qs, a);
        if q.len() == 0 {
            lemma_holds_without_vars(f, neg, g2, a);
        }
    }
}

/// Decides whether some assignment to the variables of `literals` satisfies
/// `cnf`, branching on the last variable of the pool first on its asserted
/// and then on its negated literal. On an unsatisfiable verdict the pool is
/// handed back as it came; on a satisfiable one the variables still under
/// trial are left out of it.
pub fn dpll(cnf: &mut CNF, literals: &mut Vec<char>) -> (r: State)
    requires
        old(cnf).wf(),
        old(literals)@.no_duplicates(),
    ensures
        *final(cnf) == *old(cnf),
        r == verdict(old(cnf)@, old(literals)@),
        r == State::UNSATISFIABLE ==> final(literals)@ == old(literals)@,
        r == State::SATISFIABLE ==> final(literals)@.len() < old(literals)@.len(),
        r == State::SATISFIABLE ==> final(literals)@ == old(literals)@.take(
            final(literals)@.len() as int,
        ),
    decreases old(literals)@.len(),
{
    let ghost f = cnf@;
    let ghost pool = literals@;
    if literals.len() == 0 {
        return State::UNSATISFIABLE;
    }
    let literal = literals.pop().unwrap();
    let ghost rest = literals@;
    proof {
        assert(pool == rest.push(literal));
        rest.lemma_push_to_set_commute(literal);
        assert(rest.no_duplicates());
        assert(!rest.contains(literal));
    }

    let mut reduced_cnf = cnf.reduce(Literal::Literal(literal));
    let ghost g1 = reduced_cnf@;
    if reduced_cnf.is_statifiable() {
        proof {
            lemma_branch_sound(f, Literal::Literal(literal), rest, g1);
        }
        return State::SATISFIABLE;
    }
    let state = dpll(&mut reduced_cnf, literals);
    if state == State::SATISFIABLE {
        proof {
            lemma_branch_sound(f, Literal::Literal(literal), rest, g1);
            assert(literals@ == pool.take(literals@.len() as int));
        }
        return State::SATISFIABLE;
    }

    let mut reduced_cnf = cnf.reduce(Literal::ComplementedLiteral(literal));
    let ghost g2 = reduced_cnf@;
    if reduced_cnf.is_statifiable() {
        proof {
            lemma_branch_sound(f, Literal::ComplementedLiteral(literal), rest, g2);
        }
        return State::SATISFIABLE;
    }
    let state = dpll(&mut reduced_cnf, literals);
    if state == State::SATISFIABLE {
        proof {
            lemma_branch_sound(f, Literal::ComplementedLiteral(literal), rest, g2);
            assert(literals@ == pool.take(literals@.len() as int));
        }
        return State::SATISFIABLE;
    }
    literals.push(literal);
    proof {
        if f.satisfiable_within(pool.to_set()) {
            lemma_branch_complete(f, literal, rest, g1, g2);
        }
    }
    State::UNSATISFIABLE
}

} // verus!
