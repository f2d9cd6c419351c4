use vstd::prelude::*;

verus! {

/// A variable, asserted or negated.
#[derive(Debug, Clone, Copy, Hash, PartialEq, Eq, Structural)]
pub enum Literal {
    Literal(char),
    ComplementedLiteral(char),
}

impl Literal {
    /// The variable that the literal speaks of.
    pub open spec fn var(self) -> char {
        match self {
            Literal::Literal(v) => v,
            Literal::ComplementedLiteral(v) => v,
        }
    }

    pub open spec fn spec_complement(&self) -> Literal {
        match self {
            Literal::Literal(v) => Literal::ComplementedLiteral(*v),
            Literal::ComplementedLiteral(v) => Literal::Literal(*v),
        }
    }

    /// Whether the literal is true when each variable `v` takes the value `a(v)`.
    pub open spec fn holds(self, a: spec_fn(char) -> bool) -> bool {
        match self {
            Literal::Literal(v) => a(v),
            Literal::ComplementedLiteral(v) => !a(v),
        }
    }

    /// The same variable with the other polarity.
    #[verifier::when_used_as_spec(spec_complement)]
    pub fn complement(&self) -> (r: Literal)
        ensures
            r == self.spec_complement(),
    {
        match self {
            Literal::Literal(v) => Literal::ComplementedLiteral(*v),
            Literal::ComplementedLiteral(v) => Literal::Literal(*v),
        }
    }
}

/// Tri-state status of a clause or of a formula.
#[derive(Debug, Clone, Copy, Hash, PartialEq, Eq, Structural)]
pub enum State {
    SATISFIABLE,
    UNSATISFIABLE,
    UNDERTIMINED,
}

/// A disjunction of distinct literals, with its status.
#[derive(Debug)]
pub struct Clause {
    literals: Vec<Literal>,
    state: State,
}

/// What a clause stands for: its set of literals and its status.
pub struct ClauseView {
    pub literals: Set<Literal>,
    pub state: State,
}

impl ClauseView {
    /// The clause once `l` has been made true. A clause whose status is
    /// settled keeps it; otherwise a matching literal satisfies the clause, and
    /// a falsified one is dropped, leaving the clause unsatisfiable when it
    /// was the last.
    pub open spec fn reduced(self, l: Literal) -> ClauseView {
        if self.state != State::UNDERTIMINED {
            self
        } else if self.literals.contains(l) {
            ClauseView { literals: self.literals.remove(l), state: State::SATISFIABLE }
        } else if self.literals.contains(l.complement()) {
            let rest = self.literals.remove(l.complement());
            ClauseView {
                literals: rest,
                state: if rest == Set::<Literal>::empty() {
                    State::UNSATISFIABLE
                } else {
                    State::UNDERTIMINED
                },
            }
        } else {
            self
        }
    }
}

impl ClauseView {
    /// Whether the clause holds when each variable `v` takes the value
    /// `a(v)`, counting only the literals whose variable lies in `d`: a
    /// satisfied clause holds, an unsatisfiable one does not, and an
    /// undetermined one holds when one of those literals is true.
    pub open spec fn holds_within(self, d: Set<char>, a: spec_fn(char) -> bool) -> bool {
        match self.state {
            State::SATISFIABLE => true,
            State::UNSATISFIABLE => false,
            State::UNDERTIMINED => exists|l: Literal|
                #![trigger self.literals.contains(l), l.holds(a)]
                self.literals.contains(l) && d.contains(l.var()) && l.holds(a),
        }
    }

    /// Whether the clause holds when each variable `v` takes the value `a(v)`.
    pub open spec fn holds(self, a: spec_fn(char) -> bool) -> bool {
        match self.state {
            State::SATISFIABLE => true,
            State::UNSATISFIABLE => false,
            State::UNDERTIMINED => exists|l: Literal|
                #![trigger self.literals.contains(l), l.holds(a)]
                self.literals.contains(l) && l.holds(a),
        }
    }
}

/// The clause after the literals of `ls` have been made true, in order.
pub open spec fn reduced_by_all(c: ClauseView, ls: Seq<Literal>) -> ClauseView
    decreases ls.len(),
{
    if ls.len() == 0 {
        c
    } else {
        reduced_by_all(c.reduced(ls[0]), ls.skip(1))
    }
}

/// Reduction is monotone: whatever literals are made true, in whatever
/// order, a clause keeps a subset of its literals, so never more of them,
/// and a clause already satisfied or unsatisfiable keeps that status.
pub proof fn lemma_reduce_monotone(c: ClauseView, ls: Seq<Literal>)
    requires
        c.literals.finite(),
    ensures
        reduced_by_all(c, ls).literals.subset_of(c.literals),
        reduced_by_all(c, ls).literals.len() <= c.literals.len(),
        c.state != State::UNDERTIMINED ==> reduced_by_all(c, ls).state == c.state,
    decreases ls.len(),
{
    if ls.len() > 0 {
        let d = c.reduced(ls[0]);
        assert(d.literals.subset_of(c.literals));
        vstd::set_lib::lemma_len_subset(d.literals, c.literals);
        lemma_reduce_monotone(d, ls.skip(1));
    }
    vstd::set_lib::lemma_len_subset(reduced_by_all(c, ls).literals, c.literals);
}

/// Reducing an undetermined clause by a literal whose variable does not
/// occur in it gives back the same literals, still undetermined.
pub proof fn lemma_reduce_unrelated(c: ClauseView, l: Literal)
    requires
        c.state == State::UNDERTIMINED,
        forall|m: Literal| #[trigger] c.literals.contains(m) ==> m.var() != l.var(),
    ensures
        c.reduced(l).literals == c.literals,
        c.reduced(l).state == State::UNDERTIMINED,
{
    assert(l.complement().var() == l.var());
}

/// Dropping one entry of a sequence without repetition drops exactly that
/// element from its set.
proof fn lemma_remove_unique(s: Seq<Literal>, i: int)
    requires
        s.no_duplicates(),
        0 <= i < s.len(),
    ensures
        s.remove(i).no_duplicates(),
        s.remove(i).to_set() == s.to_set().remove(s[i]),
{
    let t = s.remove(i);
    assert forall|j: int, k: int| 0 <= j < t.len() && 0 <= k < t.len() && j != k implies t[j]
        != t[k] by {
        let sj = if j < i { j } else { j + 1 };
        let sk = if k < i { k } else { k + 1 };
        assert(t[j] == s[sj] && t[k] == s[sk]);
    }
    assert forall|x: Literal| #[trigger] t.to_set().contains(x) <==> s.to_set().remove(
        s[i],
    ).contains(x) by {
        if t.to_set().contains(x) {
            let j = choose|j: int| 0 <= j < t.len() && t[j] == x;
            let sj = if j < i { j } else { j + 1 };
            assert(s[sj] == x);
        }
        if s.to_set().remove(s[i]).contains(x) {
            let k = choose|k: int| 0 <= k < s.len() && s[k] == x;
            assert(k != i);
            let tk = if k < i { k } else { k - 1 };
            assert(t[tk] == x);
        }
    }
    assert(t.to_set() =~= s.to_set().remove(s[i]));
}

/// The index at which `l` stands in `v`, if it does.
fn position(v: &Vec<Literal>, l: &Literal) -> (r: Option<usize>)
    ensures
        match r {
            Some(i) => i < v.len() && v@[i as int] == *l,
            None => !v@.contains(*l),
        },
{
    let mut i: usize = 0;
    while i < v.len()
        invariant
            i <= v.len(),
            forall|j: int| 0 <= j < i ==> v@[j] != *l,
        decreases v.len() - i,
    {
        if v[i] == *l {
            return Some(i);
        }
        i = i + 1;
    }
    None
}

/// A copy of `v`, element for element.
fn copy_literals(v: &Vec<Literal>) -> (r: Vec<Literal>)
    ensures
        r@ == v@,
{
    let mut r: Vec<Literal> = Vec::new();
    let mut i: usize = 0;
    while i < v.len()
        invariant
            i <= v.len(),
            r@ == v@.take(i as int),
        decreases v.len() - i,
    {
        r.push(v[i]);
        i = i + 1;
        assert(r@ =~= v@.take(i as int));
    }
    assert(v@.take(i as int) =~= v@);
    r
}

impl View for Clause {
    type V = ClauseView;

    closed spec fn view(&self) -> ClauseView {
        ClauseView { literals: self.literals@.to_set(), state: self.state }
    }
}

impl Clause {
    /// The literals are held without repetition.
    pub closed spec fn wf(&self) -> bool {
        self.literals@.no_duplicates()
    }

    pub fn new() -> (r: Self)
        ensures
            r.wf(),
            r@.literals == Set::<Literal>::empty(),
            r@.state == State::UNDERTIMINED,
    {
        let r = Self { literals: Vec::new(), state: State::UNDERTIMINED };
        assert(r.literals@.to_set() =~= Set::<Literal>::empty());
        r
    }

    /// Adds `literal`, unless the clause holds it already.
    pub fn add(&mut self, literal: Literal)
        requires
            old(self).wf(),
        ensures
            final(self).wf(),
            final(self)@.literals == old(self)@.literals.insert(literal),
            final(self)@.state == old(self)@.state,
    {
        let ghost before = self.literals@;
        match position(&self.literals, &literal) {
            Some(i) => {
                assert(before.to_set().contains(before[i as int]));
                assert(before.to_set().insert(literal) =~= before.to_set());
            },
            None => {
                self.literals.push(literal);
                proof {
                    before.lemma_push_to_set_commute(literal);
                    assert(self.literals@ == before.push(literal));
                }
            },
        }
    }

    /// Removes every literal.
    pub fn clear(&mut self)
        ensures
            final(self).wf(),
            final(self)@.literals == Set::<Literal>::empty(),
            final(self)@.state == old(self)@.state,
    {
        self.literals.clear();
        assert(self.literals@.to_set() =~= Set::<Literal>::empty());
    }

    pub fn is_empty(&self) -> (r: bool)
        ensures
            r == (self@.literals == Set::<Literal>::empty()),
    {
        if self.literals.len() == 0 {
            assert(self.literals@.to_set() =~= Set::<Literal>::empty());
            true
        } else {
            assert(self.literals@.to_set().contains(self.literals@[0]));
            false
        }
    }

    pub fn is_undertimed(&self) -> (r: bool)
        ensures
            r == (self@.state == State::UNDERTIMINED),
    {
        self.state == State::UNDERTIMINED
    }

    pub fn is_unstatifiable(&self) -> (r: bool)
        ensures
            r == (self@.state == State::UNSATISFIABLE),
    {
        self.state == State::UNSATISFIABLE
    }

    pub fn is_statifiable(&self) -> (r: bool)
        ensures
            r == (self@.state == State::SATISFIABLE),
    {
        self.state == State::SATISFIABLE
    }

    pub fn set_state(&mut self, state: State)
        ensures
            final(self).wf() == old(self).wf(),
            final(self)@.literals == old(self)@.literals,
            final(self)@.state == state,
    {
        self.state = state;
    }

    /// A clause with the same literals and status.
    fn copied(&self) -> (r: Clause)
        ensures
            r.literals@ == self.literals@,
            r.state == self.state,
    {
        Clause { literals: copy_literals(&self.literals), state: self.state }
    }

    /// The clause that results from making `literal` true.
    pub fn reduce(&self, literal: &Literal) -> (r: Clause)
        requires
            self.wf(),
        ensures
            r.wf(),
            r@ == self@.reduced(*literal),
    {
        if self.state != State::UNDERTIMINED {
            return self.copied();
        }
        let mut reduced_clause = self.copied();
        match position(&reduced_clause.literals, literal) {
            Some(i) => {
                proof {
                    lemma_remove_unique(reduced_clause.literals@, i as int);
                }
                reduced_clause.literals.remove(i);
                reduced_clause.state = State::SATISFIABLE;
            },
            None => {
                let complement = literal.complement();
                match position(&reduced_clause.literals, &complement) {
                    Some(i) => {
                        proof {
                            lemma_remove_unique(reduced_clause.literals@, i as int);
                        }
                        reduced_clause.literals.remove(i);
                        if reduced_clause.is_empty() {
                            reduced_clause.state = State::UNSATISFIABLE;
                        }
                    },
                    None => {},
                }
            },
        }
        reduced_clause
    }
}

/// Whether every element of `v` is in `w`.
fn all_within(v: &Vec<Literal>, w: &Vec<Literal>) -> (r: bool)
    ensures
        r == v@.to_set().subset_of(w@.to_set()),
{
    let mut i: usize = 0;
    while i < v.len()
        invariant
            i <= v.len(),
            forall|k: int| 0 <= k < i ==> w@.contains(#[trigger] v@[k]),
        decreases v.len() - i,
    {
        match position(w, &v[i]) {
            Some(j) => {
                assert(w@[j as int] == v@[i as int]);
            },
            None => {
                assert(v@.to_set().contains(v@[i as int]));
                return false;
            },
        }
        i = i + 1;
    }
    assert forall|x: Literal| v@.to_set().contains(x) implies w@.to_set().contains(x) by {
        let k = choose|k: int| 0 <= k < v.len() && v@[k] == x;
        assert(w@.contains(v@[k]));
    }
    true
}

/// Two clauses are equal when they hold the same literals, in any order,
/// and have the same status.
impl PartialEq for Clause {
    fn eq(&self, other: &Clause) -> (r: bool) {
        let same = self.state == other.state && all_within(&self.literals, &other.literals)
            && all_within(&other.literals, &self.literals);
        proof {
            if same {
                assert(self@.literals =~= other@.literals);
            }
        }
        same
    }
}

impl Eq for Clause {

}

impl vstd::std_specs::cmp::PartialEqSpecImpl for Clause {
    open spec fn obeys_eq_spec() -> bool {
        true
    }

    open spec fn eq_spec(&self, other: &Clause) -> bool {
        self@ == other@
    }
}

/// A conjunction of clauses, in order, with its aggregate status.
#[derive(Debug)]
pub struct CNF {
    clauses: Vec<Clause>,
    state: State,
}

/// What a formula stands for: its clauses in order and its status.
pub struct CNFView {
    pub clauses: Seq<ClauseView>,
    pub state: State,
}

impl CNFView {
    /// Whether `g` is this formula reduced by making `l` true: clauses are
    /// reduced in order up to and including the first one that becomes
    /// unsatisfiable, which makes `g` unsatisfiable; without one, `g` is
    /// satisfied when all of its clauses are and undetermined otherwise.
    pub open spec fn reduces_to(self, l: Literal, g: CNFView) -> bool {
        let n = g.clauses.len();
        &&& n <= self.clauses.len()
        &&& forall|i: int| 0 <= i < n ==> g.clauses[i] == #[trigger] self.clauses[i].reduced(l)
        &&& forall|i: int|
            0 <= i < n - 1 ==> (#[trigger] self.clauses[i].reduced(l)).state
                != State::UNSATISFIABLE
        &&& if g.state == State::UNSATISFIABLE {
            n > 0 && self.clauses[n - 1].reduced(l).state == State::UNSATISFIABLE
        } else {
            &&& n == self.clauses.len()
            &&& forall|i: int|
                0 <= i < n ==> (#[trigger] self.clauses[i].reduced(l)).state
                    != State::UNSATISFIABLE
            &&& (g.state == State::SATISFIABLE) == (forall|i: int|
                0 <= i < n ==> (#[trigger] self.clauses[i].reduced(l)).state
                    == State::SATISFIABLE)
        }
    }
}

impl CNFView {
    /// Whether every clause holds under `a`, counting only the variables in `d`.
    pub open spec fn holds_within(self, d: Set<char>, a: spec_fn(char) -> bool) -> bool {
        forall|i: int| 0 <= i < self.clauses.len() ==> (#[trigger] self.clauses[i]).holds_within(d, a)
    }

    /// Whether some assignment to the variables in `d` makes every clause hold.
    pub open spec fn satisfiable_within(self, d: Set<char>) -> bool {
        exists|a: spec_fn(char) -> bool| self.holds_within(d, a)
    }

    /// Whether every clause holds under `a`.
    pub open spec fn holds(self, a: spec_fn(char) -> bool) -> bool {
        forall|i: int| 0 <= i < self.clauses.len() ==> (#[trigger] self.clauses[i]).holds(a)
    }

    /// Whether some assignment makes every clause hold.
    pub open spec fn satisfiable(self) -> bool {
        exists|a: spec_fn(char) -> bool| self.holds(a)
    }

    /// The variables of the literals of the undetermined clauses.
    pub open spec fn vars(self) -> Set<char> {
        Set::new(
            |v: char|
                exists|i: int, l: Literal|
                    0 <= i < self.clauses.len() && self.clauses[i].state == State::UNDERTIMINED
                        && #[trigger] self.clauses[i].literals.contains(l) && l.var() == v,
        )
    }
}

impl View for CNF {
    type V = CNFView;

    closed spec fn view(&self) -> CNFView {
        CNFView { clauses: self.clauses@.map_values(|c: Clause| c@), state: self.state }
    }
}

impl CNF {
    /// Every clause is well formed.
    pub closed spec fn wf(&self) -> bool {
        forall|i: int| 0 <= i < self.clauses.len() ==> (#[trigger] self.clauses@[i]).wf()
    }

    pub fn new() -> (r: Self)
        ensures
            r.wf(),
            r@.clauses == Seq::<ClauseView>::empty(),
            r@.state == State::UNDERTIMINED,
    {
        let r = Self { clauses: Vec::new(), state: State::UNDERTIMINED };
        assert(r@.clauses =~= Seq::<ClauseView>::empty());
        r
    }

    /// Appends `clause` as the last clause.
    pub fn add(&mut self, clause: Clause)
        requires
            old(self).wf(),
            clause.wf(),
        ensures
            final(self).wf(),
            final(self)@.clauses == old(self)@.clauses.push(clause@),
            final(self)@.state == old(self)@.state,
    {
        self.clauses.push(clause);
        assert(self@.clauses =~= old(self)@.clauses.push(clause@));
    }

    pub fn is_empty(&self) -> (r: bool)
        ensures
            r == (self@.clauses.len() == 0),
    {
        self.clauses.len() == 0
    }

    pub fn is_statifiable(&self) -> (r: bool)
        ensures
            r == (self@.state == State::SATISFIABLE),
    {
        self.state == State::SATISFIABLE
    }

    pub fn set_state(&mut self, state: State)
        ensures
            final(self).wf() == old(self).wf(),
            final(self)@.clauses == old(self)@.clauses,
            final(self)@.state == state,
    {
        self.state = state;
    }

    /// The formula that results from making `literal` true; this formula is
    /// left as it was.
    pub fn reduce(&mut self, literal: Literal) -> (r: CNF)
        requires
            old(self).wf(),
        ensures
            *final(self) == *old(self),
            r.wf(),
            old(self)@.reduces_to(literal, r@),
    {
        let ghost f = self@;
        let mut state = State::SATISFIABLE;
        let mut reduced_cnf = Self { clauses: Vec::new(), state: State::UNDERTIMINED };
        let mut i: usize = 0;
        while i < self.clauses.len() && state != State::UNSATISFIABLE
            invariant
                *self == *old(self),
                f == self@,
                self.wf(),
                reduced_cnf.wf(),
                i <= self.clauses.len(),
                reduced_cnf.clauses.len() == i,
                forall|j: int|
                    0 <= j < i ==> (#[trigger] reduced_cnf.clauses@[j])@ == f.clauses[j].reduced(
                        literal,
                    ),
                state == State::UNSATISFIABLE ==> i > 0 && f.clauses[i - 1].reduced(literal).state
                    == State::UNSATISFIABLE,
                forall|j: int|
                    0 <= j < i - 1 ==> (#[trigger] f.clauses[j].reduced(literal)).state
                        != State::UNSATISFIABLE,
                state != State::UNSATISFIABLE ==> forall|j: int|
                    0 <= j < i ==> (#[trigger] f.clauses[j].reduced(literal)).state
                        != State::UNSATISFIABLE,
                state != State::UNSATISFIABLE ==> ((state == State::SATISFIABLE) == (forall|j: int|
                    0 <= j < i ==> (#[trigger] f.clauses[j].reduced(literal)).state
                        == State::SATISFIABLE)),
            decreases self.clauses.len() - i,
        {
            let clause = &self.clauses[i];
            assert(clause@ == f.clauses[i as int]);
            let reduced_clause = if clause.is_statifiable() {
                clause.copied()
            } else {
                clause.reduce(&literal)
            };
            if reduced_clause.is_unstatifiable() {
                state = State::UNSATISFIABLE;
            } else if reduced_clause.is_undertimed() {
                state = State::UNDERTIMINED;
            }
            reduced_cnf.clauses.push(reduced_clause);
            i = i + 1;
        }
        reduced_cnf.set_state(state);
        reduced_cnf
    }
}

/// A formula together with the variables that occur in it.
pub struct CNFWrapper {
    pub cnf: CNF,
    pub literals: Vec<char>,
}

impl CNFWrapper {
    pub fn new() -> (r: Self)
        ensures
            r.cnf.wf(),
            r.cnf@.clauses == Seq::<ClauseView>::empty(),
            r.cnf@.state == State::UNDERTIMINED,
            r.literals@ == Seq::<char>::empty(),
    {
        Self { cnf: CNF::new(), literals: Vec::new() }
    }
}

} // verus!
