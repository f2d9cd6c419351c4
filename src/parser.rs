use crate::formula::{CNFView, CNFWrapper, Clause, ClauseView, Literal, State};
use vstd::prelude::*;

verus! {

/// Whether `c` is one of the ASCII whitespace characters, which are dropped
/// before the text is split.
pub open spec fn is_blank(c: char) -> bool {
    c == ' ' || c == '\t' || c == '\n' || c == '\x0C' || c == '\r'
}

/// The text without its whitespace.
pub open spec fn without_blanks(s: Seq<char>) -> Seq<char>
    decreases s.len(),
{
    if s.len() == 0 {
        s
    } else if is_blank(s.last()) {
        without_blanks(s.drop_last())
    } else {
        without_blanks(s.drop_last()).push(s.last())
    }
}

/// The pieces of `s` between occurrences of the separator made of `c` twice,
/// found from left to right without overlap.
pub open spec fn split_on(s: Seq<char>, c: char) -> Seq<Seq<char>>
    decreases s.len(),
{
    if s.len() < 2 {
        seq![s]
    } else if s[0] == c && s[1] == c {
        seq![Seq::<char>::empty()] + split_on(s.skip(2), c)
    } else {
        let rest = split_on(s.skip(1), c);
        rest.update(0, seq![s[0]] + rest[0])
    }
}

/// `s` without the opening parentheses that start it.
pub open spec fn trim_open(s: Seq<char>) -> Seq<char>
    decreases s.len(),
{
    if s.len() > 0 && s[0] == '(' {
        trim_open(s.skip(1))
    } else {
        s
    }
}

/// `s` without the closing parentheses that end it.
pub open spec fn trim_close(s: Seq<char>) -> Seq<char>
    decreases s.len(),
{
    if s.len() > 0 && s.last() == ')' {
        trim_close(s.drop_last())
    } else {
        s
    }
}

proof fn lemma_split_nonempty(s: Seq<char>, c: char)
    ensures
        split_on(s, c).len() >= 1,
    decreases s.len(),
{
    if s.len() >= 2 {
        lemma_split_nonempty(s.skip(2), c);
        lemma_split_nonempty(s.skip(1), c);
    }
}

/// `x` with `cur` put in front of its first piece.
spec fn prefixed(cur: Seq<char>, x: Seq<Seq<char>>) -> Seq<Seq<char>> {
    x.update(0, cur + x[0])
}

/// The views of a vector of character vectors.
spec fn views(v: Seq<Vec<char>>) -> Seq<Seq<char>> {
    v.map_values(|p: Vec<char>| p@)
}

/// The characters of `s` that are not whitespace.
fn strip_blanks(s: &Vec<char>) -> (r: Vec<char>)
    ensures
        r@ == without_blanks(s@),
{
    let mut r: Vec<char> = Vec::new();
    let mut i: usize = 0;
    while i < s.len()
        invariant
            i <= s.len(),
            r@ == without_blanks(s@.take(i as int)),
        decreases s.len() - i,
    {
        let c = s[i];
        assert(s@.take(i + 1).drop_last() == s@.take(i as int));
        if !(c == ' ' || c == '\t' || c == '\n' || c == '\x0C' || c == '\r') {
            r.push(c);
        }
        i = i + 1;
    }
    assert(s@.take(i as int) == s@);
    r
}

/// The pieces of `s` between occurrences of `c` twice.
fn split_pieces(s: &Vec<char>, c: char) -> (r: Vec<Vec<char>>)
    ensures
        views(r@) == split_on(s@, c),
{
    let mut done: Vec<Vec<char>> = Vec::new();
    let mut cur: Vec<char> = Vec::new();
    let mut i: usize = 0;
    proof {
        assert(s@.skip(0) == s@);
        lemma_split_nonempty(s@, c);
    }
    assert(prefixed(cur@, split_on(s@, c)) =~= split_on(s@, c));
    while i < s.len()
        invariant
            i <= s.len(),
            split_on(s@, c) == views(done@) + prefixed(cur@, split_on(s@.skip(i as int), c)),
        decreases s.len() - i,
    {
        let ghost tail = s@.skip(i as int);
        if i + 1 < s.len() && s[i] == c && s[i + 1] == c {
            let ghost rest = split_on(s@.skip(i + 2), c);
            proof {
                assert(tail.skip(2) == s@.skip(i + 2));
                lemma_split_nonempty(s@.skip(i + 2), c);
                assert(prefixed(Seq::<char>::empty(), rest) =~= rest);
            }
            assert(views(done@.push(cur)) == views(done@).push(cur@));
            assert(prefixed(cur@, split_on(tail, c)) =~= seq![cur@] + rest);
            done.push(cur);
            cur = Vec::new();
            i = i + 2;
            assert(split_on(s@, c) =~= views(done@) + prefixed(cur@, split_on(s@.skip(i as int), c)));
        } else {
            let x = s[i];
            let ghost rest = split_on(s@.skip(i + 1), c);
            proof {
                assert(tail.skip(1) == s@.skip(i + 1));
                lemma_split_nonempty(s@.skip(i + 1), c);
                if tail.len() == 1 {
                    assert(s@.skip(i + 1) =~= Seq::<char>::empty());
                    assert(tail =~= seq![x]);
                }
            }
            let ghost before = cur@;
            cur.push(x);
            i = i + 1;
            proof {
                if tail.len() >= 2 {
                    assert(tail[0] == x);
                    assert(split_on(tail, c) == rest.update(0, seq![x] + rest[0]));
                    assert(before + (seq![x] + rest[0]) =~= cur@ + rest[0]);
                } else {
                    assert(split_on(tail, c) == seq![tail]);
                    assert(before + tail =~= cur@ + rest[0]);
                }
            }
            assert(prefixed(before, split_on(tail, c)) =~~= prefixed(cur@, rest));
        }
    }
    assert(s@.skip(i as int) =~= Seq::<char>::empty());
    assert(views(done@.push(cur)) =~= split_on(s@, c));
    done.push(cur);
    done
}

/// `s` without its leading opening and trailing closing parentheses.
fn trim_parens(s: &Vec<char>) -> (r: Vec<char>)
    ensures
        r@ == trim_close(trim_open(s@)),
{
    let mut i: usize = 0;
    assert(s@.skip(0) == s@);
    while i < s.len() && s[i] == '('
        invariant
            i <= s.len(),
            trim_open(s@) == trim_open(s@.skip(i as int)),
        decreases s.len() - i,
    {
        assert(s@.skip(i as int).skip(1) == s@.skip(i + 1));
        i = i + 1;
    }
    assert(trim_open(s@) == s@.skip(i as int));
    assert(s@.skip(i as int) == s@.subrange(i as int, s.len() as int));
    let mut j: usize = s.len();
    while j > i && s[j - 1] == ')'
        invariant
            i <= j <= s.len(),
            trim_close(trim_open(s@)) == trim_close(s@.subrange(i as int, j as int)),
        decreases j,
    {
        assert(s@.subrange(i as int, j as int).drop_last() == s@.subrange(i as int, j - 1));
        j = j - 1;
    }
    let mut r: Vec<char> = Vec::new();
    let mut k: usize = i;
    while k < j
        invariant
            i <= k <= j <= s.len(),
            r@ == s@.subrange(i as int, k as int),
        decreases j - k,
    {
        r.push(s[k]);
        k = k + 1;
        assert(r@ =~= s@.subrange(i as int, k as int));
    }
    r
}

/// Whether `v` is in the pool.
fn has_symbol(pool: &Vec<char>, v: char) -> (r: bool)
    ensures
        r == pool@.contains(v),
{
    let mut i: usize = 0;
    while i < pool.len()
        invariant
            i <= pool.len(),
            forall|k: int| 0 <= k < i ==> pool@[k] != v,
        decreases pool.len() - i,
    {
        if pool[i] == v {
            return true;
        }
        i = i + 1;
    }
    false
}

/// Adds `v` to a pool of distinct variables, unless it is there already.
fn add_symbol(pool: &mut Vec<char>, v: char)
    requires
        old(pool)@.no_duplicates(),
    ensures
        final(pool)@.no_duplicates(),
        final(pool)@.to_set() == old(pool)@.to_set().insert(v),
{
    let ghost before = pool@;
    if has_symbol(pool, v) {
        assert(before.to_set().insert(v) =~= before.to_set());
    } else {
        pool.push(v);
        proof {
            before.lemma_push_to_set_commute(v);
            assert(pool@ == before.push(v));
        }
    }
}

/// The clauses of a text, before their parentheses are trimmed.
pub open spec fn clauses_of(text: Seq<char>) -> Seq<Seq<char>> {
    split_on(without_blanks(text), '&')
}

/// The terms of one clause of a text, one for each literal.
pub open spec fn terms_of(clause: Seq<char>) -> Seq<Seq<char>> {
    split_on(trim_close(trim_open(clause)), '|')
}

/// The literal that a term stands for: its first character is the
/// variable, asserted when it stands alone and negated when a marker
/// follows it.
pub open spec fn literal_of(term: Seq<char>) -> Literal {
    if term.len() == 1 {
        Literal::Literal(term[0])
    } else {
        Literal::ComplementedLiteral(term[0])
    }
}

/// Whether every term of every clause of the text is non-empty.
pub open spec fn well_formed(text: Seq<char>) -> bool {
    forall|i: int, j: int|
        0 <= i < clauses_of(text).len() && 0 <= j < terms_of(clauses_of(text)[i]).len() ==> (
        #[trigger] terms_of(clauses_of(text)[i])[j]).len() > 0
}

/// The literals of the terms `t`.
pub open spec fn literals_of(t: Seq<Seq<char>>) -> Set<Literal> {
    t.map_values(|term: Seq<char>| literal_of(term)).to_set()
}

/// The undetermined clause that a clause of a text stands for.
pub open spec fn clause_of(clause: Seq<char>) -> ClauseView {
    ClauseView { literals: literals_of(terms_of(clause)), state: State::UNDERTIMINED }
}

/// The undetermined formula that a text stands for.
pub open spec fn formula_of(text: Seq<char>) -> CNFView {
    CNFView {
        clauses: clauses_of(text).map_values(|c: Seq<char>| clause_of(c)),
        state: State::UNDERTIMINED,
    }
}

/// Whether `r` is what reading `text` gives: nothing when a term is empty,
/// and otherwise the formula of the text with its variables, each once.
pub open spec fn describes(text: Seq<char>, r: Option<CNFWrapper>) -> bool {
    match r {
        None => !well_formed(text),
        Some(w) => {
            &&& well_formed(text)
            &&& w.cnf.wf()
            &&& w.cnf@ == formula_of(text)
            &&& w.literals@.no_duplicates()
            &&& w.literals@.to_set() == formula_of(text).vars()
        },
    }
}

/// The variables of the literals of a clause.
spec fn vars_of(c: ClauseView) -> Set<char> {
    c.literals.map(|l: Literal| l.var())
}

/// Adding a literal to a clause adds its variable to the clause's.
proof fn lemma_vars_insert(c: ClauseView, l: Literal, d: ClauseView)
    requires
        d.literals == c.literals.insert(l),
    ensures
        vars_of(d) == vars_of(c).insert(l.var()),
{
    assert forall|v: char| vars_of(d).contains(v) <==> vars_of(c).insert(l.var()).contains(v) by {
        if vars_of(d).contains(v) {
            let m = choose|m: Literal| d.literals.contains(m) && m.var() == v;
            if m != l {
                assert(c.literals.contains(m));
            }
        }
        if vars_of(c).contains(v) {
            let m = choose|m: Literal| c.literals.contains(m) && m.var() == v;
            assert(d.literals.contains(m));
        }
        if v == l.var() {
            assert(d.literals.contains(l));
        }
    }
    assert(vars_of(d) =~= vars_of(c).insert(l.var()));
}

/// Appending an undetermined clause adds its variables to the formula's.
proof fn lemma_vars_push(f: CNFView, c: ClauseView, g: CNFView)
    requires
        c.state == State::UNDERTIMINED,
        g.clauses == f.clauses.push(c),
    ensures
        g.vars() == f.vars().union(vars_of(c)),
{
    let n = f.clauses.len() as int;
    assert forall|v: char| g.vars().contains(v) <==> f.vars().union(vars_of(c)).contains(v) by {
        if g.vars().contains(v) {
            let (i, l) = choose|i: int, l: Literal|
                0 <= i < g.clauses.len() && g.clauses[i].state == State::UNDERTIMINED
                    && #[trigger] g.clauses[i].literals.contains(l) && l.var() == v;
            if i < n {
                assert(f.clauses[i].literals.contains(l));
            } else {
                assert(c.literals.contains(l));
            }
        }
        if f.vars().contains(v) {
            let (i, l) = choose|i: int, l: Literal|
                0 <= i < f.clauses.len() && f.clauses[i].state == State::UNDERTIMINED
                    && #[trigger] f.clauses[i].literals.contains(l) && l.var() == v;
            assert(g.clauses[i].literals.contains(l));
        }
        if vars_of(c).contains(v) {
            let l = choose|l: Literal| c.literals.contains(l) && l.var() == v;
            assert(g.clauses[n].literals.contains(l));
        }
    }
    assert(g.vars() =~= f.vars().union(vars_of(c)));
}

/// Reads a formula from text that is already in lower case: whitespace is
/// dropped, clauses are separated by `&&` and may be wrapped in
/// parentheses, and literals are separated by `||`. Gives nothing when a
/// literal is empty.
pub fn parse_folded(text: &Vec<char>) -> (r: Option<CNFWrapper>)
    ensures
        describes(text@, r),
{
    let stripped = strip_blanks(text);
    let clauses = split_pieces(&stripped, '&');
    let ghost cs = clauses_of(text@);
    let mut cnf_wrapper = CNFWrapper::new();
    let mut i: usize = 0;
    assert(cs.take(0).map_values(|c: Seq<char>| clause_of(c)) =~= Seq::<ClauseView>::empty());
    assert(cnf_wrapper.cnf@.vars() =~= Set::<char>::empty());
    assert(cnf_wrapper.literals@.to_set() =~= Set::<char>::empty());
    while i < clauses.len()
        invariant
            cs == clauses_of(text@),
            views(clauses@) == cs,
            i <= clauses.len(),
            cnf_wrapper.cnf.wf(),
            cnf_wrapper.cnf@.state == State::UNDERTIMINED,
            cnf_wrapper.cnf@.clauses == cs.take(i as int).map_values(|c: Seq<char>| clause_of(c)),
            forall|k: int, j: int|
                0 <= k < i && 0 <= j < terms_of(cs[k]).len() ==> (#[trigger] terms_of(
                    cs[k],
                )[j]).len() > 0,
            cnf_wrapper.literals@.no_duplicates(),
            cnf_wrapper.literals@.to_set() == cnf_wrapper.cnf@.vars(),
        decreases clauses.len() - i,
    {
        let inner = trim_parens(&clauses[i]);
        let terms = split_pieces(&inner, '|');
        let ghost ts = terms_of(cs[i as int]);
        assert(clauses@[i as int]@ == cs[i as int]);
        let mut c = Clause::new();
        let mut j: usize = 0;
        assert(ts.take(0).map_values(|t: Seq<char>| literal_of(t)) =~= Seq::<Literal>::empty());
        assert(vars_of(c@) =~= Set::<char>::empty());
        assert(cnf_wrapper.cnf@.vars().union(vars_of(c@)) =~= cnf_wrapper.cnf@.vars());
        let ghost f0 = cnf_wrapper.cnf@;
        while j < terms.len()
            invariant
                cs == clauses_of(text@),
                i < cs.len(),
                ts == terms_of(cs[i as int]),
                cnf_wrapper.cnf@ == f0,
                views(terms@) == ts,
                j <= terms.len(),
                c.wf(),
                c@.state == State::UNDERTIMINED,
                c@.literals == literals_of(ts.take(j as int)),
                forall|k: int| 0 <= k < j ==> (#[trigger] ts[k]).len() > 0,
                cnf_wrapper.cnf.wf(),
                cnf_wrapper.literals@.no_duplicates(),
                cnf_wrapper.literals@.to_set() == cnf_wrapper.cnf@.vars().union(vars_of(c@)),
            decreases terms.len() - j,
        {
            let term = &terms[j];
            assert(term@ == ts[j as int]);
            if term.len() == 0 {
                assert(terms_of(clauses_of(text@)[i as int])[j as int].len() == 0);
                return None;
            }
            let v = term[0];
            let ghost pool_before = cnf_wrapper.literals@.to_set();
            let ghost c_before = c@;
            add_symbol(&mut cnf_wrapper.literals, v);
            let literal = if term.len() == 1 {
                Literal::Literal(v)
            } else {
                Literal::ComplementedLiteral(v)
            };
            c.add(literal);
            proof {
                assert(literal == literal_of(ts[j as int]));
                let m = ts.take(j as int).map_values(|t: Seq<char>| literal_of(t));
                assert(ts.take(j + 1).map_values(|t: Seq<char>| literal_of(t)) =~= m.push(literal));
                m.lemma_push_to_set_commute(literal);
                lemma_vars_insert(c_before, literal, c@);
                assert(cnf_wrapper.literals@.to_set() =~= cnf_wrapper.cnf@.vars().union(
                    vars_of(c@),
                ));
            }
            j = j + 1;
        }
        assert(ts.take(j as int) == ts);
        let ghost f_before = cnf_wrapper.cnf@;
        cnf_wrapper.cnf.add(c);
        proof {
            lemma_vars_push(f_before, c@, cnf_wrapper.cnf@);
            assert(cs.take(i + 1).map_values(|c: Seq<char>| clause_of(c)) =~= cs.take(
                i as int,
            ).map_values(|c: Seq<char>| clause_of(c)).push(clause_of(cs[i as int])));
        }
        i = i + 1;
    }
    assert(cs.take(i as int) == cs);
    Some(cnf_wrapper)
}

/// Stands for what `str::to_lowercase` makes of a text.
pub uninterp spec fn lower_of(s: Seq<char>) -> Seq<char>;

/// Relies on `str::to_lowercase`: its result depends on the characters of
/// the text alone.
#[verifier::external_body]
fn lowercase(s: &str) -> (r: Vec<char>)
    ensures
        r@ == lower_of(s@),
{
    s.to_lowercase().chars().collect()
}

/// Reads a formula from text, after folding it to lower case; see
/// `parse_folded`.
pub fn parse_cnf(cnf: &str) -> (r: Option<CNFWrapper>)
    ensures
        describes(lower_of(cnf@), r),
{
    let folded = lowercase(cnf);
    parse_folded(&folded)
}

} // verus!
