//! Resolution: depth first, clauses in their order, goals from left to
//! right, one answer at a time.
//!
//! The search is a stack of choice points. Each holds the goals that are
//! still to prove and the clause to try next for the first of them; the
//! bindings hold one frame for each choice point. One step tries one
//! clause, so every step ends; a pull makes steps until an answer is there,
//! the search is over, or the steps that the caller allowed are used up.

use vstd::prelude::*;
use crate::bindings::{Binding, Bindings, instantiation, unstacked};
use crate::clause::ClauseView;
use crate::database::Database;
use crate::substitution::{Substitution, lemma_rename_clause_fresh, rename_clause};
use crate::term::{Term, TermView, collect_vars_all, term_text, views};
use crate::unify::{enough, lemma_unify_extends, unified, unify};

verus! {

/// An answer as a mathematical value: for each variable of the query, in
/// the order of their first occurrence, its printed form and its
/// instantiation.
pub type AnswerView = Seq<(Seq<char>, TermView)>;

/// One answer to a query.
#[derive(Debug, PartialEq, Eq)]
pub struct Instantiation {
    pub vars: Vec<(String, Term)>,
}

impl View for Instantiation {
    type V = AnswerView;

    open spec fn view(&self) -> AnswerView {
        Seq::new(self.vars@.len(), |i: int| (self.vars@[i].0@, self.vars@[i].1@))
    }
}

/// The answer that the bindings give for the variables; `None` where one of
/// them has no finite instantiation.
pub open spec fn answer(vars: Seq<TermView>, entries: Seq<Binding>) -> Option<AnswerView>
    decreases vars.len(),
{
    if vars.len() == 0 {
        Some(Seq::empty())
    } else {
        match (answer(vars.drop_last(), entries), instantiation(entries, vars.last())) {
            (Some(front), Some(t)) => Some(front.push((term_text(vars.last()), t))),
            _ => None,
        }
    }
}

/// What one pull gives.
#[derive(Debug, PartialEq, Eq)]
pub enum Pull {
    /// The next answer.
    Answer(Instantiation),
    /// A solution was found, and a variable of the query has no finite
    /// instantiation under it.
    Infinite,
    /// The identities of variables are used up; the search is given up.
    Overflow,
    /// The steps allowed were used up before the next answer was found.
    Pending,
    /// There is no further answer.
    End,
}

/// What one pull gives, as a mathematical value.
pub enum PullView {
    Answer(AnswerView),
    Infinite,
    Overflow,
    Pending,
    End,
}

impl View for Pull {
    type V = PullView;

    open spec fn view(&self) -> PullView {
        match self {
            Pull::Answer(a) => PullView::Answer(a@),
            Pull::Infinite => PullView::Infinite,
            Pull::Overflow => PullView::Overflow,
            Pull::Pending => PullView::Pending,
            Pull::End => PullView::End,
        }
    }
}

/// A choice point as a mathematical value.
pub struct ChoiceView {
    pub goals: Seq<TermView>,
    pub next: nat,
}

/// The state of a search as a mathematical value.
pub struct SolverView {
    pub database: Seq<ClauseView>,
    pub stack: Seq<ChoiceView>,
    pub entries: Seq<Binding>,
    pub marks: Seq<nat>,
    pub counter: int,
    pub vars: Seq<TermView>,
}

/// The state in which the search for `query` starts: one choice point for
/// the whole query, in a frame of its own.
pub open spec fn start(
    database: Seq<ClauseView>,
    query: Seq<TermView>,
    entries: Seq<Binding>,
    marks: Seq<nat>,
    counter: int,
) -> SolverView {
    SolverView {
        database,
        stack: seq![ChoiceView { goals: query, next: 0 }],
        entries,
        marks: marks.push(entries.len()),
        counter,
        vars: collect_vars_all(query, Seq::empty()),
    }
}

/// The state after the innermost choice point was given up: it is gone and
/// so is its frame.
pub open spec fn backtracked(s: SolverView) -> SolverView {
    SolverView {
        database: s.database,
        stack: s.stack.drop_last(),
        entries: unstacked(s.entries, s.marks),
        marks: if s.marks.len() > 0 {
            s.marks.drop_last()
        } else {
            s.marks
        },
        counter: s.counter,
        vars: s.vars,
    }
}

/// One step of the search, and what it gives.
///
/// With no choice point left the search is over. An innermost choice point
/// without goals is a solution: it gives the answer and is given up. One
/// whose clauses are all tried is given up. Otherwise its next clause is
/// renamed in a new frame and its head unified with the first goal; where
/// they unify, a new choice point holds the body of the clause and then the
/// other goals. Where they do not, the frame is dropped, and the bindings
/// are what they were.
pub open spec fn step_outcome(s: SolverView) -> (SolverView, PullView) {
    let db = s.database;
    if s.stack.len() == 0 {
        (s, PullView::End)
    } else {
        let top = s.stack.last();
        if top.goals.len() == 0 {
            match answer(s.vars, s.entries) {
                Some(a) => (backtracked(s), PullView::Answer(a)),
                None => (backtracked(s), PullView::Infinite),
            }
        } else if top.next >= db.len() {
            (backtracked(s), PullView::Pending)
        } else {
            let tried = s.stack.drop_last().push(ChoiceView { goals: top.goals, next: top.next + 1 });
            let renamed = rename_clause(db[top.next as int], Seq::empty(), s.counter);
            if renamed.2 > isize::MAX {
                (
                    SolverView {
                        database: s.database,
                        stack: Seq::empty(),
                        entries: s.entries,
                        marks: s.marks,
                        counter: isize::MAX as int,
                        vars: s.vars,
                    },
                    PullView::Overflow,
                )
            } else {
                let outcome = unified(s.entries, top.goals[0], renamed.0.head);
                if outcome.0 {
                    (
                        SolverView {
                            database: s.database,
                            stack: tried.push(
                                ChoiceView { goals: renamed.0.body + top.goals.skip(1), next: 0 },
                            ),
                            entries: outcome.1,
                            marks: s.marks.push(s.entries.len()),
                            counter: renamed.2,
                            vars: s.vars,
                        },
                        PullView::Pending,
                    )
                } else {
                    (
                        SolverView {
                            database: s.database,
                            stack: tried,
                            entries: s.entries,
                            marks: s.marks,
                            counter: renamed.2,
                            vars: s.vars,
                        },
                        PullView::Pending,
                    )
                }
            }
        }
    }
}

/// Steps until one gives something else than `Pending`, at most `steps` of
/// them.
pub open spec fn pull_outcome(s: SolverView, steps: nat) -> (SolverView, PullView)
    decreases steps,
{
    if steps == 0 {
        (s, PullView::Pending)
    } else {
        let next = step_outcome(s);
        if next.1 is Pending {
            pull_outcome(next.0, (steps - 1) as nat)
        } else {
            next
        }
    }
}

/// A choice point: the goals that are still to prove, and the clause to try
/// next for the first of them.
#[derive(Debug)]
struct ChoicePoint {
    goals: Vec<Term>,
    next_clause: usize,
}

/// A search for the answers to one query.
#[derive(Debug)]
pub struct Solver<'a> {
    database: &'a Database,
    stack: Vec<ChoicePoint>,
    bindings: Bindings,
    query_variables: Vec<Term>,
}

impl<'a> View for Solver<'a> {
    type V = SolverView;

    closed spec fn view(&self) -> SolverView {
        SolverView {
            database: self.database@,
            stack: Seq::new(
                self.stack@.len(),
                |i: int|
                    ChoiceView {
                        goals: views(self.stack@[i].goals@),
                        next: self.stack@[i].next_clause as nat,
                    },
            ),
            entries: self.bindings.entries(),
            marks: self.bindings.marks(),
            counter: self.bindings.counter(),
            vars: views(self.query_variables@),
        }
    }
}

/// The answer that the bindings give for the variables of a query: each
/// with its printed form and its instantiation. `None` where one of them
/// has no finite instantiation.
pub fn resolve_instantiations(query_variables: &Vec<Term>, bindings: &Bindings) -> (r: Option<
    Instantiation,
>)
    ensures
        match r {
            Some(a) => answer(views(query_variables@), bindings.entries()) == Some(a@),
            None => answer(views(query_variables@), bindings.entries()) is None,
        },
{
    let mut vars: Vec<(String, Term)> = Vec::new();
    let mut i: usize = 0;
    let ghost all = views(query_variables@);
    assert(all.take(0) =~= Seq::<TermView>::empty());
    assert((Instantiation { vars })@ =~= Seq::<(Seq<char>, TermView)>::empty());
    while i < query_variables.len()
        invariant
            i <= query_variables.len(),
            all == views(query_variables@),
            answer(all.take(i as int), bindings.entries()) == Some((Instantiation { vars })@),
        decreases query_variables.len() - i,
    {
        let ghost before = (Instantiation { vars })@;
        proof {
            let next = all.take(i + 1);
            assert(next.drop_last() =~= all.take(i as int));
            assert(next.last() == query_variables@[i as int]@);
        }
        match bindings.instantiate(&query_variables[i]) {
            Some(t) => {
                let name = query_variables[i].to_string();
                vars.push((name, t));
                assert((Instantiation { vars })@ =~= before.push(
                    (term_text(query_variables@[i as int]@), t@),
                ));
            },
            None => {
                proof {
                    lemma_answer_none(all, bindings.entries(), i + 1);
                }
                return None;
            },
        }
        i += 1;
    }
    assert(all.take(i as int) =~= all);
    Some(Instantiation { vars })
}

/// Where the first `n` variables have no answer, all of them have none.
pub proof fn lemma_answer_none(vars: Seq<TermView>, entries: Seq<Binding>, n: int)
    requires
        0 <= n <= vars.len(),
        answer(vars.take(n), entries) is None,
    ensures
        answer(vars, entries) is None,
    decreases vars.len() - n,
{
    if n == vars.len() {
        assert(vars.take(n) =~= vars);
    } else {
        let next = vars.take(n + 1);
        assert(next.drop_last() =~= vars.take(n));
        lemma_answer_none(vars, entries, n + 1);
    }
}

/// Starts the search for the answers to `query` against the clauses of
/// `database`, under `bindings`. Nothing is searched before the first pull.
pub fn run<'a>(query: Vec<Term>, database: &'a Database, bindings: Bindings) -> (solver: Solver<'a>)
    ensures
        solver@ == start(
            database@,
            views(query@),
            bindings.entries(),
            bindings.marks(),
            bindings.counter(),
        ),
{
    run_body(query, database, bindings)
}

/// Starts the search for the ways to prove the one goal `query`: for each
/// clause in its order, renamed, whose head unifies with the goal, the ways
/// to prove its body.
pub fn run_query<'a>(query: Term, database: &'a Database, outer_bindings: Bindings) -> (solver:
    Solver<'a>)
    ensures
        solver@ == start(
            database@,
            seq![query@],
            outer_bindings.entries(),
            outer_bindings.marks(),
            outer_bindings.counter(),
        ),
{
    let mut body: Vec<Term> = Vec::new();
    body.push(query);
    assert(views(body@) =~= seq![query@]);
    run_body(body, database, outer_bindings)
}

/// Starts the search for the ways to prove the goals of `body` from left
/// to right: each way to prove the first, followed by each way to prove
/// the others under the bindings that it left. An empty body is proved
/// once, as it stands.
pub fn run_body<'a>(body: Vec<Term>, database: &'a Database, bindings: Bindings) -> (solver: Solver<
    'a,
>)
    ensures
        solver@ == start(
            database@,
            views(body@),
            bindings.entries(),
            bindings.marks(),
            bindings.counter(),
        ),
{
    let query = body;
    let query_variables = Term::find_distinct_variables(&query);
    let mut bindings = bindings;
    bindings.stack();
    let mut stack: Vec<ChoicePoint> = Vec::new();
    stack.push(ChoicePoint { goals: query, next_clause: 0 });
    let solver = Solver { database, stack, bindings, query_variables };
    assert(solver@.stack =~= seq![ChoiceView { goals: views(query@), next: 0 }]);
    solver
}

impl<'a> Solver<'a> {
    /// The identity that was handed out last.
    pub fn last_variable(&self) -> (n: isize)
        ensures
            n == self@.counter,
    {
        self.bindings.last_variable()
    }

    /// The number of choice points.
    pub fn depth(&self) -> (n: usize)
        ensures
            n == self@.stack.len(),
    {
        self.stack.len()
    }

    /// One step of the search.
    pub fn step(&mut self) -> (p: Pull)
        ensures
            (final(self)@, p@) == step_outcome(old(self)@),
    {
        let ghost s = self@;
        let database = self.database;
        let top = match self.stack.pop() {
            None => {
                assert(self@ == s);
                return Pull::End;
            },
            Some(top) => top,
        };
        assert(self@.stack =~= s.stack.drop_last());
        assert(s.stack.last() == (ChoiceView {
            goals: views(top.goals@),
            next: top.next_clause as nat,
        }));
        if top.goals.len() == 0 {
            let r = resolve_instantiations(&self.query_variables, &self.bindings);
            self.bindings.unstack();
            assert(self@ == backtracked(s));
            return match r {
                Some(a) => Pull::Answer(a),
                None => Pull::Infinite,
            };
        }
        if top.next_clause >= database.len() {
            self.bindings.unstack();
            assert(self@ == backtracked(s));
            return Pull::Pending;
        }
        let clause = database.clause(top.next_clause);
        self.bindings.stack();
        let mut substitution = Substitution::new();
        match substitution.map_clause(clause, &mut self.bindings) {
            None => {
                self.bindings.unstack();
                self.stack = Vec::new();
                assert(self@.stack =~= Seq::<ChoiceView>::empty());
                assert(self@.entries =~= s.entries);
                assert(self@.marks =~= s.marks);
                Pull::Overflow
            },
            Some(renamed) => {
                let ghost tried = s.stack.drop_last().push(
                    ChoiceView { goals: views(top.goals@), next: top.next_clause as nat + 1 },
                );
                proof {
                    self.bindings.lemma_counter_bounded();
                }
                let unifies = unify(&top.goals[0], &renamed.head, &mut self.bindings);
                assert(views(top.goals@)[0] == top.goals@[0]@);
                if unifies {
                    let mut goals = renamed.body;
                    let ghost body = views(goals@);
                    let mut i: usize = 1;
                    assert(views(top.goals@).subrange(1, 1) =~= Seq::<TermView>::empty());
                    assert(views(goals@) =~= body + Seq::<TermView>::empty());
                    while i < top.goals.len()
                        invariant
                            1 <= i <= top.goals.len(),
                            views(goals@) == body + views(top.goals@).subrange(1, i as int),
                        decreases top.goals.len() - i,
                    {
                        let ghost before = views(goals@);
                        goals.push(top.goals[i].clone());
                        assert(views(goals@) =~= before.push(top.goals@[i as int]@));
                        assert(views(goals@) =~= body + views(top.goals@).subrange(1, i + 1));
                        i += 1;
                    }
                    assert(views(top.goals@).subrange(1, i as int) =~= views(top.goals@).skip(1));
                    self.stack.push(
                        ChoicePoint { goals: top.goals, next_clause: top.next_clause + 1 },
                    );
                    self.stack.push(ChoicePoint { goals, next_clause: 0 });
                    assert(self@.stack =~= tried.push(
                        ChoiceView { goals: body + s.stack.last().goals.skip(1), next: 0 },
                    ));
                } else {
                    proof {
                        lemma_unify_extends(
                            s.entries,
                            views(top.goals@)[0],
                            renamed.head@,
                            enough(s.entries, views(top.goals@)[0], renamed.head@),
                        );
                    }
                    self.bindings.unstack();
                    self.stack.push(
                        ChoicePoint { goals: top.goals, next_clause: top.next_clause + 1 },
                    );
                    assert(self@.stack =~= tried);
                    assert(self@.marks =~= s.marks);
                }
                Pull::Pending
            },
        }
    }

    /// Steps until one gives something else than `Pending`, at most `steps`
    /// of them, and hands on what the last step gave.
    pub fn next_within(&mut self, steps: usize) -> (p: Pull)
        ensures
            (final(self)@, p@) == pull_outcome(old(self)@, steps as nat),
    {
        let mut left = steps;
        while left > 0
            invariant
                pull_outcome(old(self)@, steps as nat) == pull_outcome(self@, left as nat),
            decreases left,
        {
            let p = self.step();
            match p {
                Pull::Pending => {},
                _ => {
                    return p;
                },
            }
            left -= 1;
        }
        Pull::Pending
    }
}

/// A pull stops at what it finds: where a number of steps is enough for a
/// pull to give something else than `Pending`, every greater number gives
/// the same and leaves the search in the same state. No step is made
/// beyond the one that gave the answer.
pub proof fn lemma_pull_stops(s: SolverView, steps: nat, more: nat)
    requires
        !(pull_outcome(s, steps).1 is Pending),
        steps <= more,
    ensures
        pull_outcome(s, more) == pull_outcome(s, steps),
    decreases steps,
{
    if steps > 0 {
        let next = step_outcome(s);
        if next.1 is Pending {
            lemma_pull_stops(next.0, (steps - 1) as nat, (more - 1) as nat);
        }
    }
}

/// Whether the marks of the frames are in order and inside the trail, and
/// every choice point has a frame of its own.
pub open spec fn well_marked(s: SolverView) -> bool {
    &&& s.stack.len() <= s.marks.len()
    &&& forall|i: int| 0 <= i < s.marks.len() ==> #[trigger] s.marks[i] <= s.entries.len()
    &&& forall|i: int, j: int| 0 <= i <= j < s.marks.len() ==> s.marks[i] <= s.marks[j]
}

/// A search starts well marked, where the bindings that it starts under
/// are.
pub proof fn lemma_start_well_marked(
    database: Seq<ClauseView>,
    query: Seq<TermView>,
    entries: Seq<Binding>,
    marks: Seq<nat>,
    counter: int,
)
    requires
        forall|i: int| 0 <= i < marks.len() ==> #[trigger] marks[i] <= entries.len(),
        forall|i: int, j: int| 0 <= i <= j < marks.len() ==> marks[i] <= marks[j],
    ensures
        well_marked(start(database, query, entries, marks, counter)),
{
}

/// Frames are opened and closed in turn: every step leaves the search well
/// marked. So giving up a choice point drops exactly the bindings that
/// were made since its frame was opened, and leaves those of the frames
/// around it as they were.
pub proof fn lemma_step_well_marked(s: SolverView)
    requires
        well_marked(s),
    ensures
        well_marked(step_outcome(s).0),
        s.stack.len() > 0 && step_outcome(s).0 == backtracked(s) ==> step_outcome(s).0.entries
            == s.entries.take(s.marks.last() as int),
{
    if s.stack.len() > 0 {
        let top = s.stack.last();
        if top.goals.len() > 0 && top.next < s.database.len() {
            let renamed = rename_clause(s.database[top.next as int], Seq::empty(), s.counter);
            lemma_unify_extends(
                s.entries,
                top.goals[0],
                renamed.0.head,
                enough(s.entries, top.goals[0], renamed.0.head),
            );
        }
    }
}

/// The counter only counts on: no step lowers it, so the variables that a
/// later renaming makes have higher identities than those of every
/// earlier one.
pub proof fn lemma_step_counts_on(s: SolverView)
    requires
        s.counter <= isize::MAX,
    ensures
        s.counter <= step_outcome(s).0.counter <= isize::MAX,
{
    if s.stack.len() > 0 {
        let top = s.stack.last();
        if top.goals.len() > 0 && top.next < s.database.len() {
            lemma_rename_clause_fresh(s.database[top.next as int], s.counter);
        }
    }
}

/// What a row of pulls gives, one after the other, each with the steps
/// that it is allowed.
pub open spec fn pulls(s: SolverView, allowed: Seq<nat>) -> Seq<PullView>
    decreases allowed.len(),
{
    if allowed.len() == 0 {
        Seq::empty()
    } else {
        let first = pull_outcome(s, allowed[0]);
        seq![first.1] + pulls(first.0, allowed.skip(1))
    }
}

/// The answers are determined: two searches that start from the same
/// program, query and bindings give the same answers in the same order,
/// pull by pull.
pub proof fn lemma_answers_determined(
    database: Seq<ClauseView>,
    query: Seq<TermView>,
    entries: Seq<Binding>,
    marks: Seq<nat>,
    counter: int,
    first: SolverView,
    second: SolverView,
    allowed: Seq<nat>,
)
    requires
        first == start(database, query, entries, marks, counter),
        second == start(database, query, entries, marks, counter),
    ensures
        pulls(first, allowed) == pulls(second, allowed),
{
}

/// Pulls may be cut into shorter ones: what a pull leaves pending, the
/// next pull takes up, and the two together give what one pull with the
/// steps of both gives.
pub proof fn lemma_pull_resumes(s: SolverView, steps: nat, more: nat)
    requires
        pull_outcome(s, steps).1 is Pending,
    ensures
        pull_outcome(pull_outcome(s, steps).0, more) == pull_outcome(s, steps + more),
    decreases steps,
{
    if steps > 0 {
        let next = step_outcome(s);
        lemma_pull_resumes(next.0, (steps - 1) as nat, more);
    }
}

} // verus!
