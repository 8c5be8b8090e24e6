//! The binding environment: a trail of bindings in the order in which they
//! were made, cut into frames, and the counter that variable identities come
//! from.

use vstd::prelude::*;
use crate::term::{Term, TermView, lemma_compound_view, term_text, views};
use crate::text::{decimal, push_char, push_decimal};
use crate::variable::Variable;

verus! {

/// One binding: the identity of a variable and the term it stands for.
pub type Binding = (int, TermView);

/// The term that the latest binding of `v` gives, if `v` is bound. Frames
/// are searched innermost first, which is the trail from its end.
pub open spec fn lookup(entries: Seq<Binding>, v: int) -> Option<TermView>
    decreases entries.len(),
{
    if entries.len() == 0 {
        None
    } else if entries.last().0 == v {
        Some(entries.last().1)
    } else {
        lookup(entries.drop_last(), v)
    }
}

/// The term with every bound variable replaced by what its chain of bindings
/// leads to, where no chain is followed through more than `depth` bindings.
/// `None` where some chain is longer than that.
pub open spec fn walk(entries: Seq<Binding>, t: TermView, depth: nat) -> Option<TermView>
    decreases depth, t,
{
    match t {
        TermView::Var(v, _) => match lookup(entries, v) {
            None => Some(t),
            Some(bound) => if depth == 0 {
                None
            } else {
                walk(entries, bound, (depth - 1) as nat)
            },
        },
        TermView::Compound(f, args) => match walk_all(entries, args, depth) {
            Some(walked) => Some(TermView::Compound(f, walked)),
            None => None,
        },
        _ => Some(t),
    }
}

/// `walk` of each term of a sequence; `None` where one of them has none.
pub open spec fn walk_all(entries: Seq<Binding>, terms: Seq<TermView>, depth: nat) -> Option<
    Seq<TermView>,
>
    decreases depth, terms,
{
    if terms.len() == 0 {
        Some(Seq::empty())
    } else {
        match (walk_all(entries, terms.drop_last(), depth), walk(entries, terms.last(), depth)) {
            (Some(front), Some(last)) => Some(front.push(last)),
            _ => None,
        }
    }
}

/// The instantiation of a term: its walk through at most as many bindings
/// in a row as the trail holds. A chain that is longer runs in a circle, so
/// `None` says that the term has no finite instantiation.
pub open spec fn instantiation(entries: Seq<Binding>, t: TermView) -> Option<TermView> {
    walk(entries, t, entries.len())
}

/// Whether no variable of the term is bound.
pub open spec fn settled(entries: Seq<Binding>, t: TermView) -> bool
    decreases t,
{
    match t {
        TermView::Var(v, _) => lookup(entries, v) is None,
        TermView::Compound(_, args) => forall|i: int|
            0 <= i < args.len() ==> settled(entries, #[trigger] args[i]),
        _ => true,
    }
}

/// The bindings that are left when the innermost frame is closed: those
/// that were there when it was opened. Nothing changes where only the
/// outermost frame is left, or where the mark lies beyond the trail.
pub open spec fn unstacked(entries: Seq<Binding>, marks: Seq<nat>) -> Seq<Binding> {
    if marks.len() > 0 && marks.last() <= entries.len() {
        entries.take(marks.last() as int)
    } else {
        entries
    }
}

/// The printed form of bindings: each as `(identity -> term)`, one behind
/// the other.
pub open spec fn bindings_text(entries: Seq<Binding>) -> Seq<char>
    decreases entries.len(),
{
    if entries.len() == 0 {
        Seq::empty()
    } else {
        bindings_text(entries.drop_last()) + seq!['('] + decimal(entries.last().0) + seq![
            ' ',
            '-',
            '>',
            ' ',
        ] + term_text(entries.last().1) + seq![')']
    }
}

/// The printed form of one frame: the counter and the bindings of the
/// frame.
pub open spec fn frame_text(entries: Seq<Binding>, counter: int) -> Seq<char> {
    seq!['B', 'i', 'n', 'd', 'i', 'n', 'g', 's', '('] + decimal(counter) + seq![',', ' ', '[']
        + bindings_text(entries) + seq![']', ')']
}

/// Where the innermost frame starts: at its mark, or at the end of the
/// trail where the mark lies beyond.
pub open spec fn frame_start(entries: Seq<Binding>, marks: Seq<nat>) -> int {
    if marks.last() <= entries.len() {
        marks.last() as int
    } else {
        entries.len() as int
    }
}

/// The printed form of an environment: its frames from the innermost to the
/// outermost, with ` + ` between two.
pub open spec fn environment_text(entries: Seq<Binding>, marks: Seq<nat>, counter: int) -> Seq<char>
    decreases marks.len(),
{
    if marks.len() == 0 {
        frame_text(entries, counter)
    } else {
        let start = frame_start(entries, marks);
        frame_text(entries.skip(start), counter) + seq![' ', '+', ' '] + environment_text(
            entries.take(start),
            marks.drop_last(),
            counter,
        )
    }
}

/// The binding environment.
#[derive(Debug)]
pub struct Bindings {
    bind: Vec<(isize, Term)>,
    stack: Vec<usize>,
    next_variable: isize,
}

impl Bindings {
    /// The bindings in the order in which they were made, all frames
    /// together.
    pub closed spec fn entries(&self) -> Seq<Binding> {
        Seq::new(self.bind@.len(), |i: int| (self.bind@[i].0 as int, self.bind@[i].1@))
    }

    /// For each frame but the outermost, the number of bindings that were
    /// there when it was opened.
    pub closed spec fn marks(&self) -> Seq<nat> {
        Seq::new(self.stack@.len(), |i: int| self.stack@[i] as nat)
    }

    /// The identity that was handed out last; 0 where none was.
    pub closed spec fn counter(&self) -> int {
        self.next_variable as int
    }

    /// The counter is a machine integer.
    pub proof fn lemma_counter_bounded(&self)
        ensures
            isize::MIN <= self.counter() <= isize::MAX,
    {
    }

    /// An environment of one empty frame, with its counter at 0.
    pub fn new() -> (b: Bindings)
        ensures
            b.entries() == Seq::<Binding>::empty(),
            b.marks() == Seq::<nat>::empty(),
            b.counter() == 0,
    {
        let b = Bindings { bind: Vec::new(), stack: Vec::new(), next_variable: 0 };
        assert(b.entries() =~= Seq::<Binding>::empty());
        assert(b.marks() =~= Seq::<nat>::empty());
        b
    }

    /// An environment of one empty frame, whose counter stands at `last`:
    /// the next identity is one more.
    pub fn counting_from(last: isize) -> (b: Bindings)
        ensures
            b.entries() == Seq::<Binding>::empty(),
            b.marks() == Seq::<nat>::empty(),
            b.counter() == last,
    {
        let b = Bindings { bind: Vec::new(), stack: Vec::new(), next_variable: last };
        assert(b.entries() =~= Seq::<Binding>::empty());
        assert(b.marks() =~= Seq::<nat>::empty());
        b
    }

    /// A copy of the environment.
    pub fn duplicate(&self) -> (b: Bindings)
        ensures
            b.entries() == self.entries(),
            b.marks() == self.marks(),
            b.counter() == self.counter(),
    {
        let mut bind: Vec<(isize, Term)> = Vec::new();
        let mut i: usize = 0;
        while i < self.bind.len()
            invariant
                i <= self.bind.len(),
                bind.len() == i,
                forall|j: int|
                    0 <= j < i ==> bind@[j].0 == self.bind@[j].0 && bind@[j].1@
                        == self.bind@[j].1@,
            decreases self.bind.len() - i,
        {
            bind.push((self.bind[i].0, self.bind[i].1.clone()));
            i += 1;
        }
        let mut stack: Vec<usize> = Vec::new();
        let mut k: usize = 0;
        while k < self.stack.len()
            invariant
                k <= self.stack.len(),
                stack.len() == k,
                forall|j: int| 0 <= j < k ==> stack@[j] == self.stack@[j],
            decreases self.stack.len() - k,
        {
            stack.push(self.stack[k]);
            k += 1;
        }
        let b = Bindings { bind, stack, next_variable: self.next_variable };
        assert(b.entries() =~= self.entries());
        assert(b.marks() =~= self.marks());
        b
    }

    /// The number of bindings, all frames together.
    pub fn len(&self) -> (n: usize)
        ensures
            n == self.entries().len(),
    {
        self.bind.len()
    }

    /// The number of frames above the outermost.
    pub fn depth(&self) -> (n: usize)
        ensures
            n == self.marks().len(),
    {
        self.stack.len()
    }

    /// The identity that was handed out last.
    pub fn last_variable(&self) -> (n: isize)
        ensures
            n == self.counter(),
    {
        self.next_variable
    }

    /// Hands out the next identity: one more than the last.
    pub fn next(&mut self) -> (id: isize)
        requires
            old(self).counter() < isize::MAX,
        ensures
            id == old(self).counter() + 1,
            final(self).counter() == id,
            final(self).entries() == old(self).entries(),
            final(self).marks() == old(self).marks(),
    {
        self.next_variable = self.next_variable + 1;
        assert(self.entries() =~= old(self).entries());
        assert(self.marks() =~= old(self).marks());
        self.next_variable
    }

    /// Opens a new innermost frame. The bindings made so far stay in reach.
    pub fn stack(&mut self)
        ensures
            final(self).entries() == old(self).entries(),
            final(self).marks() == old(self).marks().push(old(self).entries().len()),
            final(self).counter() == old(self).counter(),
    {
        self.stack.push(self.bind.len());
        assert(self.entries() =~= old(self).entries());
        assert(self.marks() =~= old(self).marks().push(old(self).entries().len()));
    }

    /// Drops every binding after the first `len`. With `len` not under the
    /// number of bindings nothing changes.
    pub fn rewind(&mut self, len: usize)
        ensures
            final(self).entries() == if len <= old(self).entries().len() {
                old(self).entries().take(len as int)
            } else {
                old(self).entries()
            },
            final(self).marks() == old(self).marks(),
            final(self).counter() == old(self).counter(),
    {
        if len < self.bind.len() {
            self.bind.truncate(len);
            assert(self.entries() =~= old(self).entries().take(len as int));
        } else {
            assert(len <= old(self).entries().len() ==> self.entries() =~= old(
                self,
            ).entries().take(len as int));
        }
        assert(self.marks() =~= old(self).marks());
    }

    /// Closes the innermost frame and drops the bindings made since it was
    /// opened. With only the outermost frame left nothing changes.
    pub fn unstack(&mut self)
        ensures
            final(self).counter() == old(self).counter(),
            final(self).entries() == unstacked(old(self).entries(), old(self).marks()),
            final(self).marks() == if old(self).marks().len() > 0 {
                old(self).marks().drop_last()
            } else {
                old(self).marks()
            },
    {
        match self.stack.pop() {
            Some(mark) => {
                assert(mark == old(self).marks().last());
                assert(self.marks() =~= old(self).marks().drop_last());
                assert(self.entries() =~= old(self).entries());
                self.rewind(mark);
            },
            None => {
                assert(self.marks() =~= old(self).marks());
                assert(self.entries() =~= old(self).entries());
            },
        }
    }

    /// Appends the printed form of the frame that holds the bindings from
    /// `from` up to `to`.
    fn write_frame(&self, from: usize, to: usize, out: &mut String)
        requires
            from <= to <= self.entries().len(),
        ensures
            final(out)@ == old(out)@ + frame_text(
                self.entries().subrange(from as int, to as int),
                self.counter(),
            ),
    {
        let ghost frame = self.entries().subrange(from as int, to as int);
        push_char(out, 'B');
        push_char(out, 'i');
        push_char(out, 'n');
        push_char(out, 'd');
        push_char(out, 'i');
        push_char(out, 'n');
        push_char(out, 'g');
        push_char(out, 's');
        push_char(out, '(');
        push_decimal(out, self.next_variable);
        push_char(out, ',');
        push_char(out, ' ');
        push_char(out, '[');
        let ghost start = out@;
        assert(start =~= old(out)@ + seq!['B', 'i', 'n', 'd', 'i', 'n', 'g', 's', '('] + decimal(
            self.counter(),
        ) + seq![',', ' ', '[']);
        let mut i: usize = from;
        assert(frame.take(0) =~= Seq::<Binding>::empty());
        assert(out@ =~= start + bindings_text(frame.take(0)));
        while i < to
            invariant
                from <= i <= to <= self.bind.len(),
                frame == self.entries().subrange(from as int, to as int),
                out@ == start + bindings_text(frame.take(i - from)),
            decreases to - i,
        {
            let ghost before = out@;
            proof {
                let next = frame.take(i + 1 - from);
                assert(next.drop_last() =~= frame.take(i - from));
                assert(next.last() == self.entries()[i as int]);
            }
            push_char(out, '(');
            push_decimal(out, self.bind[i].0);
            push_char(out, ' ');
            push_char(out, '-');
            push_char(out, '>');
            push_char(out, ' ');
            self.bind[i].1.write(out);
            push_char(out, ')');
            assert(out@ =~= before + seq!['('] + decimal(self.bind@[i as int].0 as int) + seq![
                ' ',
                '-',
                '>',
                ' ',
            ] + term_text(self.bind@[i as int].1@) + seq![')']);
            assert(out@ =~= start + bindings_text(frame.take(i + 1 - from)));
            i += 1;
        }
        assert(frame.take(to - from) =~= frame);
        push_char(out, ']');
        push_char(out, ')');
        assert(out@ =~= old(out)@ + frame_text(frame, self.counter()));
    }

    /// The printed form of the environment.
    pub fn to_string(&self) -> (s: String)
        ensures
            s@ == environment_text(self.entries(), self.marks(), self.counter()),
    {
        let mut s = String::new();
        let mut end: usize = self.bind.len();
        let mut frames: usize = self.stack.len();
        assert(self.entries().take(end as int) =~= self.entries());
        assert(self.marks().take(frames as int) =~= self.marks());
        assert(s@ + environment_text(self.entries(), self.marks(), self.counter())
            =~= environment_text(self.entries(), self.marks(), self.counter()));
        while frames > 0
            invariant
                end <= self.bind.len(),
                frames <= self.stack.len(),
                environment_text(self.entries(), self.marks(), self.counter()) == s@
                    + environment_text(
                    self.entries().take(end as int),
                    self.marks().take(frames as int),
                    self.counter(),
                ),
            decreases frames,
        {
            let ghost before = s@;
            let ghost entries = self.entries().take(end as int);
            let ghost marks = self.marks().take(frames as int);
            frames -= 1;
            let mark = self.stack[frames];
            let start = if mark <= end {
                mark
            } else {
                end
            };
            proof {
                assert(marks.last() == mark);
                assert(marks.drop_last() =~= self.marks().take(frames as int));
                assert(frame_start(entries, marks) == start);
                assert(entries.skip(start as int) =~= self.entries().subrange(
                    start as int,
                    end as int,
                ));
                assert(entries.take(start as int) =~= self.entries().take(start as int));
            }
            self.write_frame(start, end, &mut s);
            push_char(&mut s, ' ');
            push_char(&mut s, '+');
            push_char(&mut s, ' ');
            proof {
                let rest = environment_text(
                    self.entries().take(start as int),
                    self.marks().take(frames as int),
                    self.counter(),
                );
                assert(before + (frame_text(entries.skip(start as int), self.counter()) + seq![
                    ' ',
                    '+',
                    ' ',
                ] + rest) =~= s@ + rest);
            }
            end = start;
        }
        proof {
            assert(self.marks().take(0) =~= Seq::<nat>::empty());
            assert(self.entries().take(end as int) =~= self.entries().subrange(0, end as int));
        }
        self.write_frame(0, end, &mut s);
        s
    }

    /// The term that the variable is bound to directly, if it is bound: one
    /// step, no chain is followed.
    pub fn bound_directly_to(&self, variable: &Variable) -> (r: Option<Term>)
        ensures
            match r {
                Some(t) => lookup(self.entries(), variable.id()) == Some(t@),
                None => lookup(self.entries(), variable.id()) is None,
            },
    {
        match self.find(variable.0) {
            Some(i) => Some(self.bind[i].1.clone()),
            None => None,
        }
    }

    /// The place of the latest binding of `v` in the trail.
    fn find(&self, v: isize) -> (r: Option<usize>)
        ensures
            match r {
                Some(i) => i < self.bind@.len() && lookup(self.entries(), v as int) == Some(
                    self.bind@[i as int].1@,
                ),
                None => lookup(self.entries(), v as int) is None,
            },
    {
        let mut i: usize = self.bind.len();
        assert(self.entries().take(i as int) =~= self.entries());
        while i > 0
            invariant
                i <= self.bind.len(),
                lookup(self.entries(), v as int) == lookup(self.entries().take(i as int), v as int),
            decreases i,
        {
            i -= 1;
            proof {
                let front = self.entries().take(i + 1);
                assert(front.last() == self.entries()[i as int]);
                assert(front.drop_last() =~= self.entries().take(i as int));
            }
            if self.bind[i].0 == v {
                return Some(i);
            }
        }
        None
    }

    /// As `bound_directly_to`, for a term that is a variable.
    pub fn term_bound_directly_to(&self, variable: &Term) -> (r: Option<Term>)
        requires
            variable is Variable,
        ensures
            match r {
                Some(t) => lookup(self.entries(), variable@->Var_0) == Some(t@),
                None => lookup(self.entries(), variable@->Var_0) is None,
            },
    {
        match variable {
            Term::Variable(var) => self.bound_directly_to(var),
            _ => None,
        }
    }

    /// Binds the variable with identity `v` to `term`, in the innermost
    /// frame. Nothing is checked: not that `v` was unbound, nor that `term`
    /// is free of it.
    pub fn add(&mut self, v: isize, term: Term)
        ensures
            final(self).entries() == old(self).entries().push((v as int, term@)),
            final(self).marks() == old(self).marks(),
            final(self).counter() == old(self).counter(),
    {
        self.bind.push((v, term));
        assert(self.entries() =~= old(self).entries().push((v as int, term@)));
        assert(self.marks() =~= old(self).marks());
    }

    /// As `add`, for a term that is a variable.
    pub fn add_variable(&mut self, variable: &Term, term: Term)
        requires
            variable is Variable,
        ensures
            final(self).entries() == old(self).entries().push((variable@->Var_0, term@)),
            final(self).marks() == old(self).marks(),
            final(self).counter() == old(self).counter(),
    {
        match variable {
            Term::Variable(Variable(i, _)) => {
                self.add(*i, term);
            },
            _ => {},
        }
    }

    /// The instantiation of `term`: every bound variable replaced, through
    /// its chain of bindings, by what it stands for. `None` exactly where
    /// the bindings run in a circle under `term`, so that it has no finite
    /// instantiation.
    pub fn instantiate(&self, term: &Term) -> (r: Option<Term>)
        ensures
            match r {
                Some(t) => instantiation(self.entries(), term@) == Some(t@),
                None => instantiation(self.entries(), term@) is None,
            },
    {
        self.walk_within(term, self.bind.len())
    }

    /// The walk of `term` through at most `depth` bindings in a row.
    #[verifier::loop_isolation(false)]
    fn walk_within(&self, term: &Term, depth: usize) -> (r: Option<Term>)
        ensures
            match r {
                Some(t) => walk(self.entries(), term@, depth as nat) == Some(t@),
                None => walk(self.entries(), term@, depth as nat) is None,
            },
        decreases depth, term,
    {
        match term {
            Term::Variable(variable) => match self.find(variable.0) {
                None => Some(term.clone()),
                Some(i) => {
                    if depth == 0 {
                        None
                    } else {
                        self.walk_within(&self.bind[i].1, depth - 1)
                    }
                },
            },
            Term::CompoundTerm(functor, args) => {
                let mut walked: Vec<Term> = Vec::new();
                let mut i: usize = 0;
                proof {
                    lemma_compound_view(*term);
                    assert(views(args@).take(0) =~= Seq::<TermView>::empty());
                    assert(views(walked@) =~= Seq::<TermView>::empty());
                }
                while i < args.len()
                    invariant
                        i <= args.len(),
                        walk_all(self.entries(), views(args@).take(i as int), depth as nat)
                            == Some(views(walked@)),
                    decreases args.len() - i,
                {
                    let ghost before = views(walked@);
                    proof {
                        let next = views(args@).take(i + 1);
                        assert(next.drop_last() =~= views(args@).take(i as int));
                        assert(next.last() == args@[i as int]@);
                    }
                    match self.walk_within(&args[i], depth) {
                        Some(t) => {
                            walked.push(t);
                            assert(views(walked@) =~= before.push(t@));
                        },
                        None => {
                            proof {
                                lemma_walk_all_none(
                                    self.entries(),
                                    views(args@),
                                    depth as nat,
                                    i + 1,
                                );
                            }
                            return None;
                        },
                    }
                    i += 1;
                }
                assert(views(args@).take(i as int) =~= views(args@));
                let t = Term::CompoundTerm(functor.clone(), walked);
                proof {
                    lemma_compound_view(t);
                }
                Some(t)
            },
            _ => Some(term.clone()),
        }
    }
}

/// Where the first `n` terms have no walk, the whole sequence has none.
pub proof fn lemma_walk_all_none(entries: Seq<Binding>, terms: Seq<TermView>, depth: nat, n: int)
    requires
        0 <= n <= terms.len(),
        walk_all(entries, terms.take(n), depth) is None,
    ensures
        walk_all(entries, terms, depth) is None,
    decreases terms.len() - n,
{
    if n == terms.len() {
        assert(terms.take(n) =~= terms);
    } else {
        let next = terms.take(n + 1);
        assert(next.drop_last() =~= terms.take(n));
        lemma_walk_all_none(entries, terms, depth, n + 1);
    }
}

/// What `walk_all` gives, term by term.
pub proof fn lemma_walk_all_index(entries: Seq<Binding>, terms: Seq<TermView>, depth: nat)
    requires
        walk_all(entries, terms, depth) is Some,
    ensures
        walk_all(entries, terms, depth)->0.len() == terms.len(),
        forall|i: int|
            0 <= i < terms.len() ==> walk(entries, #[trigger] terms[i], depth) == Some(
                walk_all(entries, terms, depth)->0[i],
            ),
    decreases terms.len(),
{
    if terms.len() > 0 {
        lemma_walk_all_index(entries, terms.drop_last(), depth);
        assert forall|i: int| 0 <= i < terms.len() implies walk(
            entries,
            #[trigger] terms[i],
            depth,
        ) == Some(walk_all(entries, terms, depth)->0[i]) by {
            if i < terms.len() - 1 {
                assert(terms[i] == terms.drop_last()[i]);
            }
        }
    }
}

/// Where every term of a sequence has a walk, `walk_all` gives the
/// sequence of them.
pub proof fn lemma_walk_all_each(
    entries: Seq<Binding>,
    terms: Seq<TermView>,
    depth: nat,
    walked: Seq<TermView>,
)
    requires
        walked.len() == terms.len(),
        forall|i: int|
            0 <= i < terms.len() ==> walk(entries, #[trigger] terms[i], depth) == Some(walked[i]),
    ensures
        walk_all(entries, terms, depth) == Some(walked),
    decreases terms.len(),
{
    if terms.len() > 0 {
        assert forall|i: int| 0 <= i < terms.len() - 1 implies walk(
            entries,
            #[trigger] terms.drop_last()[i],
            depth,
        ) == Some(walked.drop_last()[i]) by {
            assert(terms[i] == terms.drop_last()[i]);
        }
        lemma_walk_all_each(entries, terms.drop_last(), depth, walked.drop_last());
        assert(walk(entries, terms[terms.len() - 1], depth) == Some(walked[terms.len() - 1]));
        assert(walked.drop_last().push(walked.last()) =~= walked);
    } else {
        assert(walked =~= Seq::<TermView>::empty());
    }
}

/// What a walk gives holds no bound variable.
pub proof fn lemma_walk_settled(entries: Seq<Binding>, t: TermView, depth: nat)
    requires
        walk(entries, t, depth) is Some,
    ensures
        settled(entries, walk(entries, t, depth)->0),
    decreases depth, t,
{
    match t {
        TermView::Var(v, _) => {
            match lookup(entries, v) {
                None => {},
                Some(bound) => {
                    lemma_walk_settled(entries, bound, (depth - 1) as nat);
                },
            }
        },
        TermView::Compound(f, args) => {
            let walked = walk_all(entries, args, depth)->0;
            lemma_walk_all_index(entries, args, depth);
            assert forall|i: int| 0 <= i < walked.len() implies settled(
                entries,
                #[trigger] walked[i],
            ) by {
                assert(walk(entries, args[i], depth) == Some(walked[i]));
                lemma_walk_settled(entries, args[i], depth);
            }
        },
        _ => {},
    }
}

/// A term that holds no bound variable is its own walk, at any depth.
pub proof fn lemma_settled_walk(entries: Seq<Binding>, t: TermView, depth: nat)
    requires
        settled(entries, t),
    ensures
        walk(entries, t, depth) == Some(t),
    decreases t,
{
    match t {
        TermView::Compound(f, args) => {
            assert forall|i: int| 0 <= i < args.len() implies walk(
                entries,
                #[trigger] args[i],
                depth,
            ) == Some(args[i]) by {
                lemma_settled_walk(entries, args[i], depth);
            }
            lemma_walk_all_each(entries, args, depth, args);
        },
        _ => {},
    }
}

/// Walking is idempotent: where a term has a walk, the walk of that walk is
/// the same term again, whatever the depth allowed.
pub proof fn lemma_walk_idempotent(entries: Seq<Binding>, t: TermView, depth: nat, again: nat)
    requires
        walk(entries, t, depth) is Some,
    ensures
        walk(entries, walk(entries, t, depth)->0, again) == walk(entries, t, depth),
{
    lemma_walk_settled(entries, t, depth);
    lemma_settled_walk(entries, walk(entries, t, depth)->0, again);
}

/// Instantiation is idempotent: the instantiation of an instantiated term
/// is that term.
pub proof fn lemma_instantiation_idempotent(entries: Seq<Binding>, t: TermView)
    requires
        instantiation(entries, t) is Some,
    ensures
        instantiation(entries, instantiation(entries, t)->0) == instantiation(entries, t),
{
    lemma_walk_idempotent(entries, t, entries.len(), entries.len());
}

/// What `lookup` gives is the term of one of the bindings.
pub proof fn lemma_lookup_member(entries: Seq<Binding>, v: int)
    requires
        lookup(entries, v) is Some,
    ensures
        exists|i: int| 0 <= i < entries.len() && (#[trigger] entries[i]).1 == lookup(entries, v)->0,
    decreases entries.len(),
{
    if entries.last().0 == v {
        assert(entries[entries.len() - 1].1 == lookup(entries, v)->0);
    } else {
        lemma_lookup_member(entries.drop_last(), v);
        let i = choose|i: int|
            0 <= i < entries.drop_last().len() && (#[trigger] entries.drop_last()[i]).1 == lookup(
                entries.drop_last(),
                v,
            )->0;
        assert(entries[i] == entries.drop_last()[i]);
    }
}

/// Whether every variable that `before` binds is bound to the same term by
/// `after`.
pub open spec fn keeps(before: Seq<Binding>, after: Seq<Binding>) -> bool {
    forall|v: int| (#[trigger] lookup(before, v)) is Some ==> lookup(after, v) == lookup(before, v)
}

/// A new binding of an unbound variable keeps what was bound.
pub proof fn lemma_push_keeps(entries: Seq<Binding>, v: int, t: TermView)
    requires
        lookup(entries, v) is None,
    ensures
        keeps(entries, entries.push((v, t))),
        lookup(entries.push((v, t)), v) == Some(t),
{
    assert(entries.push((v, t)).drop_last() =~= entries);
}

} // verus!
