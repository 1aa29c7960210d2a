//! The scanner engine: the cursor over an in-memory source, the outbox of
//! tokens, and the loop that runs a state machine's transitions.

use vstd::prelude::*;
use crate::cursor::{
    lemma_back_inv, lemma_cancel_inv, lemma_emit_inv, lemma_initial_inv, lemma_next_inv,
    lemma_precedes_refl, lemma_precedes_trans, ScanState, Scanner,
};
use crate::pos::{lemma_advance_all, Pos};
use crate::token::{ScanError, Token, TokenView};

verus! {

/// A transition: it names, by a value of the state machine's choosing, the
/// step to run next.
#[derive(Debug)]
pub struct StateFn<S>(pub S);

impl<S: Copy> Clone for StateFn<S> {
    fn clone(&self) -> (r: Self)
        ensures
            r == *self,
    {
        StateFn(self.0)
    }
}

impl<S: Copy> Copy for StateFn<S> {

}

/// A grammar: where it starts, and what each of its transitions does.
pub trait StateMachine<T>: Sized {
    /// The values that name the grammar's transitions.
    type State: Copy;

    /// A bound on the transitions still to run, from the transition to run
    /// next and the number of characters not yet read. Unless a grammar says
    /// otherwise it is that number: every transition that names a successor
    /// then has to read at least one character more than it steps back over.
    open spec fn rank(state: Self::State, ahead: nat) -> nat {
        ahead
    }

    /// What the grammar promises of the transition `state`: whether it may
    /// lead from the state `before` to the state `after` and return
    /// `result`. Unless a grammar says otherwise it promises nothing.
    open spec fn promises(
        state: Self::State,
        before: ScanState<T>,
        after: ScanState<T>,
        result: Result<Option<StateFn<Self::State>>, ScanError>,
    ) -> bool {
        true
    }

    /// What the grammar promises of its start: whether it may start with
    /// `first`. Unless a grammar says otherwise it promises nothing.
    open spec fn starts_with(self, first: Result<Option<StateFn<Self::State>>, ScanError>) -> bool {
        true
    }

    /// The transition that the grammar starts with. A grammar may have none,
    /// or fail to start.
    fn start_state(self) -> (r: Result<Option<StateFn<Self::State>>, ScanError>)
        ensures
            self.starts_with(r),
    ;

    /// Runs the transition `state` on `l`. It reads, steps back and emits as
    /// it sees fit, and then names its successor, ends the scan, or fails.
    /// Naming a successor lowers the rank.
    fn step<L: Scanner<T>>(state: Self::State, l: &mut L) -> (r: Result<
        Option<StateFn<Self::State>>,
        ScanError,
    >)
        requires
            old(l).wf(),
        ensures
            final(l).wf(),
            old(l).state().precedes(final(l).state()),
            Self::promises(state, old(l).state(), final(l).state(), r),
            match r {
                Ok(Some(next)) => Self::rank(next.0, final(l).state().ahead().len()) < Self::rank(
                    state,
                    old(l).state().ahead().len(),
                ),
                _ => true,
            },
    ;
}

/// A scanner over characters held in memory, driven by the state machine `G`.
pub struct ReadScanner<T, G: StateMachine<T>> {
    pos: Pos,
    start: Pos,
    input: Vec<char>,
    broken: bool,
    read: usize,
    backbuf: Vec<char>,
    buf: Vec<char>,
    state: StateFn<G::State>,
    outbox: Vec<Token<T>>,
    open: bool,
    sent: Ghost<Seq<TokenView<T>>>,
}

impl<T, G: StateMachine<T>> ReadScanner<T, G> {
    /// The transition to run next.
    pub closed spec fn transition(&self) -> StateFn<G::State> {
        self.state
    }

    /// Whether `r` is what construction over `input` gives where the state
    /// machine started with `start`: a scanner that has read nothing and runs
    /// the first transition next; or the state machine's error; or
    /// `NoStartState` where it named no transition.
    pub open spec fn built(
        input: Seq<char>,
        broken: bool,
        start: Result<Option<StateFn<G::State>>, ScanError>,
        r: Result<Self, ScanError>,
    ) -> bool {
        match (start, r) {
            (Ok(Some(first)), Ok(l)) => l.wf() && l.state() == ScanState::<T>::initial(
                input,
                broken,
            ) && l.transition() == first,
            (Ok(None), Err(e)) => e == ScanError::NoStartState,
            (Err(failure), Err(e)) => e == failure,
            _ => false,
        }
    }

    /// Builds a scanner over `input`, which the source yields before it ends
    /// or, where `broken` is set, fails to decode. `start` is what the state
    /// machine gave as its first transition: an error there fails the
    /// construction with that error, and no transition fails it with
    /// `NoStartState`.
    pub fn with_start(
        input: Vec<char>,
        broken: bool,
        start: Result<Option<StateFn<G::State>>, ScanError>,
    ) -> (r: Result<Self, ScanError>)
        ensures
            Self::built(input@, broken, start, r),
    {
        let len = input.len();
        match start {
            Ok(Some(first)) => {
                proof {
                    lemma_initial_inv::<T>(input@, broken);
                }
                Ok(
                    ReadScanner {
                        pos: Pos::new(),
                        start: Pos::new(),
                        input,
                        broken,
                        read: 0,
                        backbuf: Vec::new(),
                        buf: Vec::new(),
                        state: first,
                        outbox: Vec::new(),
                        open: true,
                        sent: Ghost(Seq::empty()),
                    },
                )
            },
            Ok(None) => Err(ScanError::NoStartState),
            Err(e) => Err(e),
        }
    }

    /// Builds a scanner over `input` that starts with the first transition of
    /// `sstate`. Fails where the state machine fails to start or has no
    /// first transition.
    pub fn new(input: Vec<char>, broken: bool, sstate: G) -> (r: Result<Self, ScanError>)
        ensures
            exists|start: Result<Option<StateFn<G::State>>, ScanError>| #[trigger]
                sstate.starts_with(start) && Self::built(input@, broken, start, r),
            r matches Ok(l) ==> l.wf() && l.state() == ScanState::<T>::initial(input@, broken),
    {
        let start = sstate.start_state();
        Self::with_start(input, broken, start)
    }

    /// The current position.
    pub fn position(&self) -> (p: Pos)
        ensures
            p == self.state().pos,
    {
        self.pos
    }

    /// Whether the consumer still takes tokens.
    pub fn is_open(&self) -> (open: bool)
        ensures
            open == self.state().open,
    {
        self.open
    }

    /// Records that the consumer has gone. Tokens emitted from now on are
    /// dropped, and the transition loop stops before its next transition.
    pub fn cancel(&mut self)
        requires
            old(self).wf(),
        ensures
            final(self).wf(),
            final(self).state() == old(self).state().after_cancel(),
            final(self).transition() == old(self).transition(),
    {
        proof {
            lemma_cancel_inv(self.state());
        }
        self.open = false;
    }

    /// Hands over the delivered tokens that were not collected before, in the
    /// order of their emission.
    pub fn take_tokens(&mut self) -> (tokens: Vec<Token<T>>)
        requires
            old(self).wf(),
        ensures
            final(self).wf(),
            final(self).state() == old(self).state().after_take(),
            final(self).transition() == old(self).transition(),
            tokens@.len() == old(self).state().sent.len() - old(self).state().taken,
            forall|i: int|
                0 <= i < tokens@.len() ==> (#[trigger] tokens@[i])@ == old(self).state().sent[old(
                    self,
                ).state().taken + i],
    {
        let mut tokens: Vec<Token<T>> = Vec::new();
        core::mem::swap(&mut self.outbox, &mut tokens);
        tokens
    }

    /// The result of the transition that a step of the engine has run, told
    /// from what the step returned and the transition that is next after it.
    pub open spec fn step_result(r: Result<bool, ScanError>, next: StateFn<G::State>) -> Result<
        Option<StateFn<G::State>>,
        ScanError,
    > {
        match r {
            Ok(true) => Ok(Some(next)),
            Ok(false) => Ok(None),
            Err(e) => Err(e),
        }
    }

    /// What the engine makes of a transition's result `result`: a successor
    /// becomes the transition to run next and the scan goes on (`Ok(true)`);
    /// without a successor the scan has ended (`Ok(false)`); an error is
    /// handed on. The scan's state stays as the transition left it.
    pub fn follow(&mut self, result: Result<Option<StateFn<G::State>>, ScanError>) -> (r: Result<
        bool,
        ScanError,
    >)
        ensures
            final(self).state() == old(self).state(),
            final(self).wf() == old(self).wf(),
            match result {
                Ok(Some(next)) => r == Ok::<bool, ScanError>(true) && final(self).transition()
                    == next,
                Ok(None) => r == Ok::<bool, ScanError>(false) && final(self).transition() == old(
                    self,
                ).transition(),
                Err(e) => r == Err::<bool, ScanError>(e) && final(self).transition() == old(
                    self,
                ).transition(),
            },
    {
        match result {
            Ok(Some(next)) => {
                self.state = next;
                Ok(true)
            },
            Ok(None) => Ok(false),
            Err(e) => Err(e),
        }
    }

    /// Runs the transition that is next and follows its result. Where the
    /// consumer has gone, no transition runs and the call fails with
    /// `ChannelClosed`. `Ok(true)` says that the transition named a
    /// successor, which is then next and of lower rank; `Ok(false)` that it
    /// ended the scan; an error is the transition's own.
    pub fn step_once(&mut self) -> (r: Result<bool, ScanError>)
        requires
            old(self).wf(),
        ensures
            final(self).wf(),
            old(self).state().precedes(final(self).state()),
            !old(self).state().open ==> r == Err::<bool, ScanError>(ScanError::ChannelClosed)
                && final(self).state() == old(self).state() && final(self).transition() == old(
                self,
            ).transition(),
            r == Ok::<bool, ScanError>(true) ==> G::rank(
                final(self).transition().0,
                final(self).state().ahead().len(),
            ) < G::rank(old(self).transition().0, old(self).state().ahead().len()),
            old(self).state().open ==> G::promises(
                old(self).transition().0,
                old(self).state(),
                final(self).state(),
                Self::step_result(r, final(self).transition()),
            ),
    {
        if !self.open {
            proof {
                lemma_precedes_refl(self.state());
            }
            return Err(ScanError::ChannelClosed);
        }
        let current = self.state.0;
        let result = G::step(current, self);
        self.follow(result)
    }

    /// Runs transitions until one ends the scan or fails, or the consumer has
    /// gone. Returns the error of the transition that failed, if one did;
    /// `ChannelClosed` counts as an end, not as a failure. The tokens
    /// delivered before the call stay delivered, in their order, and those
    /// delivered by it follow them.
    pub fn run(&mut self) -> (r: Option<ScanError>)
        requires
            old(self).wf(),
        ensures
            final(self).wf(),
            old(self).state().precedes(final(self).state()),
            r != Some(ScanError::ChannelClosed),
            !old(self).state().open ==> r.is_none() && final(self).state() == old(self).state(),
            exists|steps: nat|
                scan_ends::<T, G>(
                    old(self).transition().0,
                    old(self).state(),
                    final(self).state(),
                    r,
                    steps,
                ),
    {
        let ghost mut done: nat = 0;
        proof {
            lemma_precedes_refl(self.state());
            lemma_scan_resumes_at_once::<T, G>(self.transition().0, self.state());
        }
        loop
            invariant
                self.wf(),
                old(self).state().precedes(self.state()),
                old(self).state().open || self.state() == old(self).state(),
                scan_resumes::<T, G>(
                    old(self).transition().0,
                    old(self).state(),
                    self.transition().0,
                    self.state(),
                    done,
                ),
            decreases G::rank(self.state.0, self.state().ahead().len()),
        {
            let ghost before = self.state();
            let ghost current = self.transition().0;
            let outcome = self.step_once();
            proof {
                lemma_precedes_trans(old(self).state(), before, self.state());
            }
            match outcome {
                Ok(true) => {
                    proof {
                        lemma_scan_resumes_later::<T, G>(
                            old(self).transition().0,
                            old(self).state(),
                            current,
                            before,
                            self.transition(),
                            self.state(),
                            done,
                        );
                        done = done + 1;
                    }
                },
                Ok(false) => {
                    proof {
                        lemma_scan_stops::<T, G>(current, before, self.state(), Ok(None));
                        lemma_scan_resumed::<T, G>(
                            old(self).transition().0,
                            old(self).state(),
                            current,
                            before,
                            done,
                            self.state(),
                            None,
                            1,
                        );
                    }
                    return None;
                },
                Err(e) => {
                    proof {
                        if before.open {
                            lemma_scan_stops::<T, G>(current, before, self.state(), Err(e));
                        }
                        lemma_scan_resumed::<T, G>(
                            old(self).transition().0,
                            old(self).state(),
                            current,
                            before,
                            done,
                            self.state(),
                            settled(e),
                            1,
                        );
                    }
                    return settle(e);
                },
            }
        }
    }
}

/// The outcome that a scan ending with the error `e` reports.
pub open spec fn settled(e: ScanError) -> Option<ScanError> {
    if e == ScanError::ChannelClosed {
        None
    } else {
        Some(e)
    }
}

/// Whether a scan that is in the state `before`, with the transition `state`
/// next, may end in the state `after` with the outcome `r` after at most
/// `steps` transitions, each as the grammar promises. A scan whose consumer
/// has gone ends where it is.
pub open spec fn scan_ends<T, G: StateMachine<T>>(
    state: G::State,
    before: ScanState<T>,
    after: ScanState<T>,
    r: Option<ScanError>,
    steps: nat,
) -> bool
    decreases steps,
{
    if !before.open {
        after == before && r.is_none()
    } else if steps == 0 {
        false
    } else {
        exists|mid: ScanState<T>, result: Result<Option<StateFn<G::State>>, ScanError>|
            #[trigger] G::promises(state, before, mid, result) && match result {
                Ok(Some(next)) => scan_ends::<T, G>(next.0, mid, after, r, (steps - 1) as nat),
                Ok(None) => after == mid && r.is_none(),
                Err(e) => after == mid && r == settled(e),
            }
    }
}

/// Whether a scan that began in the state `origin` with the transition
/// `first` is, after `done` transitions, in the state `now` with the
/// transition `state` next: however it may end from there, it may end so
/// from where it began, `done` transitions later.
#[verifier::opaque]
pub open spec fn scan_resumes<T, G: StateMachine<T>>(
    first: G::State,
    origin: ScanState<T>,
    state: G::State,
    now: ScanState<T>,
    done: nat,
) -> bool {
    forall|after: ScanState<T>, r: Option<ScanError>, steps: nat| #[trigger]
        scan_ends::<T, G>(state, now, after, r, steps) ==> scan_ends::<T, G>(
            first,
            origin,
            after,
            r,
            steps + done,
        )
}

/// A scan is where it began before any transition has run.
pub proof fn lemma_scan_resumes_at_once<T, G: StateMachine<T>>(first: G::State, origin: ScanState<T>)
    ensures
        scan_resumes::<T, G>(first, origin, first, origin, 0),
{
    reveal(scan_resumes);
}

/// One more transition that names a successor leads a scan on.
pub proof fn lemma_scan_resumes_later<T, G: StateMachine<T>>(
    first: G::State,
    origin: ScanState<T>,
    state: G::State,
    now: ScanState<T>,
    next: StateFn<G::State>,
    mid: ScanState<T>,
    done: nat,
)
    requires
        scan_resumes::<T, G>(first, origin, state, now, done),
        now.open,
        G::promises(state, now, mid, Ok(Some(next))),
    ensures
        scan_resumes::<T, G>(first, origin, next.0, mid, done + 1),
{
    reveal(scan_resumes);
    assert forall|after: ScanState<T>, r: Option<ScanError>, steps: nat| #[trigger]
        scan_ends::<T, G>(next.0, mid, after, r, steps) implies scan_ends::<T, G>(
        first,
        origin,
        after,
        r,
        steps + (done + 1),
    ) by {
        lemma_scan_continues::<T, G>(state, now, mid, next, after, r, steps);
    }
}

/// However a scan may end from where it is, it may end so from where it began.
pub proof fn lemma_scan_resumed<T, G: StateMachine<T>>(
    first: G::State,
    origin: ScanState<T>,
    state: G::State,
    now: ScanState<T>,
    done: nat,
    after: ScanState<T>,
    r: Option<ScanError>,
    steps: nat,
)
    requires
        scan_resumes::<T, G>(first, origin, state, now, done),
        scan_ends::<T, G>(state, now, after, r, steps),
    ensures
        scan_ends::<T, G>(first, origin, after, r, steps + done),
{
    reveal(scan_resumes);
}

/// A scan that may end from the state that one transition leads to may end
/// in the same way from the state before that transition, one transition
/// later.
pub proof fn lemma_scan_continues<T, G: StateMachine<T>>(
    state: G::State,
    before: ScanState<T>,
    mid: ScanState<T>,
    next: StateFn<G::State>,
    after: ScanState<T>,
    r: Option<ScanError>,
    steps: nat,
)
    requires
        before.open,
        G::promises(state, before, mid, Ok(Some(next))),
        scan_ends::<T, G>(next.0, mid, after, r, steps),
    ensures
        scan_ends::<T, G>(state, before, after, r, steps + 1),
{
    let result: Result<Option<StateFn<G::State>>, ScanError> = Ok(Some(next));
    assert(G::promises(state, before, mid, result) && match result {
        Ok(Some(next)) => scan_ends::<T, G>(next.0, mid, after, r, steps),
        Ok(None) => after == mid && r.is_none(),
        Err(e) => after == mid && r == settled(e),
    });
}

/// A transition that names no successor ends the scan where it leaves it:
/// without a failure if it returned none, else with what its error settles to.
pub proof fn lemma_scan_stops<T, G: StateMachine<T>>(
    state: G::State,
    before: ScanState<T>,
    mid: ScanState<T>,
    result: Result<Option<StateFn<G::State>>, ScanError>,
)
    requires
        before.open,
        G::promises(state, before, mid, result),
        !(result matches Ok(Some(_))),
    ensures
        scan_ends::<T, G>(
            state,
            before,
            mid,
            match result {
                Err(e) => settled(e),
                _ => None,
            },
            1,
        ),
{
    let r = match result {
        Err(e) => settled(e),
        _ => None,
    };
    assert(G::promises(state, before, mid, result) && match result {
        Ok(Some(next)) => scan_ends::<T, G>(next.0, mid, mid, r, 0),
        Ok(None) => r.is_none(),
        Err(e) => r == settled(e),
    });
}

/// The outcome that a scan ending with `e` reports: the consumer's leaving
/// is no failure, every other error is.
pub fn settle(e: ScanError) -> (r: Option<ScanError>)
    ensures
        r == settled(e),
{
    match e {
        ScanError::ChannelClosed => None,
        _ => Some(e),
    }
}

impl<T, G: StateMachine<T>> Scanner<T> for ReadScanner<T, G> {
    closed spec fn state(&self) -> ScanState<T> {
        ScanState {
            input: self.input@,
            broken: self.broken,
            read: self.read as nat,
            backbuf: self.backbuf@,
            unemitted: self.buf@,
            pos: self.pos,
            start: self.start,
            sent: self.sent@,
            open: self.open,
            taken: (self.sent@.len() - self.outbox@.len()) as nat,
        }
    }

    closed spec fn wf(&self) -> bool {
        &&& self.state().inv()
        &&& self.outbox@.len() <= self.sent@.len()
        &&& forall|i: int|
            0 <= i < self.outbox@.len() ==> (#[trigger] self.outbox@[i])@ == self.sent@[self.sent@.len()
                - self.outbox@.len() + i]
    }

    proof fn lemma_wf(&self) {
    }

    fn next(&mut self) -> (r: Result<char, ScanError>) {
        proof {
            lemma_next_inv(self.state());
            lemma_advance_all(self.start, self.buf@);
        }
        let c = if self.backbuf.len() == 0 {
            if self.read >= self.input.len() {
                if self.broken {
                    return Err(ScanError::DecodeError);
                } else {
                    return Err(ScanError::EndOfInput);
                }
            }
            let c = self.input[self.read];
            self.read += 1;
            c
        } else {
            self.backbuf.pop().unwrap()
        };
        self.buf.push(c);
        self.pos.next(c);
        Ok(c)
    }

    fn back(&mut self) -> (r: Result<(), ScanError>) {
        proof {
            lemma_back_inv(self.state());
        }
        if self.buf.len() == 0 {
            return Err(ScanError::BackBufferUnderflow);
        }
        if self.buf[self.buf.len() - 1] == '\n' {
            return Err(ScanError::LineBoundary);
        }
        let c = self.buf.pop().unwrap();
        self.backbuf.push(c);
        self.pos.back(c);
        Ok(())
    }

    fn emit(&mut self, kind: T) {
        proof {
            lemma_emit_inv(self.state(), kind);
        }
        let token = Token::new(self.start, kind, &self.buf);
        if self.open {
            proof {
                self.sent@ = self.sent@.push(token@);
            }
            self.outbox.push(token);
        }
        self.buf.clear();
        self.start = self.pos;
    }
}

} // verus!
