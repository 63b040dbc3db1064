//! The shared evaluation state and the bounded work each actor performs
//! while holding exclusive access to it: the input actor appends a line's
//! commands to the queue, the worker drains the queue against the stack,
//! and the display actor destructively drains the stack.
//!
//! The queue is physically a stack: the worker pops the most recently
//! appended command first. The tokenizer hands commands over already
//! reversed, and the central law `lemma_lifo_drain_runs_in_line_order`
//! shows that the two reversals cancel: draining a reversed batch has
//! exactly the effect of executing the batch front to back.

use vstd::prelude::*;

use crate::operations::{step_cmd, Cmd, Command, Outcome};
use crate::tokenize::{
    cmd_of_token, get_input_tokens, line_cmds, line_tokens, line_valid, to_cmd, Token,
};

verus! {

/// Executing commands popped from the back of `queue` (the physical LIFO
/// discipline) until the queue is empty or a command's outcome stops the
/// worker. Yields the final stack, the commands left in the queue, and the
/// outcome of the last step (`Continue` when the queue ran dry).
pub open spec fn run_queue(stack: Seq<i64>, queue: Seq<Cmd>) -> (Seq<i64>, Seq<Cmd>, Outcome)
    decreases queue.len(),
{
    if queue.len() == 0 {
        (stack, queue, Outcome::Continue)
    } else {
        let step = step_cmd(stack, queue.last());
        if step.1 is Continue {
            run_queue(step.0, queue.drop_last())
        } else {
            (step.0, queue.drop_last(), step.1)
        }
    }
}

/// Executing commands front to back — the order in which the fragments
/// stood on the input line.
pub open spec fn run_fifo(stack: Seq<i64>, cmds: Seq<Cmd>) -> (Seq<i64>, Seq<Cmd>, Outcome)
    decreases cmds.len(),
{
    if cmds.len() == 0 {
        (stack, cmds, Outcome::Continue)
    } else {
        let step = step_cmd(stack, cmds.first());
        if step.1 is Continue {
            run_fifo(step.0, cmds.drop_first())
        } else {
            (step.0, cmds.drop_first(), step.1)
        }
    }
}

/// Order preservation, the central invariant of the queue discipline: for
/// any batch of commands, popping a pre-reversed batch off the queue one by
/// one executes the batch in its own front-to-back order. Final stack
/// and outcome agree, and the commands left behind are the unexecuted tail,
/// still in reversed (queue) layout.
pub proof fn lemma_lifo_drain_runs_in_line_order(stack: Seq<i64>, cmds: Seq<Cmd>)
    ensures
        run_queue(stack, cmds.reverse()).0 == run_fifo(stack, cmds).0,
        run_queue(stack, cmds.reverse()).1 == run_fifo(stack, cmds).1.reverse(),
        run_queue(stack, cmds.reverse()).2 == run_fifo(stack, cmds).2,
    decreases cmds.len(),
{
    let rev = cmds.reverse();
    if cmds.len() == 0 {
        assert(rev =~= Seq::<Cmd>::empty());
    } else {
        assert(rev.last() == cmds.first());
        assert(rev.drop_last() =~= cmds.drop_first().reverse());
        let step = step_cmd(stack, cmds.first());
        if step.1 is Continue {
            lemma_lifo_drain_runs_in_line_order(step.0, cmds.drop_first());
        }
    }
}

/// For one whole valid input line, end to end: the tokenizer hands its
/// tokens over reversed; queueing their commands and then LIFO-draining the
/// queue gives exactly the stack, the outcome and (reversed) the leftovers
/// of executing the line's commands in left-to-right fragment order.
pub proof fn lemma_enqueued_line_runs_in_order(stack: Seq<i64>, line: Seq<char>)
    requires
        line_valid(line),
    ensures
        ({
            let queued = line_tokens(line).reverse().map_values(|t: Token| cmd_of_token(t));
            &&& run_queue(stack, queued).0 == run_fifo(stack, line_cmds(line)).0
            &&& run_queue(stack, queued).1 == run_fifo(stack, line_cmds(line)).1.reverse()
            &&& run_queue(stack, queued).2 == run_fifo(stack, line_cmds(line)).2
        }),
{
    let queued = line_tokens(line).reverse().map_values(|t: Token| cmd_of_token(t));
    assert(queued =~= line_cmds(line).reverse());
    lemma_lifo_drain_runs_in_line_order(stack, line_cmds(line));
}

/// A `Terminate` command at the pop end of the queue ends the drain at
/// once, whatever commands or values are still pending.
pub proof fn lemma_terminate_preempts_pending(stack: Seq<i64>, queue: Seq<Cmd>)
    requires
        queue.len() > 0,
        queue.last() == Cmd::Terminate,
    ensures
        run_queue(stack, queue).0 == stack,
        run_queue(stack, queue).1 == queue.drop_last(),
        run_queue(stack, queue).2 == Outcome::Terminate,
{
}

/// The destructive display drain emits each stacked value exactly once:
/// what it hands back is a permutation of the old stack contents, and the
/// stack it leaves behind is empty, so an immediately repeated drain emits
/// nothing.
pub proof fn lemma_drain_emits_stack_contents(stack: Seq<i64>)
    ensures
        stack.reverse().to_multiset() == stack.to_multiset(),
        Seq::<i64>::empty().reverse() == Seq::<i64>::empty(),
{
    stack.lemma_reverse_to_multiset();
}

/// The shared evaluation state: the pending-command queue and the value
/// stack, guarded jointly by one exclusive lock held by the caller.
pub struct State {
    pub stack: Vec<i64>,
    pub queue: Vec<Cmd>,
}

impl State {
    /// The state a process starts with: both fields empty.
    pub fn new() -> (s: State)
        ensures
            s.stack@ == Seq::<i64>::empty(),
            s.queue@ == Seq::<Cmd>::empty(),
    {
        State { stack: Vec::new(), queue: Vec::new() }
    }

    /// The input actor's working step: convert each token of a line into
    /// its command and append them all, in token order, under one and the
    /// same hold of the lock.
    pub fn enqueue_tokens(&mut self, tokens: &Vec<Token>)
        ensures
            final(self).queue@ == old(self).queue@ + tokens@.map_values(
                |t: Token| cmd_of_token(t),
            ),
            final(self).stack@ == old(self).stack@,
    {
        let ghost mapped = tokens@.map_values(|t: Token| cmd_of_token(t));
        let mut i: usize = 0;
        while i < tokens.len()
            invariant
                i <= tokens@.len(),
                mapped == tokens@.map_values(|t: Token| cmd_of_token(t)),
                self.queue@ == old(self).queue@ + mapped.take(i as int),
                self.stack@ == old(self).stack@,
            decreases tokens@.len() - i,
        {
            let c = to_cmd(tokens[i]);
            self.queue.push(c);
            proof {
                assert(old(self).queue@ + mapped.take(i as int) + seq![mapped[i as int]] =~= old(
                    self,
                ).queue@ + mapped.take(i + 1));
            }
            i = i + 1;
        }
        proof {
            assert(mapped.take(mapped.len() as int) =~= mapped);
        }
    }

    /// The worker actor's working step: pop the most recently appended
    /// command and execute it, repeating while the queue is non-empty and
    /// each command's outcome allows the worker to continue.
    pub fn drain_queue(&mut self) -> (o: Outcome)
        ensures
            final(self).stack@ == run_queue(old(self).stack@, old(self).queue@).0,
            final(self).queue@ == run_queue(old(self).stack@, old(self).queue@).1,
            o == run_queue(old(self).stack@, old(self).queue@).2,
            o is Continue ==> final(self).queue@.len() == 0,
    {
        loop
            invariant
                run_queue(self.stack@, self.queue@) == run_queue(
                    old(self).stack@,
                    old(self).queue@,
                ),
            decreases self.queue@.len(),
        {
            let c = match self.queue.pop() {
                Some(c) => c,
                None => {
                    return Outcome::Continue;
                },
            };
            let o = c.execute(&mut self.stack);
            match o {
                Outcome::Continue => {},
                _ => {
                    return o;
                },
            }
        }
    }

    /// One whole line against an idle state: tokenized, enqueued, and fully
    /// drained before any interleaving input. `None` is the fatal parse
    /// error, with nothing changed. Otherwise the two reversals — the
    /// tokenizer's and the queue's pop order — cancel, and the net effect
    /// is executing the line's commands in left-to-right fragment order.
    pub fn process_line(&mut self, line: &str) -> (r: Option<Outcome>)
        requires
            old(self).queue@.len() == 0,
        ensures
            !line_valid(line@) ==> r is None && final(self).stack@ == old(self).stack@ && final(
                self).queue@ == old(self).queue@,
            line_valid(line@) ==> {
                let run = run_fifo(old(self).stack@, line_cmds(line@));
                &&& r matches Some(o) && o == run.2
                &&& final(self).stack@ == run.0
                &&& final(self).queue@ == run.1.reverse()
            },
    {
        let tokens = match get_input_tokens(line) {
            Some(tokens) => tokens,
            None => {
                return None;
            },
        };
        self.enqueue_tokens(&tokens);
        proof {
            assert(Seq::<Cmd>::empty() + line_tokens(line@).reverse().map_values(
                |t: Token| cmd_of_token(t),
            ) =~= line_tokens(line@).reverse().map_values(|t: Token| cmd_of_token(t)));
            lemma_enqueued_line_runs_in_order(old(self).stack@, line@);
        }
        Some(self.drain_queue())
    }

    /// The display actor's working step: pop every value off the stack,
    /// yielding them in pop order (top of stack first). Each value is
    /// removed as it is read — the drain is destructive — so what comes
    /// back is exactly the old stack, reversed, and the stack is empty.
    pub fn drain_stack(&mut self) -> (vals: Vec<i64>)
        ensures
            vals@ == old(self).stack@.reverse(),
            final(self).stack@ == Seq::<i64>::empty(),
            final(self).queue@ == old(self).queue@,
    {
        let mut vals: Vec<i64> = Vec::new();
        while self.stack.len() != 0
            invariant
                self.queue@ == old(self).queue@,
                vals@.len() + self.stack@.len() == old(self).stack@.len(),
                forall|k: int|
                    0 <= k < vals@.len() ==> vals@[k] == old(self).stack@[old(
                        self,
                    ).stack@.len() - 1 - k],
                forall|k: int| 0 <= k < self.stack@.len() ==> self.stack@[k] == old(self).stack@[k],
            decreases self.stack@.len(),
        {
            match self.stack.pop() {
                Some(v) => vals.push(v),
                None => {
                    proof {
                        assert(false);
                    }
                },
            }
        }
        proof {
            assert(vals@ =~= old(self).stack@.reverse());
        }
        vals
    }
}

} // verus!

