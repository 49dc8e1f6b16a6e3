use vstd::prelude::*;

use crate::arith::wadd_u64;
use crate::emulator::{
    DEFAULT_FRAME_BUDGET, Emulator, EmulatorView, FrameResult, FrameStatus, HostAction, HostReply,
    HostRequest, Suspended, VM_SLICE_INSTRUCTIONS, clock_advanced, delay_advanced, pending_input,
};
use crate::error::{Error, Result};
use crate::vm::{RunOutcome, lemma_run_counts, wadd_n};
use super::system::lemma_continue_format_count;

verus! {

/// Instructions run since the count stood at `start` (the count wraps).
pub open spec fn executed_since(s: EmulatorView, start: u64) -> u64 {
    vstd::wrapping::u64_specs::wrapping_sub(s.vm.instructions_executed, start)
}

/// The slice the frame hands the VM after `executed` of `budget` instructions.
pub open spec fn next_slice(budget: usize, executed: u64) -> nat {
    if budget - executed < VM_SLICE_INSTRUCTIONS {
        (budget - executed) as nat
    } else {
        VM_SLICE_INSTRUCTIONS as nat
    }
}

pub open spec fn frame_result(status: FrameStatus, instructions: u64, system_calls: nat) -> FrameResult {
    FrameResult { status, instructions: instructions as usize, system_calls: system_calls as usize }
}

/// A frame that stops for the host: the request is answered by `r`, and
/// `after` remembers how far the frame got.
pub open spec fn suspend(
    t: EmulatorView,
    executed: u64,
    budget: usize,
    calls: nat,
    request: HostRequest,
    r: Result<FrameResult>,
    after: EmulatorView,
) -> bool {
    &&& r == Ok::<FrameResult, Error>(frame_result(FrameStatus::Host(request), executed, calls))
    &&& after == (EmulatorView {
        suspended: Some(
            Suspended {
                executed: executed as usize,
                budget,
                system_calls: calls as usize,
                request,
            },
        ),
        ..t
    })
}

/// How a frame ends after a system call that does not continue it.
pub open spec fn action_end(
    t: EmulatorView,
    start: u64,
    budget: usize,
    calls: nat,
    a: Result<HostAction>,
    r: Result<FrameResult>,
    after: EmulatorView,
) -> bool {
    let executed = executed_since(t, start);
    match a {
        Err(e) => r == Err::<FrameResult, Error>(e),
        Ok(HostAction::Continue) => false,
        Ok(HostAction::Present) => r == Ok::<FrameResult, Error>(frame_result(FrameStatus::Presented, executed, calls))
            && after == t,
        Ok(HostAction::WaitForInput) => r == Ok::<FrameResult, Error>(
            frame_result(FrameStatus::WaitingForInput, executed, calls),
        ) && after == t,
        Ok(HostAction::Delay) => r == Ok::<FrameResult, Error>(frame_result(FrameStatus::Delayed, executed, calls))
            && after == t,
        Ok(HostAction::Halt(code)) => r == Ok::<FrameResult, Error>(
            frame_result(FrameStatus::Halted(code), executed, calls),
        ) && after == t,
        Ok(HostAction::Request(q)) => suspend(t, executed, budget, calls, q, r, after),
    }
}

/// One turn of the frame loop that goes on: a slice of instructions runs
/// out, or stops at a system call that continues the frame.
pub open spec fn loop_turn(s: EmulatorView, calls: nat, start: u64, budget: usize, t: EmulatorView, calls_t: nat) -> bool {
    let executed = executed_since(s, start);
    &&& executed < budget
    &&& match s.vm.run(next_slice(budget, executed)) {
        Ok((RunOutcome::BudgetExhausted, vm)) => calls_t == calls && t == s.with_vm(vm),
        Ok((RunOutcome::SystemCall(call), vm)) => calls_t == calls + 1 && s.with_vm(vm).system_call(
            call,
            Ok(HostAction::Continue),
            t,
        ) && t.vm.instructions_executed == vm.instructions_executed,
        _ => false,
    }
}

/// The last turn of the frame loop, from `s` with `calls` system calls made.
pub open spec fn loop_end(s: EmulatorView, calls: nat, start: u64, budget: usize, r: Result<FrameResult>, after: EmulatorView) -> bool {
    let executed = executed_since(s, start);
    if executed >= budget {
        r == Ok::<FrameResult, Error>(frame_result(FrameStatus::Running, executed, calls)) && after == s
    } else {
        match s.vm.run(next_slice(budget, executed)) {
            Err(e) => r == Err::<FrameResult, Error>(e),
            Ok((RunOutcome::BudgetExhausted, _vm)) => false,
            Ok((RunOutcome::Halted(code), vm)) => r == Ok::<FrameResult, Error>(
                frame_result(FrameStatus::Halted(code), executed_since(s.with_vm(vm), start), calls),
            ) && after == s.with_vm(vm),
            Ok((RunOutcome::FloatOperation(f), vm)) => suspend(
                s.with_vm(vm),
                executed_since(s.with_vm(vm), start),
                budget,
                calls,
                HostRequest::Float(f),
                r,
                after,
            ),
            Ok((RunOutcome::SystemCall(call), vm)) => exists|a: Result<HostAction>, t: EmulatorView|
                #[trigger] s.with_vm(vm).system_call(call, a, t) && (a is Ok ==> t.vm.instructions_executed
                    == vm.instructions_executed) && action_end(t, start, budget, calls + 1, a, r, after),
        }
    }
}

/// Turn `i` of `trace` is a turn of the loop.
pub open spec fn turn_at(trace: Seq<(EmulatorView, nat)>, i: int, start: u64, budget: usize) -> bool {
    loop_turn(trace[i].0, trace[i].1, start, budget, trace[i + 1].0, trace[i + 1].1)
}

/// `trace` lists the states (with the system calls counted) that the frame
/// loop passes through from `s0`, and its last turn ends the frame.
pub open spec fn frame_trace(
    trace: Seq<(EmulatorView, nat)>,
    s0: EmulatorView,
    calls0: nat,
    start: u64,
    budget: usize,
    r: Result<FrameResult>,
    after: EmulatorView,
) -> bool {
    &&& trace.len() >= 1
    &&& trace[0] == (s0, calls0)
    &&& forall|i: int| 0 <= i < trace.len() - 1 ==> #[trigger] turn_at(trace, i, start, budget)
    &&& loop_end(trace.last().0, trace.last().1, start, budget, r, after)
}

/// The frame loop: from `s0`, counting instructions from `start` and
/// system calls from `calls0`, it runs slices of at most
/// `VM_SLICE_INSTRUCTIONS` until `budget` instructions have run, the program
/// halts, or a system call or a floating-point instruction stops it.
pub open spec fn frame_loop(s0: EmulatorView, calls0: nat, start: u64, budget: usize, r: Result<FrameResult>, after: EmulatorView) -> bool {
    exists|trace: Seq<(EmulatorView, nat)>| #[trigger] frame_trace(trace, s0, calls0, start, budget, r, after)
}

/// What one turn of the frame loop leads to.
enum LoopTurn {
    Again(usize),
    Ended(FrameResult),
}

impl EmulatorView {
    /// A frame from the point where a waiting key has been handed over:
    /// the delay counter advances, and a sleeping guest stays asleep.
    pub open spec fn frame_after_key(self, budget: usize, r: Result<FrameResult>, after: EmulatorView) -> bool {
        let s = delay_advanced(self);
        if s.delay_remaining_ticks != 0 {
            r == Ok::<FrameResult, Error>(frame_result(FrameStatus::Delayed, 0, 0)) && after == s
        } else {
            frame_loop(s, 0, s.vm.instructions_executed, budget, r, after)
        }
    }

    /// One 60 Hz frame (before its count advances): the clock advances; an
    /// ended program reports its exit code; a guest waiting for a key gets
    /// one or keeps waiting; then the delay and the frame loop.
    pub open spec fn frame(self, budget: usize, r: Result<FrameResult>, after: EmulatorView) -> bool {
        let s1 = clock_advanced(self);
        if !s1.vm.running {
            r == Ok::<FrameResult, Error>(frame_result(FrameStatus::Halted(s1.vm.exit_code), 0, 0)) && after == s1
        } else if s1.waiting_for_key {
            match pending_input(s1) {
                (None, s2) => r == Ok::<FrameResult, Error>(frame_result(FrameStatus::WaitingForInput, 0, 0))
                    && after == s2,
                (Some(v), s2) => match s2.push(v) {
                    Err(e) => r == Err::<FrameResult, Error>(e),
                    Ok(s3) => EmulatorView { waiting_for_key: false, ..s3 }.frame_after_key(budget, r, after),
                },
            }
        } else {
            s1.frame_after_key(budget, r, after)
        }
    }

    /// The frame count after a frame.
    pub open spec fn counted(self) -> EmulatorView {
        EmulatorView { frame_index: wadd_u64(self.frame_index, 1), ..self }
    }

    /// What answering the pending request with `reply` does: a value is
    /// pushed for a floating-point or math request, a text goes to the
    /// pending format, and the frame goes on where it stopped.
    pub open spec fn resumed(self, reply: HostReply, r: Result<FrameResult>, after: EmulatorView) -> bool {
        match self.suspended {
            None => r == Err::<FrameResult, Error>(Error::UnsupportedFeature("no host request is pending"))
                && after == self,
            Some(p) => {
                let s = EmulatorView { suspended: None, ..self };
                let start = vstd::wrapping::u64_specs::wrapping_sub(
                    self.vm.instructions_executed,
                    p.executed as u64,
                );
                let calls = p.system_calls as nat;
                let mismatch = r == Err::<FrameResult, Error>(
                    Error::UnsupportedFeature("the reply does not answer the pending request"),
                ) && after == self;
                match reply {
                    HostReply::Value(v) => if p.request is FloatText {
                        mismatch
                    } else {
                        match s.push(v) {
                            Err(e) => r == Err::<FrameResult, Error>(e),
                            Ok(t) => frame_loop(t, calls, start, p.budget, r, after),
                        }
                    },
                    HostReply::Text(text) => if p.request is FloatText {
                        match s.continue_format(text@) {
                            Err(e) => r == Err::<FrameResult, Error>(e),
                            Ok((HostAction::Continue, t)) => frame_loop(t, calls, start, p.budget, r, after),
                            Ok((a, t)) => action_end(t, start, p.budget, calls, Ok(a), r, after),
                        }
                    } else {
                        mismatch
                    },
                }
            },
        }
    }
}

/// Counting on from the count that a wrapping counter reached after `k`
/// more steps.
proof fn lemma_executed_grows(a: u64, start: u64, k: nat)
    requires
        vstd::wrapping::u64_specs::wrapping_sub(a, start) + k <= u64::MAX,
    ensures
        vstd::wrapping::u64_specs::wrapping_sub(wadd_n(a, k), start) == vstd::wrapping::u64_specs::wrapping_sub(a, start)
            + k,
{
    let m: int = 0x1_0000_0000_0000_0000;
    let e: int = vstd::wrapping::u64_specs::wrapping_sub(a, start) as int;
    assert((a - start) % m == e) by {
        if a - start < 0 {
            vstd::arithmetic::div_mod::lemma_small_mod((a - start + m) as nat, m as nat);
            vstd::arithmetic::div_mod::lemma_mod_add_multiples_vanish(a - start, m);
        } else {
            vstd::arithmetic::div_mod::lemma_small_mod((a - start) as nat, m as nat);
        }
    }
    let b: int = wadd_n(a, k) as int;
    assert(b == (a + k) % m);
    vstd::arithmetic::div_mod::lemma_sub_mod_noop(a + k, start as int, m);
    vstd::arithmetic::div_mod::lemma_mod_twice(a + k, m);
    assert((b - start) % m == (a + k - start) % m) by {
        vstd::arithmetic::div_mod::lemma_sub_mod_noop(b, start as int, m);
        vstd::arithmetic::div_mod::lemma_mod_twice(b, m);
        vstd::arithmetic::div_mod::lemma_small_mod(b as nat, m as nat);
    }
    vstd::arithmetic::div_mod::lemma_add_mod_noop(a - start, k as int, m);
    vstd::arithmetic::div_mod::lemma_small_mod((e + k) as nat, m as nat);
    vstd::arithmetic::div_mod::lemma_small_mod(k as nat % m as nat, m as nat);
    assert((a + k - start) % m == e + k) by {
        vstd::arithmetic::div_mod::lemma_add_mod_noop(a - start, k as int, m);
        vstd::arithmetic::div_mod::lemma_mod_twice(a - start, m);
        vstd::arithmetic::div_mod::lemma_mod_twice(k as int, m);
    }
    let w: int = vstd::wrapping::u64_specs::wrapping_sub(wadd_n(a, k), start) as int;
    if b - start < 0 {
        vstd::arithmetic::div_mod::lemma_small_mod((b - start + m) as nat, m as nat);
        vstd::arithmetic::div_mod::lemma_mod_add_multiples_vanish(b - start, m);
    } else {
        vstd::arithmetic::div_mod::lemma_small_mod((b - start) as nat, m as nat);
    }
    assert(w == (b - start) % m);
}

/// Going back `e` steps on a wrapping counter and counting forward again
/// gives `e`.
proof fn lemma_back_and_forth(a: u64, e: u64)
    ensures
        vstd::wrapping::u64_specs::wrapping_sub(a, vstd::wrapping::u64_specs::wrapping_sub(a, e)) == e,
{
}


/// A slice run from `s` moves the count on by at most the slice.
proof fn lemma_slice_bound(s: EmulatorView, start: u64, budget: usize)
    requires
        executed_since(s, start) < budget,
    ensures
        s.vm.run(next_slice(budget, executed_since(s, start))) matches Ok((outcome, vm)) ==> {
            let e = executed_since(s.with_vm(vm), start);
            &&& executed_since(s, start) <= e <= budget
            &&& (outcome is BudgetExhausted || outcome is SystemCall || outcome is FloatOperation) ==> executed_since(s, start) < e
        },
{
    let executed = executed_since(s, start);
    let slice = next_slice(budget, executed);
    lemma_run_counts(s.vm, slice);
    if let Ok((outcome, vm)) = s.vm.run(slice) {
        let k = choose|k: nat|
            #![trigger wadd_n(s.vm.instructions_executed, k)]
            k <= slice && vm.instructions_executed == wadd_n(s.vm.instructions_executed, k) && match outcome {
                RunOutcome::BudgetExhausted => k == slice,
                RunOutcome::SystemCall(call) => k >= 1 && call <= 86,
                RunOutcome::FloatOperation(_) => k >= 1,
                RunOutcome::Halted(_) => true,
            };
        lemma_executed_grows(s.vm.instructions_executed, start, k);
    }
}

/// What a frame result says of the frame that gave it: at most one system
/// call per instruction, at most `budget` instructions, exactly the count
/// the machine moved on by since `start`, and the whole budget when the
/// frame ran out of it.
pub open spec fn counted_result(r: Result<FrameResult>, budget: usize, after: EmulatorView, start: u64) -> bool {
    r matches Ok(fr) ==> {
        &&& fr.system_calls <= fr.instructions <= budget
        &&& fr.instructions == executed_since(after, start)
        &&& (fr.status is Running ==> fr.instructions == budget)
    }
}

/// The bound every state of the frame loop keeps.
pub open spec fn within_budget(s: EmulatorView, calls: nat, start: u64, budget: usize) -> bool {
    calls <= executed_since(s, start) <= budget
}

proof fn lemma_turn_keeps_bound(s: EmulatorView, calls: nat, start: u64, budget: usize, t: EmulatorView, calls_t: nat)
    requires
        within_budget(s, calls, start, budget),
        loop_turn(s, calls, start, budget, t, calls_t),
    ensures
        within_budget(t, calls_t, start, budget),
{
    lemma_slice_bound(s, start, budget);
}

proof fn lemma_end_keeps_bound(s: EmulatorView, calls: nat, start: u64, budget: usize, r: Result<FrameResult>, after: EmulatorView)
    requires
        within_budget(s, calls, start, budget),
        loop_end(s, calls, start, budget, r, after),
    ensures
        counted_result(r, budget, after, start),
{
    let executed = executed_since(s, start);
    if executed < budget {
        lemma_slice_bound(s, start, budget);
        if let Ok((RunOutcome::SystemCall(call), vm)) = s.vm.run(next_slice(budget, executed)) {
            let (a, t) = choose|a: Result<HostAction>, t: EmulatorView|
                #[trigger] s.with_vm(vm).system_call(call, a, t) && (a is Ok ==> t.vm.instructions_executed
                    == vm.instructions_executed) && action_end(t, start, budget, calls + 1, a, r, after);
            assert(a is Ok ==> executed_since(t, start) == executed_since(s.with_vm(vm), start));
        }
    }
}

proof fn lemma_trace_keeps_bound(
    trace: Seq<(EmulatorView, nat)>,
    s0: EmulatorView,
    calls0: nat,
    start: u64,
    budget: usize,
    r: Result<FrameResult>,
    after: EmulatorView,
    n: int,
)
    requires
        frame_trace(trace, s0, calls0, start, budget, r, after),
        within_budget(s0, calls0, start, budget),
        0 <= n < trace.len(),
    ensures
        within_budget(trace[n].0, trace[n].1, start, budget),
    decreases n,
{
    if n > 0 {
        lemma_trace_keeps_bound(trace, s0, calls0, start, budget, r, after, n - 1);
        assert(turn_at(trace, n - 1, start, budget));
        lemma_turn_keeps_bound(trace[n - 1].0, trace[n - 1].1, start, budget, trace[n].0, trace[n].1);
    }
}

/// The frame loop stays within its budget when it starts within it.
pub proof fn lemma_loop_within_budget(s0: EmulatorView, calls0: nat, start: u64, budget: usize, r: Result<FrameResult>, after: EmulatorView)
    requires
        frame_loop(s0, calls0, start, budget, r, after),
        within_budget(s0, calls0, start, budget),
    ensures
        counted_result(r, budget, after, start),
{
    let trace = choose|trace: Seq<(EmulatorView, nat)>| #[trigger] frame_trace(trace, s0, calls0, start, budget, r, after);
    lemma_trace_keeps_bound(trace, s0, calls0, start, budget, r, after, trace.len() - 1);
    lemma_end_keeps_bound(trace.last().0, trace.last().1, start, budget, r, after);
}

/// A frame never runs more instructions than its budget, and it makes at
/// most one system call per instruction it runs; the instructions it
/// reports are those the machine counted, and a frame that ran out of
/// budget ran all of it. A program that has ended reports its exit code
/// and runs nothing.
pub proof fn law_frame_within_budget(s: EmulatorView, budget: usize, r: Result<FrameResult>, after: EmulatorView)
    requires
        s.frame(budget, r, after),
    ensures
        counted_result(r, budget, after, s.vm.instructions_executed),
        !s.vm.running ==> r == Ok::<FrameResult, Error>(frame_result(FrameStatus::Halted(s.vm.exit_code), 0, 0)),
{
    let s1 = clock_advanced(s);
    if s1.vm.running {
        if s1.waiting_for_key {
            if let (Some(v), s2) = pending_input(s1) {
                if let Ok(s3) = s2.push(v) {
                    let u = delay_advanced(EmulatorView { waiting_for_key: false, ..s3 });
                    if u.delay_remaining_ticks == 0 {
                        lemma_loop_within_budget(u, 0, u.vm.instructions_executed, budget, r, after);
                    }
                }
            }
        } else {
            let u = delay_advanced(s1);
            if u.delay_remaining_ticks == 0 {
                lemma_loop_within_budget(u, 0, u.vm.instructions_executed, budget, r, after);
            }
        }
    }
}

/// A resumed frame keeps the budget it was started with.
pub proof fn law_resumed_within_budget(s: EmulatorView, reply: HostReply, r: Result<FrameResult>, after: EmulatorView)
    requires
        s.wf(),
        s.resumed(reply, r, after),
    ensures
        s.suspended matches Some(p) ==> (r matches Ok(fr) ==> fr.system_calls <= fr.instructions <= p.budget
            && (fr.status is Running ==> fr.instructions == p.budget)),
{
    if let Some(p) = s.suspended {
        let start = vstd::wrapping::u64_specs::wrapping_sub(s.vm.instructions_executed, p.executed as u64);
        lemma_back_and_forth(s.vm.instructions_executed, p.executed as u64);
        let base = EmulatorView { suspended: None, ..s };
        match reply {
            HostReply::Value(v) => {
                if let Ok(t) = base.push(v) {
                    if !(p.request is FloatText) {
                        lemma_loop_within_budget(t, p.system_calls as nat, start, p.budget, r, after);
                    }
                }
            },
            HostReply::Text(text) => {
                if p.request is FloatText {
                    match base.continue_format(text@) {
                        Ok((HostAction::Continue, t)) => {
                            lemma_continue_format_count(base, text@);
                            lemma_loop_within_budget(t, p.system_calls as nat, start, p.budget, r, after);
                        },
                        Ok((_a, _t)) => {
                            lemma_continue_format_count(base, text@);
                        },
                        Err(_) => {},
                    }
                }
            },
        }
    }
}

impl Emulator {
    /// Ends a frame after a system call that does not continue it.
    fn end_frame(&mut self, action: HostAction, start: u64, budget: usize, calls: usize) -> (r: FrameResult)
        requires
            old(self).inv(),
            !(action is Continue),
            calls <= executed_since(old(self)@, start) <= budget,
        ensures
            final(self).inv(),
            final(self)@.elapsed_ms == old(self)@.elapsed_ms,
            final(self)@.time_remainder == old(self)@.time_remainder,
            action_end(old(self)@, start, budget, calls as nat, Ok(action), Ok(r), final(self)@),
    {
        let executed = self.vm.instructions_executed().wrapping_sub(start);
        let status = match action {
            HostAction::Continue => FrameStatus::Running,
            HostAction::Present => FrameStatus::Presented,
            HostAction::WaitForInput => FrameStatus::WaitingForInput,
            HostAction::Delay => FrameStatus::Delayed,
            HostAction::Halt(code) => FrameStatus::Halted(code),
            HostAction::Request(request) => {
                self.suspended = Some(
                    Suspended { executed: executed as usize, budget, system_calls: calls, request },
                );
                FrameStatus::Host(request)
            },
        };
        FrameResult { status, instructions: executed as usize, system_calls: calls }
    }

    /// One turn of the frame loop: `Again` with the system calls counted
    /// when the frame goes on, `Ended` with its result when it ends.
    fn frame_turn(&mut self, start: u64, budget: usize, calls: usize) -> (r: Result<LoopTurn>)
        requires
            old(self).inv(),
            calls <= executed_since(old(self)@, start) <= budget,
        ensures
            final(self).inv(),
            final(self)@.elapsed_ms == old(self)@.elapsed_ms,
            final(self)@.time_remainder == old(self)@.time_remainder,
            match r {
                Ok(LoopTurn::Again(c)) => loop_turn(old(self)@, calls as nat, start, budget, final(self)@, c as nat)
                    && c <= executed_since(final(self)@, start) <= budget
                    && executed_since(old(self)@, start) < executed_since(final(self)@, start),
                Ok(LoopTurn::Ended(fr)) => loop_end(old(self)@, calls as nat, start, budget, Ok(fr), final(self)@),
                Err(e) => loop_end(old(self)@, calls as nat, start, budget, Err(e), final(self)@),
            },
    {
        let executed = self.vm.instructions_executed().wrapping_sub(start);
        if executed >= budget as u64 {
            return Ok(LoopTurn::Ended(FrameResult { status: FrameStatus::Running, instructions: executed as usize, system_calls: calls }));
        }
        let left: usize = budget - executed as usize;
        let slice: usize = if left < VM_SLICE_INSTRUCTIONS { left } else { VM_SLICE_INSTRUCTIONS };
        let ghost s = self@;
        assert(slice as nat == next_slice(budget, executed));
        proof {
            lemma_run_counts(s.vm, slice as nat);
        }
        let outcome = self.vm.run(slice)?;
        let ghost s1 = self@;
        assert(s1 == s.with_vm(self.vm@));
        let ghost k = choose|k: nat|
            #![trigger wadd_n(s.vm.instructions_executed, k)]
            k <= slice && s1.vm.instructions_executed == wadd_n(s.vm.instructions_executed, k) && match outcome {
                RunOutcome::BudgetExhausted => k == slice,
                RunOutcome::SystemCall(call) => k >= 1 && call <= 86,
                RunOutcome::FloatOperation(_) => k >= 1,
                RunOutcome::Halted(_) => true,
            };
        proof {
            lemma_executed_grows(s.vm.instructions_executed, start, k);
        }
        let now = self.vm.instructions_executed().wrapping_sub(start);
        assert(now == executed + k);
        match outcome {
            RunOutcome::BudgetExhausted => Ok(LoopTurn::Again(calls)),
            RunOutcome::Halted(code) => {
                Ok(LoopTurn::Ended(FrameResult { status: FrameStatus::Halted(code), instructions: now as usize, system_calls: calls }))
            },
            RunOutcome::FloatOperation(f) => {
                let request = HostRequest::Float(f);
                self.suspended = Some(Suspended { executed: now as usize, budget, system_calls: calls, request });
                Ok(LoopTurn::Ended(FrameResult { status: FrameStatus::Host(request), instructions: now as usize, system_calls: calls }))
            },
            RunOutcome::SystemCall(call) => {
                let calls = calls + 1;
                let action = self.dispatch_system_call(call);
                let ghost s2 = self@;
                match action {
                    Err(e) => {
                        assert(s1.system_call(call, Err(e), s2));
                        Err(e)
                    },
                    Ok(HostAction::Continue) => Ok(LoopTurn::Again(calls)),
                    Ok(a) => {
                        let r = self.end_frame(a, start, budget, calls);
                        assert(s1.system_call(call, Ok(a), s2));
                        Ok(LoopTurn::Ended(r))
                    },
                }
            },
        }
    }

    /// The frame loop (see `frame_loop`).
    fn frame_loop(&mut self, start: u64, budget: usize, system_calls: usize) -> (r: Result<FrameResult>)
        requires
            old(self).inv(),
            system_calls <= executed_since(old(self)@, start) <= budget,
        ensures
            final(self).inv(),
            final(self)@.elapsed_ms == old(self)@.elapsed_ms,
            final(self)@.time_remainder == old(self)@.time_remainder,
            frame_loop(old(self)@, system_calls as nat, start, budget, r, final(self)@),
    {
        let mut calls: usize = system_calls;
        let ghost mut trace: Seq<(EmulatorView, nat)> = seq![(self@, system_calls as nat)];
        loop
            invariant
                self.inv(),
                calls <= executed_since(self@, start) <= budget,
                self@.elapsed_ms == old(self)@.elapsed_ms,
                self@.time_remainder == old(self)@.time_remainder,
                trace.len() >= 1,
                trace[0] == (old(self)@, system_calls as nat),
                trace.last() == (self@, calls as nat),
                forall|i: int| 0 <= i < trace.len() - 1 ==> #[trigger] turn_at(trace, i, start, budget),
            decreases budget - executed_since(self@, start),
        {
            let ghost before = self@;
            match self.frame_turn(start, budget, calls) {
                Err(e) => {
                    assert(frame_trace(trace, old(self)@, system_calls as nat, start, budget, Err(e), self@));
                    return Err(e);
                },
                Ok(LoopTurn::Ended(r)) => {
                    assert(frame_trace(trace, old(self)@, system_calls as nat, start, budget, Ok(r), self@));
                    return Ok(r);
                },
                Ok(LoopTurn::Again(c)) => {
                    proof {
                        let t = trace.push((self@, c as nat));
                        assert(turn_at(t, trace.len() - 1, start, budget));
                        assert forall|i: int| 0 <= i < t.len() - 1 implies #[trigger] turn_at(t, i, start, budget) by {
                            if i < trace.len() - 1 {
                                assert(turn_at(trace, i, start, budget));
                            }
                        }
                        trace = t;
                    }
                    calls = c;
                },
            }
        }
    }
}

impl Emulator {
    /// A frame before its count advances (see `EmulatorView::frame`).
    fn run_frame_inner(&mut self, budget: usize) -> (r: Result<FrameResult>)
        requires
            old(self).inv(),
        ensures
            final(self).inv(),
            final(self)@.elapsed_ms == clock_advanced(old(self)@).elapsed_ms,
            final(self)@.time_remainder == clock_advanced(old(self)@).time_remainder,
            old(self)@.frame(budget, r, final(self)@),
    {
        self.advance_frame_clock();
        if !self.vm.is_running() {
            return Ok(FrameResult { status: FrameStatus::Halted(self.vm.exit_code()), instructions: 0, system_calls: 0 });
        }
        if self.waiting_for_key {
            match self.pending_input_value() {
                Some(value) => {
                    self.push_value(value)?;
                    self.waiting_for_key = false;
                },
                None => {
                    return Ok(FrameResult { status: FrameStatus::WaitingForInput, instructions: 0, system_calls: 0 });
                },
            }
        }
        self.advance_delay_ticks();
        if self.delay_remaining_ticks != 0 {
            return Ok(FrameResult { status: FrameStatus::Delayed, instructions: 0, system_calls: 0 });
        }
        let start = self.vm.instructions_executed();
        assert(executed_since(self@, start) == 0);
        self.frame_loop(start, budget, 0)
    }

    /// Runs one 60 Hz frame with the default budget of
    /// `DEFAULT_FRAME_BUDGET` instructions (see `run_frame_with_budget`).
    pub fn run_frame(&mut self) -> (r: Result<FrameResult>)
        requires
            old(self).wf(),
        ensures
            final(self).wf(),
            old(self)@.suspended matches Some(p) ==> r == Ok::<FrameResult, Error>(
                frame_result(FrameStatus::Host(p.request), 0, 0),
            ) && final(self)@ == old(self)@,
            old(self)@.suspended is None ==> exists|mid: EmulatorView|
                #[trigger] old(self)@.frame(DEFAULT_FRAME_BUDGET, r, mid) && final(self)@ == mid.counted(),
            old(self)@.suspended is None ==> final(self)@.elapsed_ms == clock_advanced(old(self)@).elapsed_ms
                && final(self)@.time_remainder == clock_advanced(old(self)@).time_remainder,
    {
        self.run_frame_with_budget(DEFAULT_FRAME_BUDGET)
    }

    /// Runs one 60 Hz frame of at most `budget` instructions (see
    /// `EmulatorView::frame`) and counts it. While a host request is
    /// pending, nothing runs and the request is reported again.
    pub fn run_frame_with_budget(&mut self, budget: usize) -> (r: Result<FrameResult>)
        requires
            old(self).wf(),
        ensures
            final(self).wf(),
            old(self)@.suspended matches Some(p) ==> r == Ok::<FrameResult, Error>(
                frame_result(FrameStatus::Host(p.request), 0, 0),
            ) && final(self)@ == old(self)@,
            old(self)@.suspended is None ==> exists|mid: EmulatorView|
                #[trigger] old(self)@.frame(budget, r, mid) && final(self)@ == mid.counted(),
            old(self)@.suspended is None ==> final(self)@.elapsed_ms == clock_advanced(old(self)@).elapsed_ms
                && final(self)@.time_remainder == clock_advanced(old(self)@).time_remainder,
    {
        if let Some(p) = self.suspended {
            return Ok(FrameResult { status: FrameStatus::Host(p.request), instructions: 0, system_calls: 0 });
        }
        let result = self.run_frame_inner(budget);
        let ghost mid = self@;
        self.frame_index = self.frame_index.wrapping_add(1);
        assert(self@ == mid.counted());
        result
    }

    /// Answers the request that suspended the frame and runs the rest of
    /// the frame (see `EmulatorView::resumed`).
    pub fn resume_frame(&mut self, reply: HostReply) -> (r: Result<FrameResult>)
        requires
            old(self).wf(),
        ensures
            final(self).wf(),
            old(self)@.resumed(reply, r, final(self)@),
            final(self)@.elapsed_ms == old(self)@.elapsed_ms,
            final(self)@.time_remainder == old(self)@.time_remainder,
    {
        let p = match self.suspended {
            Some(p) => p,
            None => return Err(Error::UnsupportedFeature("no host request is pending")),
        };
        let start = self.vm.instructions_executed().wrapping_sub(p.executed as u64);
        proof {
            lemma_back_and_forth(self@.vm.instructions_executed, p.executed as u64);
        }
        match reply {
            HostReply::Value(v) => {
                if let HostRequest::FloatText(_) = p.request {
                    return Err(Error::UnsupportedFeature("the reply does not answer the pending request"));
                }
                self.suspended = None;
                self.push_value(v)?;
                self.frame_loop(start, p.budget, p.system_calls)
            },
            HostReply::Text(text) => {
                if let HostRequest::FloatText(_) = p.request {
                    self.suspended = None;
                    let action = self.continue_format(text)?;
                    if let HostAction::Continue = action {
                        self.frame_loop(start, p.budget, p.system_calls)
                    } else {
                        Ok(self.end_frame(action, start, p.budget, p.system_calls))
                    }
                } else {
                    Err(Error::UnsupportedFeature("the reply does not answer the pending request"))
                }
            },
        }
    }
}

} // verus!
