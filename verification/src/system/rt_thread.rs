//! Isolation of the control thread: a core of its own and real-time priority.
//!
//! The thread is confined to one core, and promoted to real-time scheduling; where that
//! is refused, its niceness is lowered. Nothing of this is fatal. The steps are decided
//! here: each answer of the operating system gives what to report and what to ask next.

use vstd::prelude::*;

verus! {

/// Niceness that stands in for real-time priority.
pub const FALLBACK_NICENESS: i32 = -20;

/// What to ask of the operating system.
#[derive(Debug, Clone, Copy, PartialEq, Eq, Structural)]
pub enum PinCall {
    /// How many cores are online?
    CountCores,
    /// Confine the thread to a core.
    Confine { core: usize },
    /// Is the thread confined to the core?
    Confirm { core: usize },
    /// Which real-time priorities are there?
    PriorityRange,
    /// Promote the thread to real-time scheduling.
    RealTime { priority: i32 },
    /// Lower the niceness of the process.
    Niceness { value: i32 },
}

/// What the operating system answered.
#[derive(Debug, Clone, Copy, PartialEq, Eq, Structural)]
pub enum PinAnswer {
    Cores(i64),
    Confined(i32),
    Confirmed { code: i32, contains: bool },
    Priorities { min: i32, max: i32 },
    RealTime { code: i32, priority: i32 },
    Niceness(i32),
}

/// What to report.
#[derive(Debug, Clone, Copy, PartialEq, Eq, Structural)]
pub enum PinReport {
    CoresUnknown,
    CoreUnavailable { online: i64 },
    AffinityRejected,
    AffinityConfirmed,
    AffinityNotConfirmed,
    PrioritiesUnknown,
    RealTimeActive { priority: i32 },
    NicenessActive,
    NoPriority,
    Nothing,
}

/// The first question.
pub fn first_call() -> (c: PinCall)
    ensures
        c == PinCall::CountCores,
{
    PinCall::CountCores
}

/// What an answer means for a thread that wants the core `core`: what to report, and
/// what to ask next.
pub open spec fn step_of(core: usize, answer: PinAnswer) -> (PinReport, Option<PinCall>) {
    match answer {
        PinAnswer::Cores(online) => if online <= 0 {
            (PinReport::CoresUnknown, None)
        } else if core as int >= online as int {
            (PinReport::CoreUnavailable { online }, None)
        } else {
            (PinReport::Nothing, Some(PinCall::Confine { core }))
        },
        PinAnswer::Confined(code) => if code != 0 {
            (PinReport::AffinityRejected, None)
        } else {
            (PinReport::Nothing, Some(PinCall::Confirm { core }))
        },
        PinAnswer::Confirmed { code, contains } => if code == 0 && contains {
            (PinReport::AffinityConfirmed, Some(PinCall::PriorityRange))
        } else {
            (PinReport::AffinityNotConfirmed, Some(PinCall::PriorityRange))
        },
        PinAnswer::Priorities { min, max } => if min < 0 || max < 0 {
            (PinReport::PrioritiesUnknown, None)
        } else {
            (PinReport::Nothing, Some(PinCall::RealTime { priority: max }))
        },
        PinAnswer::RealTime { code, priority } => if code == 0 {
            (PinReport::RealTimeActive { priority }, None)
        } else {
            (PinReport::Nothing, Some(PinCall::Niceness { value: FALLBACK_NICENESS }))
        },
        PinAnswer::Niceness(code) => if code == 0 {
            (PinReport::NicenessActive, None)
        } else {
            (PinReport::NoPriority, None)
        },
    }
}

/// Decides the next step of confining and promoting the thread.
pub fn pin_critical_thread(core: usize, answer: PinAnswer) -> (r: (PinReport, Option<PinCall>))
    ensures
        r == step_of(core, answer),
{
    match answer {
        PinAnswer::Cores(online) => if online <= 0 {
            (PinReport::CoresUnknown, None)
        } else if core as u64 >= online as u64 {
            (PinReport::CoreUnavailable { online }, None)
        } else {
            (PinReport::Nothing, Some(PinCall::Confine { core }))
        },
        PinAnswer::Confined(code) => if code != 0 {
            (PinReport::AffinityRejected, None)
        } else {
            (PinReport::Nothing, Some(PinCall::Confirm { core }))
        },
        PinAnswer::Confirmed { code, contains } => if code == 0 && contains {
            (PinReport::AffinityConfirmed, Some(PinCall::PriorityRange))
        } else {
            (PinReport::AffinityNotConfirmed, Some(PinCall::PriorityRange))
        },
        PinAnswer::Priorities { min, max } => if min < 0 || max < 0 {
            (PinReport::PrioritiesUnknown, None)
        } else {
            (PinReport::Nothing, Some(PinCall::RealTime { priority: max }))
        },
        PinAnswer::RealTime { code, priority } => if code == 0 {
            (PinReport::RealTimeActive { priority }, None)
        } else {
            (PinReport::Nothing, Some(PinCall::Niceness { value: FALLBACK_NICENESS }))
        },
        PinAnswer::Niceness(code) => if code == 0 {
            (PinReport::NicenessActive, None)
        } else {
            (PinReport::NoPriority, None)
        },
    }
}

/// The answer is one to the question.
pub open spec fn answers(call: PinCall, answer: PinAnswer) -> bool {
    match call {
        PinCall::CountCores => answer is Cores,
        PinCall::Confine { .. } => answer is Confined,
        PinCall::Confirm { .. } => answer is Confirmed,
        PinCall::PriorityRange => answer is Priorities,
        PinCall::RealTime { .. } => answer is RealTime,
        PinCall::Niceness { .. } => answer is Niceness,
    }
}

/// Questions that can still follow.
pub open spec fn remaining(call: PinCall) -> nat {
    match call {
        PinCall::CountCores => 5,
        PinCall::Confine { .. } => 4,
        PinCall::Confirm { .. } => 3,
        PinCall::PriorityRange => 2,
        PinCall::RealTime { .. } => 1,
        PinCall::Niceness { .. } => 0,
    }
}

/// Whatever is answered, the questions come to an end.
pub proof fn law_questions_end(core: usize, call: PinCall, answer: PinAnswer)
    requires
        answers(call, answer),
    ensures
        step_of(core, answer).1 is Some ==> remaining(step_of(core, answer).1->0) < remaining(call),
{
}

/// A core that does not exist is refused: of such a core, nothing is asked.
pub proof fn law_missing_core_is_refused(core: usize, online: i64)
    requires
        core >= online,
    ensures
        step_of(core, PinAnswer::Cores(online)).1 is None,
{
}

/// Niceness is touched only after real-time scheduling was refused, and real-time
/// scheduling is asked for only at the largest priority there is.
pub proof fn law_niceness_is_the_fallback(core: usize, answer: PinAnswer)
    ensures
        step_of(core, answer).1 matches Some(PinCall::Niceness { value }) ==> value
            == FALLBACK_NICENESS && (answer matches PinAnswer::RealTime { code, .. } && code != 0),
        step_of(core, answer).1 matches Some(PinCall::RealTime { priority }) ==> (answer
            matches PinAnswer::Priorities { min, max } && priority == max),
{
}

/// The thread is confined to the core that it wants, and that core is the one asked for again
/// to confirm it.
pub proof fn law_wanted_core_is_asked_for(core: usize, answer: PinAnswer)
    ensures
        step_of(core, answer).1 matches Some(PinCall::Confine { core: c }) ==> c == core,
        step_of(core, answer).1 matches Some(PinCall::Confirm { core: c }) ==> c == core,
        answer matches PinAnswer::Cores(online) && 0 < online && core < online ==> step_of(
            core,
            answer,
        ).1 is Some,
{
}

/// Success is reported exactly where it was answered.
pub proof fn law_reports_are_true(core: usize, answer: PinAnswer)
    ensures
        ({
            let report = step_of(core, answer).0;
            &&& report is AffinityConfirmed <==> answer == (PinAnswer::Confirmed {
                code: 0,
                contains: true,
            })
            &&& report matches PinReport::RealTimeActive { priority } ==> answer
                == (PinAnswer::RealTime { code: 0, priority })
            &&& (answer matches PinAnswer::RealTime { code, .. } && code == 0) ==> report
                is RealTimeActive
            &&& report is NicenessActive <==> answer == PinAnswer::Niceness(0)
            &&& report is AffinityRejected <==> (answer matches PinAnswer::Confined(code) && code
                != 0)
            &&& report matches PinReport::CoreUnavailable { online } ==> answer
                == PinAnswer::Cores(online) && core >= online
        }),
{
}

} // verus!
