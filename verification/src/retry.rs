//! When to try again, and how long to wait first.
use crate::client;
use crate::client::{Disposition, COORDINATOR_NOT_AVAILABLE};
use vstd::prelude::*;

verus! {

/// Attempts for a request whose disposition says "retry" or "find again". A
/// coordinator that never settles is a cluster problem, and spinning silently is worse
/// than reporting it.
pub const MAX_RETRIES: usize = 40;

/// The wait before a retry, in milliseconds: 5, doubled with each attempt, and never
/// above 250.
pub open spec fn backoff_of(attempt: nat) -> nat {
    let delay = 5 * vstd::arithmetic::power2::pow2(
        if attempt < 16 {
            attempt
        } else {
            16
        },
    );
    if delay < 250 {
        delay
    } else {
        250
    }
}

/// The wait before a retry, in milliseconds: 5, 10, 20, and so on up to 250.
pub fn backoff_ms(attempt: usize) -> (ms: u64)
    ensures
        ms == backoff_of(attempt as nat),
{
    proof {
        vstd::arithmetic::power2::lemma2_to64();
    }
    match attempt {
        0 => 5,
        1 => 10,
        2 => 20,
        3 => 40,
        4 => 80,
        5 => 160,
        _ => {
            proof {
                let n: nat = if attempt < 16 {
                    attempt as nat
                } else {
                    16
                };
                if n > 6 {
                    vstd::arithmetic::power2::lemma_pow2_strictly_increases(6, n);
                }
            }
            250
        },
    }
}

/// Waits never shrink, and never exceed 250 milliseconds.
pub proof fn law_backoff_grows_to_a_cap(attempt: nat)
    ensures
        backoff_of(attempt) <= backoff_of(attempt + 1) <= 250,
        attempt >= 6 ==> backoff_of(attempt) == 250,
{
    vstd::arithmetic::power2::lemma2_to64();
    let n: nat = if attempt < 16 {
        attempt
    } else {
        16
    };
    let m: nat = if attempt + 1 < 16 {
        attempt + 1
    } else {
        16
    };
    if n < m {
        vstd::arithmetic::power2::lemma_pow2_strictly_increases(n, m);
    }
    if n > 6 {
        vstd::arithmetic::power2::lemma_pow2_strictly_increases(6, n);
    }
}

/// What to do about an answer.
#[derive(Debug)]
pub enum Verdict {
    /// It worked.
    Done,
    /// Wait, and try again.
    Again { wait_ms: u64 },
    /// Wait, and report failure.
    Fail { wait_ms: u64, op: &'static str, code: i16, disposition: Disposition },
}

/// What a [`Verdict`] stands for.
pub ghost enum Outcome {
    Done,
    Again(u64),
    Fail(u64, Seq<char>, i16, Disposition),
}

impl View for Verdict {
    type V = Outcome;

    open spec fn view(&self) -> Outcome {
        match self {
            Verdict::Done => Outcome::Done,
            Verdict::Again { wait_ms } => Outcome::Again(*wait_ms),
            Verdict::Fail { wait_ms, op, code, disposition } => Outcome::Fail(
                *wait_ms,
                op@,
                *code,
                *disposition,
            ),
        }
    }
}

/// After a failed attempt that may be repeated: again, unless it was the last one.
pub open spec fn again_or_exhausted(attempt: usize, op: Seq<char>) -> Outcome {
    if attempt + 1 < MAX_RETRIES {
        Outcome::Again(backoff_of(attempt as nat) as u64)
    } else {
        Outcome::Fail(
            backoff_of(attempt as nat) as u64,
            op,
            COORDINATOR_NOT_AVAILABLE,
            Disposition::Retry,
        )
    }
}

/// Tries again after a wait, unless this was the last attempt.
pub fn again(attempt: usize, op: &'static str) -> (verdict: Verdict)
    ensures
        verdict@ == again_or_exhausted(attempt, op@),
{
    proof {
        law_backoff_grows_to_a_cap(attempt as nat);
    }
    if attempt < MAX_RETRIES - 1 {
        Verdict::Again { wait_ms: backoff_ms(attempt) }
    } else {
        Verdict::Fail {
            wait_ms: backoff_ms(attempt),
            op,
            code: COORDINATOR_NOT_AVAILABLE,
            disposition: Disposition::Retry,
        }
    }
}

/// What to do about a coordinator's answer: a coordinator that moved is found again,
/// not asked again, since it will never answer.
pub open spec fn coordinator_outcome(
    attempt: usize,
    op: Seq<char>,
    code: i16,
    disposition: Disposition,
) -> Outcome {
    if code == 0 {
        Outcome::Done
    } else if disposition == Disposition::Retry || disposition == Disposition::FindCoordinator {
        again_or_exhausted(attempt, op)
    } else {
        Outcome::Fail(0, op, code, disposition)
    }
}

/// What to do about a coordinator's answer. The caller forgets the coordinator where
/// the disposition says that it moved.
pub fn coordinator_verdict(
    attempt: usize,
    op: &'static str,
    code: i16,
    disposition: Disposition,
) -> (verdict: Verdict)
    ensures
        verdict@ == coordinator_outcome(attempt, op@, code, disposition),
{
    if code == 0 {
        return Verdict::Done;
    }
    match disposition {
        Disposition::Retry | Disposition::FindCoordinator => again(attempt, op),
        _ => Verdict::Fail { wait_ms: 0, op, code, disposition },
    }
}

/// The next request of a group coordinator call.
#[derive(Debug)]
pub enum GroupStep {
    /// Find the group's coordinator.
    Find,
    /// Send the request to this address.
    Send(String),
}

/// A request to a group's coordinator, which is found first and found again when it
/// moved.
///
/// It is apart from a transaction's coordinator: that one would refuse a group's
/// request forever.
#[derive(Debug)]
pub struct GroupCall {
    addr: Option<String>,
    attempt: usize,
}

/// What a [`GroupCall`] stands for.
pub ghost struct Call {
    pub addr: Option<Seq<char>>,
    pub attempt: usize,
}

impl View for GroupCall {
    type V = Call;

    closed spec fn view(&self) -> Call {
        Call {
            addr: match self.addr {
                Some(a) => Some(a@),
                None => None,
            },
            attempt: self.attempt,
        }
    }
}

impl Call {
    /// After an answer to the search for the coordinator.
    pub open spec fn after_search(
        self,
        code: i16,
        disposition: Disposition,
        host: Seq<char>,
        port: i32,
    ) -> (Call, Outcome) {
        if code == 0 {
            (
                Call { addr: Some(client::address_of(host, port as int)), ..self },
                Outcome::Done,
            )
        } else if disposition == Disposition::Retry || disposition == Disposition::FindCoordinator {
            (
                Call { attempt: (self.attempt + 1) as usize, ..self },
                again_or_exhausted(self.attempt, "TxnOffsetCommit"@),
            )
        } else {
            (self, Outcome::Fail(0, "FindCoordinator"@, code, disposition))
        }
    }

    /// After an answer to the request.
    pub open spec fn after_answer(self, code: i16, disposition: Disposition) -> (Call, Outcome) {
        if code == 0 {
            (self, Outcome::Done)
        } else if disposition == Disposition::Retry {
            (
                Call { attempt: (self.attempt + 1) as usize, ..self },
                again_or_exhausted(self.attempt, "TxnOffsetCommit"@),
            )
        } else if disposition == Disposition::FindCoordinator {
            (
                Call { attempt: (self.attempt + 1) as usize, addr: None },
                again_or_exhausted(self.attempt, "TxnOffsetCommit"@),
            )
        } else {
            (self, Outcome::Fail(0, "TxnOffsetCommit"@, code, disposition))
        }
    }
}

impl GroupCall {
    /// A call that has not found its coordinator yet.
    pub fn new() -> (call: Self)
        ensures
            call@ == (Call { addr: None, attempt: 0 }),
    {
        GroupCall { addr: None, attempt: 0 }
    }

    /// What to send now.
    pub fn next(&self) -> (step: GroupStep)
        ensures
            match step {
                GroupStep::Find => self@.addr is None,
                GroupStep::Send(addr) => self@.addr == Some(addr@),
            },
    {
        match &self.addr {
            Some(addr) => GroupStep::Send(addr.clone()),
            None => GroupStep::Find,
        }
    }

    /// Takes the answer to the search for the coordinator. `Done` says that it is
    /// known now, and the request can be sent.
    pub fn on_found(
        &mut self,
        code: i16,
        disposition: Disposition,
        host: &str,
        port: i32,
    ) -> (verdict: Verdict)
        requires
            old(self)@.attempt < MAX_RETRIES,
        ensures
            (final(self)@, verdict@) == old(self)@.after_search(code, disposition, host@, port),
    {
        if code == 0 {
            self.addr = Some(client::address(host, port));
            return Verdict::Done;
        }
        match disposition {
            Disposition::Retry | Disposition::FindCoordinator => {
                let attempt: usize = self.attempt;
                self.attempt = attempt + 1;
                again(attempt, "TxnOffsetCommit")
            },
            _ => Verdict::Fail { wait_ms: 0, op: "FindCoordinator", code, disposition },
        }
    }

    /// Takes the answer to the request.
    pub fn on_answer(&mut self, code: i16, disposition: Disposition) -> (verdict: Verdict)
        requires
            old(self)@.attempt < MAX_RETRIES,
        ensures
            (final(self)@, verdict@) == old(self)@.after_answer(code, disposition),
    {
        if code == 0 {
            return Verdict::Done;
        }
        match disposition {
            Disposition::Retry => {
                let attempt: usize = self.attempt;
                self.attempt = attempt + 1;
                again(attempt, "TxnOffsetCommit")
            },
            Disposition::FindCoordinator => {
                let attempt: usize = self.attempt;
                self.attempt = attempt + 1;
                self.addr = None;
                again(attempt, "TxnOffsetCommit")
            },
            _ => Verdict::Fail { wait_ms: 0, op: "TxnOffsetCommit", code, disposition },
        }
    }
}

/// A moved coordinator is found again before anything is sent to it, and a retry in
/// place keeps asking the same one.
pub proof fn law_a_moved_coordinator_is_rediscovered(call: Call, code: i16)
    requires
        code != 0,
    ensures
        call.after_answer(code, Disposition::FindCoordinator).0.addr is None,
        call.after_answer(code, Disposition::Retry).0.addr == call.addr,
{
}

/// Waits start at five milliseconds and double with each attempt, up to a quarter of a
/// second.
pub proof fn law_each_wait_is_twice_the_last(attempt: nat)
    ensures
        backoff_of(0) == 5,
        2 * backoff_of(attempt) <= 250 ==> backoff_of(attempt + 1) == 2 * backoff_of(attempt),
        2 * backoff_of(attempt) > 250 ==> backoff_of(attempt + 1) == 250,
{
    vstd::arithmetic::power2::lemma2_to64();
    vstd::arithmetic::power2::lemma_pow2_unfold(attempt + 1);
    if attempt >= 16 {
        assert(backoff_of(attempt) == 250);
    } else if attempt >= 6 {
        law_backoff_grows_to_a_cap(attempt);
        law_backoff_grows_to_a_cap(attempt + 1);
    }
}

/// Forty attempts are made, and no more: every one but the last is followed by a wait and
/// another, and the last by the report that no coordinator is available.
pub proof fn law_forty_attempts_are_made(attempt: usize, op: Seq<char>)
    requires
        attempt < 40,
    ensures
        attempt < 39 ==> again_or_exhausted(attempt, op) == Outcome::Again(
            backoff_of(attempt as nat) as u64,
        ),
        attempt == 39 ==> again_or_exhausted(attempt, op) == Outcome::Fail(
            250,
            op,
            15,
            Disposition::Retry,
        ),
        MAX_RETRIES == 40,
{
    law_backoff_grows_to_a_cap(attempt as nat);
    law_backoff_grows_to_a_cap((attempt + 1) as nat);
}

/// What a coordinator's answer leads to: no error is done, what passes or moved is tried
/// again, and anything else fails at once, with its own code.
pub proof fn law_only_what_can_pass_is_tried_again(
    attempt: usize,
    op: Seq<char>,
    code: i16,
    disposition: Disposition,
)
    ensures
        code == 0 ==> coordinator_outcome(attempt, op, code, disposition) == Outcome::Done,
        code != 0 && (disposition == Disposition::Retry || disposition
            == Disposition::FindCoordinator) ==> coordinator_outcome(attempt, op, code, disposition)
            == again_or_exhausted(attempt, op),
        code != 0 && disposition != Disposition::Retry && disposition
            != Disposition::FindCoordinator ==> coordinator_outcome(attempt, op, code, disposition)
            == Outcome::Fail(0, op, code, disposition),
{
}

/// A call to a group's coordinator finds it first, keeps its address while answers are
/// fine, counts every attempt that may be repeated, and reports any other error as what it
/// is: an error of the search, or of the commit.
pub proof fn law_a_call_finds_its_coordinator(
    call: Call,
    code: i16,
    disposition: Disposition,
    host: Seq<char>,
    port: i32,
)
    requires
        call.attempt < 40,
    ensures
        ({
            let (found, told) = call.after_search(code, disposition, host, port);
            let (after, said) = call.after_answer(code, disposition);
            let again = disposition == Disposition::Retry || disposition
                == Disposition::FindCoordinator;
            &&& code == 0 ==> found == (Call {
                addr: Some(client::address_of(host, port as int)),
                attempt: call.attempt,
            }) && told == Outcome::Done && after == call && said == Outcome::Done
            &&& code != 0 && again ==> {
                &&& found.attempt == call.attempt + 1
                &&& found.addr == call.addr
                &&& after.attempt == call.attempt + 1
                &&& told == again_or_exhausted(call.attempt, "TxnOffsetCommit"@)
                &&& said == again_or_exhausted(call.attempt, "TxnOffsetCommit"@)
                &&& after.addr == if disposition == Disposition::FindCoordinator {
                    None
                } else {
                    call.addr
                }
            }
            &&& code != 0 && !again ==> {
                &&& found == call
                &&& after == call
                &&& told == Outcome::Fail(0, "FindCoordinator"@, code, disposition)
                &&& said == Outcome::Fail(0, "TxnOffsetCommit"@, code, disposition)
            }
        }),
{
}

} // verus!
