//! What a client reports, and what a broker's error code asks it to do.
use crate::error;
use crate::producer;
use crate::producer::ProducerError;
use crate::text;
use vstd::prelude::*;

verus! {

/// What a client does about an error code.
#[derive(Debug, Clone, Copy, PartialEq, Eq, Structural)]
pub enum Disposition {
    /// Nothing is wrong.
    Success,
    /// Ask the same broker again.
    Retry,
    /// The leader moved: refresh the cluster map first.
    RefreshMetadata,
    /// The coordinator moved: find it again.
    FindCoordinator,
    /// Nothing will make this work.
    Fatal,
}

/// The code of a coordinator that is not available, which is how a coordinator that
/// never settles is reported.
pub const COORDINATOR_NOT_AVAILABLE: i16 = 15;

/// A failure of the client's logic.
#[derive(Debug)]
pub enum Error {
    /// The bytes of a batch or a message are wrong.
    Core(error::Error),
    /// A broker's error code, and what to do about it.
    Broker { op: &'static str, code: i16, disposition: Disposition },
    /// The partition has no leader even after a metadata refresh, as during an
    /// election.
    NoLeader { topic: String, partition: i32 },
    /// A misuse of the producer.
    Producer(ProducerError),
    /// Authentication failed, or the broker does not offer the mechanism.
    Sasl(String),
    /// Something that the broker's response, or the producer, does not have.
    Missing(&'static str),
    /// A request was made on a connection with requests outstanding, whose answers
    /// would have been taken for its own.
    ConnectionBusy { addr: String, in_flight: usize },
}

/// What an [`Error`] stands for.
pub ghost enum Fault {
    Core(error::Flaw),
    Broker(Seq<char>, i16, Disposition),
    NoLeader(Seq<char>, i32),
    Producer(producer::Misuse),
    Sasl(Seq<char>),
    Missing(Seq<char>),
    ConnectionBusy(Seq<char>, usize),
}

impl View for Error {
    type V = Fault;

    open spec fn view(&self) -> Fault {
        match self {
            Error::Core(e) => Fault::Core(e@),
            Error::Broker { op, code, disposition } => Fault::Broker(op@, *code, *disposition),
            Error::NoLeader { topic, partition } => Fault::NoLeader(topic@, *partition),
            Error::Producer(e) => Fault::Producer(e@),
            Error::Sasl(text) => Fault::Sasl(text@),
            Error::Missing(what) => Fault::Missing(what@),
            Error::ConnectionBusy { addr, in_flight } => Fault::ConnectionBusy(addr@, *in_flight),
        }
    }
}

/// What a broker's code asks for. A topic that is not known yet, or a partition whose
/// leader moved, asks for metadata; a coordinator that moved is found again; what passes
/// by itself is waited out; and what nothing mends is the end.
pub open spec fn asks_for(code: i16) -> Disposition {
    if code == 0 {
        Disposition::Success
    } else if code == 3 || code == 5 || code == 6 {
        Disposition::RefreshMetadata
    } else if code == 15 || code == 16 {
        Disposition::FindCoordinator
    } else if code == 7 || code == 14 || code == 19 || code == 20 || code == 27 || code == 41
        || code == 51 {
        Disposition::Retry
    } else {
        Disposition::Fatal
    }
}

/// What a broker's code asks for.
pub fn disposition(code: i16) -> (disposition: Disposition)
    ensures
        disposition == asks_for(code),
{
    match code {
        0 => Disposition::Success,
        3 | 5 | 6 => Disposition::RefreshMetadata,
        15 | 16 => Disposition::FindCoordinator,
        7 | 14 | 19 | 20 | 27 | 41 | 51 => Disposition::Retry,
        _ => Disposition::Fatal,
    }
}

/// Turns an error code into a result: zero is success.
pub fn check(op: &'static str, code: i16, disposition: Disposition) -> (result: Result<(), Error>)
    ensures
        code == 0 ==> result is Ok,
        code != 0 ==> result is Err && result->Err_0@ == Fault::Broker(op@, code, disposition),
{
    if code == 0 {
        Ok(())
    } else {
        Err(Error::Broker { op, code, disposition })
    }
}

/// The first code that is not zero, zero if there is none.
pub open spec fn first_failure(codes: Seq<i16>, n: nat) -> i16
    decreases n,
{
    if n == 0 {
        0
    } else if first_failure(codes, (n - 1) as nat) != 0 {
        first_failure(codes, (n - 1) as nat)
    } else {
        codes[n - 1]
    }
}

/// The code that decides over a response that has one per partition: the first that
/// is not zero, zero if there is none.
pub fn first_error(codes: &[i16]) -> (code: i16)
    ensures
        code == first_failure(codes@, codes@.len()),
{
    let mut code: i16 = 0;
    let mut i: usize = 0;
    while i < codes.len()
        invariant
            i <= codes@.len(),
            code == first_failure(codes@, i as nat),
        decreases codes@.len() - i,
    {
        if code == 0 {
            code = codes[i];
        }
        i = i + 1;
    }
    code
}

/// What an optional text stands for.
pub open spec fn optional_text(text: Option<String>) -> Option<Seq<char>> {
    match text {
        Some(t) => Some(t@),
        None => None,
    }
}

/// A broker's address.
pub open spec fn address_of(host: Seq<char>, port: int) -> Seq<char> {
    host + ":"@ + text::decimal(port)
}

/// A broker's address, `host:port`.
pub fn address(host: &str, port: i32) -> (addr: String)
    ensures
        addr@ == address_of(host@, port as int),
{
    let mut out: String = text::joined(host, ":");
    text::push_decimal(&mut out, port as i64);
    out
}

/// The first of the first `n` answers that is an error.
pub open spec fn first_refusal(answers: Seq<(i16, Disposition)>, n: nat) -> Option<int>
    decreases n,
{
    if n == 0 {
        None
    } else {
        match first_refusal(answers, (n - 1) as nat) {
            Some(i) => Some(i),
            None => if answers[n - 1].0 != 0 {
                Some(n - 1)
            } else {
                None
            },
        }
    }
}

pub proof fn lemma_refusal(answers: Seq<(i16, Disposition)>, n: nat, m: nat)
    requires
        n <= m,
        first_refusal(answers, n) is Some,
    ensures
        first_refusal(answers, m) == first_refusal(answers, n),
    decreases m,
{
    if n < m {
        lemma_refusal(answers, n, (m - 1) as nat);
    }
}

/// Turns an answer that has a code per partition into a result: the first code that is
/// not zero is the failure.
pub fn check_all(op: &'static str, answers: &[(i16, Disposition)]) -> (result: Result<(), Error>)
    ensures
        match first_refusal(answers@, answers@.len()) {
            None => result is Ok,
            Some(i) => result is Err && result->Err_0@ == Fault::Broker(
                op@,
                answers@[i].0,
                answers@[i].1,
            ),
        },
{
    let mut i: usize = 0;
    while i < answers.len()
        invariant
            i <= answers@.len(),
            first_refusal(answers@, i as nat) is None,
        decreases answers@.len() - i,
    {
        let (code, disposition) = answers[i];
        if code != 0 {
            proof {
                lemma_refusal(answers@, (i + 1) as nat, answers@.len());
            }
            return Err(Error::Broker { op, code, disposition });
        }
        i = i + 1;
    }
    Ok(())
}

/// Which codes ask for what: no other code is taken for success, none but those of a
/// topic or leader that is not known here ask for metadata, none but those of a
/// coordinator that is elsewhere have it found again, none but those of a state that
/// passes are tried again, and everything else is the end.
pub proof fn law_every_code_asks_for_one_thing(code: i16)
    ensures
        asks_for(code) == Disposition::Success <==> code == 0,
        asks_for(code) == Disposition::RefreshMetadata <==> set![3i16, 5i16, 6i16].contains(code),
        asks_for(code) == Disposition::FindCoordinator <==> set![15i16, 16i16].contains(code),
        asks_for(code) == Disposition::Retry <==> set![
            7i16,
            14i16,
            19i16,
            20i16,
            27i16,
            41i16,
            51i16,
        ].contains(code),
{
}

/// The code that decides over several is the first that is not zero: those before it are
/// zero, and it is zero only where all of them are.
pub proof fn law_the_first_error_decides(codes: Seq<i16>, n: nat)
    requires
        n <= codes.len(),
    ensures
        first_failure(codes, n) == 0 <==> forall|i: int| 0 <= i < n ==> (#[trigger] codes[i]) == 0,
        forall|i: int|
            0 <= i < n && (#[trigger] codes[i]) != 0 && (forall|j: int|
                0 <= j < i ==> (#[trigger] codes[j]) == 0) ==> first_failure(codes, n) == codes[i],
    decreases n,
{
    if n > 0 {
        law_the_first_error_decides(codes, (n - 1) as nat);
        assert(codes[n - 1] == codes[n - 1]);
    }
}

/// The same of answers that say what to do about each code.
pub proof fn law_the_first_refusal_decides(answers: Seq<(i16, Disposition)>, n: nat)
    requires
        n <= answers.len(),
    ensures
        first_refusal(answers, n) is None <==> forall|i: int|
            0 <= i < n ==> (#[trigger] answers[i]).0 == 0,
        forall|i: int|
            0 <= i < n && (#[trigger] answers[i]).0 != 0 && (forall|j: int|
                0 <= j < i ==> (#[trigger] answers[j]).0 == 0) ==> first_refusal(answers, n) == Some(
                i,
            ),
    decreases n,
{
    if n > 0 {
        law_the_first_refusal_decides(answers, (n - 1) as nat);
        assert(answers[n - 1] == answers[n - 1]);
    }
}

} // verus!
