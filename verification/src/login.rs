//! Authenticating a connection: the handshake, then one exchange or two.
use crate::client::{Error, Fault};
use crate::names;
use crate::sasl;
use crate::sasl::{Credentials, SaslMechanism, ScramExchange};
use crate::text;
use vstd::prelude::*;
use vstd::string::StringExecFns;

verus! {

/// The names that a broker offers, with commas between them.
pub open spec fn listed(names: Seq<Seq<char>>, n: nat) -> Seq<char>
    decreases n,
{
    if n == 0 {
        Seq::empty()
    } else if n == 1 {
        names[0]
    } else {
        listed(names, (n - 1) as nat) + ", "@ + names[n - 1]
    }
}

/// Why a broker's refusal of a mechanism ends authentication: what it refused, and what
/// it would take, which is the most useful thing to say.
pub open spec fn refusal(mechanism: SaslMechanism, offered: Seq<Seq<char>>) -> Seq<char> {
    "broker rejected mechanism "@ + sasl::mechanism_name(mechanism) + "; it offers "@ + if offered.len()
        == 0 {
        "nothing"@
    } else {
        listed(offered, offered.len())
    }
}

/// Takes the answer to the handshake.
pub fn on_handshake(mechanism: SaslMechanism, code: i16, offered: &Vec<String>) -> (result: Result<
    (),
    Error,
>)
    ensures
        code == 0 ==> result is Ok,
        code != 0 ==> result is Err && result->Err_0@ == Fault::Sasl(
            refusal(mechanism, names::names_of(offered@)),
        ),
{
    if code == 0 {
        return Ok(());
    }
    let ghost all = names::names_of(offered@);
    let mut out: String = text::joined("broker rejected mechanism ", mechanism.as_str());
    out.append("; it offers ");
    let ghost head = out@;
    if offered.len() == 0 {
        out.append("nothing");
        return Err(Error::Sasl(out));
    }
    out.append(offered[0].as_str());
    let mut i: usize = 1;
    assert(all[0] == offered@[0]@);
    while i < offered.len()
        invariant
            code != 0,
            1 <= i <= offered@.len(),
            all == names::names_of(offered@),
            head == "broker rejected mechanism "@ + sasl::mechanism_name(mechanism)
                + "; it offers "@,
            out@ == head + listed(all, i as nat),
        decreases offered@.len() - i,
    {
        let ghost before = out@;
        out.append(", ");
        out.append(offered[i].as_str());
        proof {
            assert(all[i as int] == offered@[i as int]@);
            assert(out@ =~= head + listed(all, (i + 1) as nat));
        }
        i = i + 1;
    }
    Err(Error::Sasl(out))
}

/// Takes the code of an exchange's answer, with what the broker said about it.
pub fn on_exchange(code: i16, message: Option<String>) -> (result: Result<(), Error>)
    ensures
        code == 0 ==> result is Ok,
        code != 0 ==> result is Err && result->Err_0@ == Fault::Sasl(
            match message {
                Some(m) => m@,
                None => "authentication failed"@,
            },
        ),
{
    if code == 0 {
        return Ok(());
    }
    match message {
        Some(m) => Err(Error::Sasl(m)),
        None => Err(Error::Sasl("authentication failed".to_owned())),
    }
}

/// A nonce: three numbers in hexadecimal, one after the other. It must be fresh, and a
/// counter makes it so within a process; an address and the time tell processes apart.
pub fn nonce(counter: u64, address: u64, nanos: u64) -> (text: String)
    ensures
        text@ == text::hex(counter as nat) + text::hex(address as nat) + text::hex(nanos as nat),
{
    let mut out: String = String::new();
    text::push_hex(&mut out, counter);
    text::push_hex(&mut out, address);
    text::push_hex(&mut out, nanos);
    assert(out@ =~= text::hex(counter as nat) + text::hex(address as nat) + text::hex(
        nanos as nat,
    ));
    out
}

/// How far authentication has come.
pub enum Login {
    /// One message was sent, and its acceptance is all there is.
    Plain,
    /// The client's first message was sent.
    First(ScramExchange),
    /// The client's final message was sent, and the server's must verify.
    Last(ScramExchange),
    /// The server proved that it knows the password, or was not asked to.
    Done,
}

/// What a [`Login`] stands for.
pub ghost enum Stage {
    Plain,
    First(sasl::Exchange),
    Last(sasl::Exchange),
    Done,
}

impl View for Login {
    type V = Stage;

    open spec fn view(&self) -> Stage {
        match self {
            Login::Plain => Stage::Plain,
            Login::First(e) => Stage::First(e@),
            Login::Last(e) => Stage::Last(e@),
            Login::Done => Stage::Done,
        }
    }
}

impl Stage {
    /// After the server's answer: the next stage and what to send, nothing where
    /// authentication is complete, or why it failed.
    pub open spec fn next(self, answer: Seq<u8>) -> Result<(Stage, Option<Seq<u8>>), Seq<char>> {
        match self {
            Stage::Plain => Ok((Stage::Done, None)),
            Stage::Done => Ok((Stage::Done, None)),
            Stage::First(e) => match e.challenged(answer) {
                Err(fault) => Err(fault.words()),
                Ok(c) => {
                    let said = sasl::text_of(answer)->Ok_0;
                    Ok(
                        (
                            Stage::Last(
                                sasl::Exchange { signature: e.signature_of(said, c), ..e },
                            ),
                            Some(
                                names::utf8(
                                    sasl::final_bare(c.nonce) + ",p="@ + crate::base64::encoded(
                                        e.proof_of(said, c),
                                    ),
                                ),
                            ),
                        ),
                    )
                },
            },
            Stage::Last(e) => match e.verdict(answer) {
                Err(fault) => Err(fault.words()),
                Ok(()) => Ok((Stage::Done, None)),
            },
        }
    }
}

impl Login {
    /// Begins, with the first message to send. `nonce` must be fresh.
    pub fn start(credentials: &Credentials, nonce: &str) -> (started: (Self, Vec<u8>))
        ensures
            match credentials.mechanism {
                SaslMechanism::Plain => started.0@ == Stage::Plain && started.1@ == seq![0u8]
                    + names::utf8(credentials.username@) + seq![0u8] + names::utf8(
                    credentials.password@,
                ),
                _ => {
                    let bare = sasl::first_bare(credentials.username@, nonce@);
                    started.0@ == Stage::First(
                        sasl::Exchange {
                            mechanism: credentials.mechanism,
                            password: credentials.password@,
                            nonce: nonce@,
                            bare,
                            signature: Seq::empty(),
                        },
                    ) && started.1@ == names::utf8("n,,"@ + bare)
                },
            },
    {
        match credentials.mechanism {
            SaslMechanism::Plain => (Login::Plain, sasl::plain_message(credentials)),
            _ => {
                let (exchange, message) = ScramExchange::start(credentials, nonce);
                (Login::First(exchange), message)
            },
        }
    }

    /// Takes the server's answer: the next stage and what to send, or nothing where
    /// authentication is complete.
    pub fn on_answer(self, answer: &[u8]) -> (next: Result<(Self, Option<Vec<u8>>), Error>)
        ensures
            match self@.next(answer@) {
                Err(words) => next is Err && next->Err_0@ == Fault::Sasl(words),
                Ok((stage, message)) => {
                    &&& next matches Ok((login, out))
                    &&& login@ == stage
                    &&& message == match out {
                        Some(bytes) => Some(bytes@),
                        None => None,
                    }
                },
            },
    {
        match self {
            Login::Plain | Login::Done => Ok((Login::Done, None)),
            Login::First(mut exchange) => match exchange.client_final(answer) {
                Ok(message) => Ok((Login::Last(exchange), Some(message))),
                Err(e) => Err(Error::Sasl(e.message())),
            },
            Login::Last(exchange) => match exchange.verify(answer) {
                Ok(()) => Ok((Login::Done, None)),
                Err(e) => Err(Error::Sasl(e.message())),
            },
        }
    }
}

/// A challenge-and-response login is complete only once the server's signature verified:
/// skipping it would authenticate to anyone.
pub proof fn law_login_needs_the_servers_proof(e: sasl::Exchange, answer: Seq<u8>)
    ensures
        Stage::First(e).next(answer) matches Ok((stage, _)) ==> stage is Last,
        Stage::Last(e).next(answer) matches Ok((stage, _)) ==> stage is Done && e.verdict(answer)
            is Ok,
{
}

/// How a login goes. The one message of a login in the clear is all there is to it. Of the
/// other kind the first answer must be a challenge, and is answered with the proof, under
/// the nonce of both; what the server's last answer is then held against is the signature
/// that this challenge makes it owe. A failure says in words what is wrong.
pub proof fn law_a_challenge_is_answered_with_the_proof(e: sasl::Exchange, answer: Seq<u8>)
    ensures
        Stage::Plain.next(answer) == Ok::<(Stage, Option<Seq<u8>>), Seq<char>>((Stage::Done, None)),
        e.challenged(answer) matches Err(fault) ==> Stage::First(e).next(answer) == Err::<
            (Stage, Option<Seq<u8>>),
            Seq<char>,
        >(fault.words()),
        e.challenged(answer) matches Ok(c) ==> {
            let said = vstd::utf8::decode_utf8(answer);
            &&& Stage::First(e).next(answer) matches Ok((Stage::Last(after), Some(message)))
            &&& after.signature == e.signature_of(said, c)
            &&& after.mechanism == e.mechanism
            &&& after.password == e.password
            &&& message == names::utf8(
                "c=biws,r="@ + c.nonce + ",p="@ + crate::base64::encoded(e.proof_of(said, c)),
            )
        },
        e.verdict(answer) matches Err(fault) ==> Stage::Last(e).next(answer) == Err::<
            (Stage, Option<Seq<u8>>),
            Seq<char>,
        >(fault.words()),
{
}

} // verus!
