//! Which broker to use, which version to speak, and when a connection is at its end.
use crate::client::{Disposition, Error, Fault};
use vstd::prelude::*;
use vstd::string::StrSliceExecFns;

verus! {

/// The versions that a broker speaks, per request kind.
#[derive(Debug)]
pub struct ApiVersions {
    /// The kind, and its lowest and highest version. The last entry for a kind counts.
    entries: Vec<(i16, i16, i16)>,
}

/// The range that the first `n` entries give a kind.
pub open spec fn range_for(entries: Seq<(i16, i16, i16)>, kind: i16, n: nat) -> Option<(i16, i16)>
    decreases n,
{
    if n == 0 {
        None
    } else if entries[n - 1].0 == kind {
        Some((entries[n - 1].1, entries[n - 1].2))
    } else {
        range_for(entries, kind, (n - 1) as nat)
    }
}

impl View for ApiVersions {
    type V = Seq<(i16, i16, i16)>;

    closed spec fn view(&self) -> Seq<(i16, i16, i16)> {
        self.entries@
    }
}

/// The version to send: the preferred one, moved into what the broker speaks.
pub open spec fn version_for(range: Option<(i16, i16)>, preferred: i16) -> i16 {
    match range {
        None => preferred,
        Some((min, max)) => if preferred < min {
            min
        } else if preferred > max {
            max
        } else {
            preferred
        },
    }
}

impl ApiVersions {
    /// What a broker said it speaks.
    pub fn new(entries: Vec<(i16, i16, i16)>) -> (versions: Self)
        ensures
            versions@ == entries@,
    {
        ApiVersions { entries }
    }

    /// The version to send of a request, given the one this client prefers. A kind that
    /// the broker did not mention is sent as preferred.
    pub fn negotiated(&self, kind: i16, preferred: i16) -> (version: i16)
        requires
            range_for(self@, kind, self@.len()) matches Some((min, max)) ==> min <= max,
        ensures
            version == version_for(range_for(self@, kind, self@.len()), preferred),
            range_for(self@, kind, self@.len()) matches Some((min, max)) ==> min <= version <= max,
    {
        let mut i: usize = self.entries.len();
        while i > 0
            invariant
                i <= self.entries@.len(),
                range_for(self@, kind, self@.len()) matches Some((min, max)) ==> min <= max,
                range_for(self@, kind, self@.len()) == range_for(self@, kind, i as nat),
            decreases i,
        {
            let (entry, min, max) = self.entries[i - 1];
            if entry == kind {
                return if preferred < min {
                    min
                } else if preferred > max {
                    max
                } else {
                    preferred
                };
            }
            i = i - 1;
        }
        preferred
    }
}

/// The smallest read: enough that a frame's length is not a read of its own.
pub const MIN_READ: usize = 16384;

/// The largest read, which bounds a connection's buffer.
pub const MAX_READ: usize = 1_048_576;

/// How much to read, given how much of a frame is still to come.
pub fn read_size(needed: usize) -> (want: usize)
    ensures
        want == if needed < MIN_READ {
            MIN_READ
        } else if needed > MAX_READ {
            MAX_READ
        } else {
            needed
        },
        16384 <= want <= 1_048_576,
        16384 <= needed <= 1_048_576 ==> want == needed,
        needed < 16384 ==> want == 16384,
        needed > 1_048_576 ==> want == 1_048_576,
{
    if needed < MIN_READ {
        MIN_READ
    } else if needed > MAX_READ {
        MAX_READ
    } else {
        needed
    }
}

/// How a request on a connection ended.
#[derive(Debug, Clone, Copy, PartialEq, Eq, Structural)]
pub enum CallEnd {
    Answered,
    /// The connection broke.
    Broken,
    /// Nothing came before the deadline.
    TimedOut,
    /// It failed in another way, with the answer read.
    Refused,
}

/// What follows.
#[derive(Debug, Clone, Copy, PartialEq, Eq, Structural)]
pub struct AfterCall {
    /// Whether the connection is dropped: a broken one is dead, and on one that timed out
    /// a late answer would be taken for the next request's.
    pub drop: bool,
    /// Whether to connect and send once more.
    pub again: bool,
}

/// Decides over a request that was sent on a pooled connection. A broken connection is
/// tried again once: the pool only finds out by using it, and a second failure is the
/// peer's.
pub fn after_call(attempt: usize, end: CallEnd) -> (after: AfterCall)
    ensures
        after.drop == (end == CallEnd::Broken || end == CallEnd::TimedOut),
        after.again == (end == CallEnd::Broken && attempt == 0),
{
    match end {
        CallEnd::Answered | CallEnd::Refused => AfterCall { drop: false, again: false },
        CallEnd::Broken => AfterCall { drop: true, again: attempt == 0 },
        CallEnd::TimedOut => AfterCall { drop: true, again: false },
    }
}

/// Refuses a request on a connection with others outstanding: brokers answer in order,
/// so it would read someone else's answer.
pub fn check_idle(addr: &str, in_flight: usize) -> (result: Result<(), Error>)
    ensures
        in_flight == 0 ==> result is Ok,
        in_flight != 0 ==> result is Err && result->Err_0@ == Fault::ConnectionBusy(
            addr@,
            in_flight,
        ),
{
    if in_flight == 0 {
        Ok(())
    } else {
        Err(Error::ConnectionBusy { addr: addr.to_owned(), in_flight })
    }
}

/// The first of the first `n` topics whose code is a failure. One that says "not yet" is
/// none: a topic that is being created reports that until it exists.
pub open spec fn failed_topic(topics: Seq<(i16, Disposition)>, n: nat) -> Option<int>
    decreases n,
{
    if n == 0 {
        None
    } else {
        match failed_topic(topics, (n - 1) as nat) {
            Some(i) => Some(i),
            None => if topics[n - 1].0 != 0 && topics[n - 1].1 != Disposition::RefreshMetadata {
                Some(n - 1)
            } else {
                None
            },
        }
    }
}

proof fn lemma_failed_stays(topics: Seq<(i16, Disposition)>, n: nat, m: nat)
    requires
        n <= m,
        failed_topic(topics, n) is Some,
    ensures
        failed_topic(topics, m) == failed_topic(topics, n),
    decreases m,
{
    if n < m {
        lemma_failed_stays(topics, n, (m - 1) as nat);
    }
}

/// Whether an answer to a metadata request can be taken in.
pub fn check_metadata(topics: &[(i16, Disposition)]) -> (result: Result<(), Error>)
    ensures
        match failed_topic(topics@, topics@.len()) {
            None => result is Ok,
            Some(i) => result is Err && result->Err_0@ == Fault::Broker(
                "Metadata"@,
                topics@[i].0,
                topics@[i].1,
            ),
        },
{
    let mut i: usize = 0;
    while i < topics.len()
        invariant
            i <= topics@.len(),
            failed_topic(topics@, i as nat) is None,
        decreases topics@.len() - i,
    {
        let (code, disposition) = topics[i];
        if code != 0 && disposition != Disposition::RefreshMetadata {
            proof {
                lemma_failed_stays(topics@, (i + 1) as nat, topics@.len());
            }
            return Err(Error::Broker { op: "Metadata", code, disposition });
        }
        i = i + 1;
    }
    Ok(())
}

/// A partition's leader, given what the cluster map says after a refresh.
pub fn leader(topic: &str, partition: i32, addr: Option<String>) -> (result: Result<String, Error>)
    ensures
        match addr {
            Some(a) => result matches Ok(r) && r@ == a@,
            None => result is Err && result->Err_0@ == Fault::NoLeader(topic@, partition),
        },
{
    match addr {
        Some(addr) => Ok(addr),
        None => Err(Error::NoLeader { topic: topic.to_owned(), partition }),
    }
}

/// A topic's partition count, given what the cluster map says after a refresh.
pub fn partition_count(topic: &str, count: i32) -> (result: Result<i32, Error>)
    ensures
        count != 0 ==> (result matches Ok(n) && n == count),
        count == 0 ==> result is Err && result->Err_0@ == Fault::NoLeader(topic@, -1i32),
{
    if count == 0 {
        Err(Error::NoLeader { topic: topic.to_owned(), partition: -1 })
    } else {
        Ok(count)
    }
}

/// The controller's address, given what the cluster map says after a refresh.
pub fn controller(addr: Option<String>) -> (result: Result<String, Error>)
    ensures
        match addr {
            Some(a) => result matches Ok(r) && r@ == a@,
            None => result is Err && result->Err_0@ == Fault::Missing("a controller"@),
        },
{
    match addr {
        Some(addr) => Ok(addr),
        None => Err(Error::Missing("a controller")),
    }
}

/// Where the last colon of the first `n` characters stands.
pub open spec fn last_colon(text: Seq<char>, n: nat) -> Option<nat>
    decreases n,
{
    if n == 0 {
        None
    } else if text[n - 1] == ':' {
        Some((n - 1) as nat)
    } else {
        last_colon(text, (n - 1) as nat)
    }
}

/// The host of an address: what stands before its last colon, all of it where there is
/// none. A certificate is verified against the host that the caller named, not against
/// what it resolved to.
pub fn host(addr: &str) -> (host: String)
    ensures
        host@ == match last_colon(addr@, addr@.len()) {
            Some(i) => addr@.subrange(0, i as int),
            None => addr@,
        },
{
    let size: usize = addr.unicode_len();
    let mut i: usize = size;
    while i > 0
        invariant
            i <= size == addr@.len(),
            last_colon(addr@, addr@.len()) == last_colon(addr@, i as nat),
        decreases i,
    {
        if addr.get_char(i - 1) == ':' {
            return addr.substring_char(0, i - 1).to_owned();
        }
        i = i - 1;
    }
    addr.to_owned()
}

/// The version that is sent is one that the broker speaks, and the preferred one wherever
/// the broker speaks it; to a broker that said nothing of the request it is the preferred
/// one. Where a broker lists a request twice, the last entry counts.
pub proof fn law_a_version_is_one_that_both_speak(
    entries: Seq<(i16, i16, i16)>,
    kind: i16,
    n: nat,
    preferred: i16,
)
    requires
        n <= entries.len(),
    ensures
        forall|i: int|
            0 <= i < n && (#[trigger] entries[i]).0 == kind && (forall|j: int|
                i < j < n ==> (#[trigger] entries[j]).0 != kind) ==> range_for(entries, kind, n)
                == Some((entries[i].1, entries[i].2)),
        range_for(entries, kind, n) is None <==> forall|i: int|
            0 <= i < n ==> (#[trigger] entries[i]).0 != kind,
        version_for(None, preferred) == preferred,
        forall|min: i16, max: i16|
            min <= max ==> {
                let version = #[trigger] version_for(Some((min, max)), preferred);
                &&& min <= version <= max
                &&& min <= preferred <= max ==> version == preferred
                &&& preferred < min ==> version == min
                &&& preferred > max ==> version == max
            },
    decreases n,
{
    if n > 0 {
        law_a_version_is_one_that_both_speak(entries, kind, (n - 1) as nat, preferred);
        assert(entries[n - 1] == entries[n - 1]);
    }
}

/// A metadata answer is refused for its first topic that failed, and a topic that is not
/// there yet is no failure.
pub proof fn law_a_topic_being_created_is_no_failure(topics: Seq<(i16, Disposition)>, n: nat)
    requires
        n <= topics.len(),
    ensures
        failed_topic(topics, n) is None <==> forall|i: int|
            0 <= i < n ==> (#[trigger] topics[i]).0 == 0 || topics[i].1
                == Disposition::RefreshMetadata,
        forall|i: int|
            0 <= i < n && (#[trigger] topics[i]).0 != 0 && topics[i].1
                != Disposition::RefreshMetadata && (forall|j: int|
                0 <= j < i ==> (#[trigger] topics[j]).0 == 0 || topics[j].1
                    == Disposition::RefreshMetadata) ==> failed_topic(topics, n) == Some(i),
    decreases n,
{
    if n > 0 {
        law_a_topic_being_created_is_no_failure(topics, (n - 1) as nat);
        assert(topics[n - 1] == topics[n - 1]);
    }
}

/// The last colon parts a host from its port: whatever the host holds, colons too, a text
/// without a colon behind one more colon is the port.
pub proof fn law_the_last_colon_parts_host_and_port(host: Seq<char>, port: Seq<char>)
    requires
        !port.contains(':'),
    ensures
        ({
            let addr = host + seq![':'] + port;
            &&& last_colon(addr, addr.len()) == Some(host.len())
            &&& addr.subrange(0, host.len() as int) == host
        }),
        !host.contains(':') ==> last_colon(host, host.len()) is None,
{
    let addr = host + seq![':'] + port;
    assert(addr[host.len() as int] == ':');
    assert forall|i: int| host.len() < i < addr.len() implies (#[trigger] addr[i]) != ':' by {
        assert(addr[i] == port[i - host.len() - 1]);
    }
    lemma_last_colon(addr, addr.len());
    lemma_last_colon(host, host.len());
    assert(addr.subrange(0, host.len() as int) =~= host);
}

proof fn lemma_last_colon(text: Seq<char>, n: nat)
    requires
        n <= text.len(),
    ensures
        match last_colon(text, n) {
            Some(i) => i < n && text[i as int] == ':' && forall|j: int|
                i < j < n ==> (#[trigger] text[j]) != ':',
            None => forall|j: int| 0 <= j < n ==> (#[trigger] text[j]) != ':',
        },
    decreases n,
{
    if n > 0 {
        lemma_last_colon(text, (n - 1) as nat);
    }
}

} // verus!
