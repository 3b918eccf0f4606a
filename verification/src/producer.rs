//! The idempotent, transactional producer's rules.
//!
//! A broker deduplicates by producer id, epoch, partition and sequence, which leaves
//! the client three obligations:
//!
//! 1. Sequences continue across transactions. They restart with a new identity and at
//!    no other time.
//! 2. A retry sends the same sequences again. [`ProducerState::allocate`] hands out a
//!    range that a retry replays.
//! 3. A sequence error is fatal: the stream is already wrong, and retrying is how
//!    duplicates get written.
use crate::slots::SlotMap;
use crate::text;
use vstd::prelude::*;
use vstd::string::StringExecFns;

verus! {

/// A producer's identity, as the coordinator issued it.
#[derive(Debug, Clone, Copy, PartialEq, Eq, Structural)]
pub struct ProducerIdentity {
    pub id: i64,
    pub epoch: i16,
}

/// Where a transactional producer is in its lifecycle.
#[derive(Debug, Clone, Copy, PartialEq, Eq, Structural)]
pub enum TxnState {
    /// No identity yet.
    Uninitialised,
    /// Initialised, no transaction open.
    Ready,
    /// Partitions may be enrolled and produced to.
    InTransaction,
    /// The end was sent, its outcome is not known yet.
    Ending,
    /// Fenced, or out of sequence. Nothing further is permitted.
    Fatal,
}

impl Default for TxnState {
    fn default() -> (state: Self)
        ensures
            state == TxnState::Uninitialised,
    {
        TxnState::Uninitialised
    }
}

/// A sequence range reserved for one batch, held by the caller across a retry.
#[derive(Debug, Clone, Copy, PartialEq, Eq, Structural)]
pub struct SequenceRange {
    pub base: i32,
    pub count: i32,
}

impl SequenceRange {
    /// One past the last sequence in this range.
    pub fn end(self) -> (end: i32)
        requires
            i32::MIN <= self.base + self.count <= i32::MAX,
        ensures
            end == self.base + self.count,
    {
        self.base + self.count
    }
}

/// What went wrong, in terms of what the caller did.
#[derive(Debug, PartialEq, Eq)]
pub enum ProducerError {
    Uninitialised,
    NoTransaction,
    TransactionAlreadyOpen,
    NotEnrolled { topic: String, partition: i32 },
    Fatal,
}

/// What a [`ProducerError`] stands for.
pub ghost enum Misuse {
    Uninitialised,
    NoTransaction,
    TransactionAlreadyOpen,
    NotEnrolled(Seq<char>, i32),
    Fatal,
}

impl View for ProducerError {
    type V = Misuse;

    open spec fn view(&self) -> Misuse {
        match self {
            ProducerError::Uninitialised => Misuse::Uninitialised,
            ProducerError::NoTransaction => Misuse::NoTransaction,
            ProducerError::TransactionAlreadyOpen => Misuse::TransactionAlreadyOpen,
            ProducerError::NotEnrolled { topic, partition } => Misuse::NotEnrolled(
                topic@,
                *partition,
            ),
            ProducerError::Fatal => Misuse::Fatal,
        }
    }
}

impl ProducerError {
    /// The error in words.
    pub open spec fn words(self) -> Seq<char> {
        match self {
            ProducerError::Uninitialised => "the producer is not initialised"@,
            ProducerError::NoTransaction => "no transaction is open"@,
            ProducerError::TransactionAlreadyOpen => "a transaction is already open"@,
            ProducerError::NotEnrolled { topic, partition } => topic@ + "-"@ + text::decimal(
                partition as int,
            ) + " was not added to the transaction"@,
            ProducerError::Fatal =>
                "the producer is fenced or out of sequence and must be re-initialised"@,
        }
    }

    /// The error in words.
    pub fn message(&self) -> (message: String)
        ensures
            message@ == self.words(),
    {
        match self {
            ProducerError::Uninitialised => "the producer is not initialised".to_owned(),
            ProducerError::NoTransaction => "no transaction is open".to_owned(),
            ProducerError::TransactionAlreadyOpen => "a transaction is already open".to_owned(),
            ProducerError::NotEnrolled { topic, partition } => {
                let mut out: String = text::joined(topic.as_str(), "-");
                text::push_decimal(&mut out, *partition as i64);
                out.append(" was not added to the transaction");
                out
            },
            ProducerError::Fatal =>
                "the producer is fenced or out of sequence and must be re-initialised".to_owned(),
        }
    }
}

/// The producer's rules, with no connection attached.
#[derive(Debug)]
pub struct ProducerState {
    identity: Option<ProducerIdentity>,
    txn: TxnState,
    sequences: SlotMap<i32>,
    enrolled: SlotMap<()>,
    transactional: bool,
}

/// What a [`ProducerState`] stands for.
pub ghost struct Sequencing {
    pub identity: Option<ProducerIdentity>,
    pub txn: TxnState,
    /// The next unused sequence of each partition that was ever produced to.
    pub sequences: Map<(Seq<char>, i32), i32>,
    /// The partitions that are part of the current transaction.
    pub enrolled: Set<(Seq<char>, i32)>,
    pub transactional: bool,
}

impl Sequencing {
    /// The next unused sequence of a partition.
    pub open spec fn next(self, slot: (Seq<char>, i32)) -> i32 {
        if self.sequences.dom().contains(slot) {
            self.sequences[slot]
        } else {
            0
        }
    }

    /// Why nothing is permitted, if that is so.
    pub open spec fn unusable(self) -> Option<ProducerError> {
        match self.txn {
            TxnState::Fatal => Some(ProducerError::Fatal),
            TxnState::Uninitialised => Some(ProducerError::Uninitialised),
            _ => None,
        }
    }

    /// Whether the state fits the identity: a producer has none before it is initialised,
    /// and has one from then on.
    pub open spec fn coherent(self) -> bool {
        match self.txn {
            TxnState::Uninitialised => self.identity is None,
            TxnState::Fatal => true,
            _ => self.identity is Some,
        }
    }
}

impl Sequencing {
    /// After the coordinator issued an identity: sequences restart unless it is the
    /// same one.
    pub open spec fn initialised(self, identity: ProducerIdentity) -> Sequencing {
        Sequencing {
            identity: Some(identity),
            txn: TxnState::Ready,
            sequences: if self.identity == Some(identity) {
                self.sequences
            } else {
                Map::empty()
            },
            enrolled: Set::empty(),
            transactional: self.transactional,
        }
    }

    /// Why no transaction can be opened, if that is so.
    pub open spec fn refuses_begin(self) -> Option<ProducerError> {
        match self.unusable() {
            Some(e) => Some(e),
            None => if self.txn == TxnState::Ready {
                None
            } else {
                Some(ProducerError::TransactionAlreadyOpen)
            },
        }
    }

    /// After an attempt to open a transaction.
    pub open spec fn begun(self) -> Sequencing {
        if self.refuses_begin() is None {
            Sequencing { txn: TxnState::InTransaction, enrolled: Set::empty(), ..self }
        } else {
            self
        }
    }

    /// After a partition was added to the transaction.
    pub open spec fn enrolling(self, slot: (Seq<char>, i32)) -> Sequencing {
        Sequencing { enrolled: self.enrolled.insert(slot), ..self }
    }

    /// Whether a batch may be produced to a partition.
    pub open spec fn may_produce(self, slot: (Seq<char>, i32)) -> bool {
        self.unusable() is None && (self.transactional ==> self.txn == TxnState::InTransaction
            && self.enrolled.contains(slot))
    }

    /// Why no batch may be produced to a partition, if that is so.
    pub open spec fn refuses_batch(self, slot: (Seq<char>, i32)) -> Option<Misuse> {
        match self.unusable() {
            Some(e) => Some(e@),
            None => if self.transactional && self.txn != TxnState::InTransaction {
                Some(Misuse::NoTransaction)
            } else if self.transactional && !self.enrolled.contains(slot) {
                Some(Misuse::NotEnrolled(slot.0, slot.1))
            } else {
                None
            },
        }
    }

    /// After an attempt to reserve sequences.
    pub open spec fn allocated(self, slot: (Seq<char>, i32), count: i32) -> Sequencing {
        if self.may_produce(slot) {
            Sequencing {
                sequences: self.sequences.insert(slot, (self.next(slot) + count) as i32),
                ..self
            }
        } else {
            self
        }
    }

    /// Why the transaction cannot be ended, if that is so.
    pub open spec fn refuses_end(self) -> Option<ProducerError> {
        match self.unusable() {
            Some(e) => Some(e),
            None => if self.txn == TxnState::InTransaction {
                None
            } else {
                Some(ProducerError::NoTransaction)
            },
        }
    }

    /// After an attempt to end the transaction.
    pub open spec fn ending(self) -> Sequencing {
        if self.refuses_end() is None {
            Sequencing { txn: TxnState::Ending, ..self }
        } else {
            self
        }
    }

    /// After the end of the transaction was acknowledged.
    pub open spec fn ended(self) -> Sequencing {
        if self.txn == TxnState::Ending {
            Sequencing { txn: TxnState::Ready, enrolled: Set::empty(), ..self }
        } else {
            self
        }
    }

    /// After the producer was fenced.
    pub open spec fn fenced(self) -> Sequencing {
        Sequencing { txn: TxnState::Fatal, ..self }
    }
}

impl View for ProducerState {
    type V = Sequencing;

    closed spec fn view(&self) -> Sequencing {
        Sequencing {
            identity: self.identity,
            txn: self.txn,
            sequences: self.sequences@,
            enrolled: self.enrolled@.dom(),
            transactional: self.transactional,
        }
    }
}

/// A producer before anything happened.
pub open spec fn fresh(transactional: bool) -> Sequencing {
    Sequencing {
        identity: None,
        txn: TxnState::Uninitialised,
        sequences: Map::empty(),
        enrolled: Set::empty(),
        transactional,
    }
}

impl ProducerState {
    pub closed spec fn well_formed(&self) -> bool {
        self.sequences.well_formed() && self.enrolled.well_formed() && self@.coherent()
    }

    fn fresh(transactional: bool) -> (state: Self)
        ensures
            state.well_formed(),
            state@ == fresh(transactional),
    {
        let state = ProducerState {
            identity: None,
            txn: TxnState::Uninitialised,
            sequences: SlotMap::new(),
            enrolled: SlotMap::new(),
            transactional,
        };
        assert(state@.enrolled =~= Set::empty());
        state
    }

    /// A transactional producer: it needs an identity, and an open transaction to
    /// produce.
    pub fn transactional() -> (state: Self)
        ensures
            state.well_formed(),
            state@ == fresh(true),
    {
        ProducerState::fresh(true)
    }

    /// An idempotent producer: the sequence rules, and no transactions.
    pub fn idempotent() -> (state: Self)
        ensures
            state.well_formed(),
            state@ == fresh(false),
    {
        ProducerState::fresh(false)
    }

    pub fn state(&self) -> (txn: TxnState)
        ensures
            txn == self@.txn,
    {
        self.txn
    }

    pub fn identity(&self) -> (identity: Option<ProducerIdentity>)
        ensures
            identity == self@.identity,
    {
        self.identity
    }

    /// Records the identity that the coordinator issued.
    ///
    /// **The one place where sequences restart**: a new identity fences everything
    /// written under the old one, so the broker expects that, and only then.
    pub fn on_init_producer_id(&mut self, identity: ProducerIdentity)
        requires
            old(self).well_formed(),
        ensures
            final(self).well_formed(),
            final(self)@ == old(self)@.initialised(identity),
    {
        let unchanged = match self.identity {
            Some(known) => known == identity,
            None => false,
        };
        self.identity = Some(identity);
        if !unchanged {
            self.sequences.clear();
        }
        self.enrolled.clear();
        self.txn = TxnState::Ready;
        assert(self@.enrolled =~= Set::empty());
    }

    /// Opens a transaction. Sequences are not touched.
    pub fn begin_transaction(&mut self) -> (result: Result<(), ProducerError>)
        requires
            old(self).well_formed(),
        ensures
            final(self).well_formed(),
            result == match old(self)@.refuses_begin() {
                Some(e) => Err::<(), ProducerError>(e),
                None => Ok(()),
            },
            final(self)@ == old(self)@.begun(),
    {
        self.check_usable()?;
        if self.txn != TxnState::Ready {
            return Err(ProducerError::TransactionAlreadyOpen);
        }
        self.enrolled.clear();
        self.txn = TxnState::InTransaction;
        assert(self@.enrolled =~= Set::empty());
        Ok(())
    }

    /// Whether this partition must be added to the transaction before producing to
    /// it: once per transaction, not once per batch.
    pub fn needs_enrollment(&self, topic: &str, partition: i32) -> (yes: bool)
        ensures
            yes == (self@.transactional && self@.txn == TxnState::InTransaction
                && !self@.enrolled.contains((topic@, partition))),
    {
        self.transactional && self.txn == TxnState::InTransaction && !self.enrolled.contains(
            topic,
            partition,
        )
    }

    /// Records that a partition was added to the transaction.
    pub fn on_enrolled(&mut self, topic: &str, partition: i32)
        requires
            old(self).well_formed(),
        ensures
            final(self).well_formed(),
            final(self)@ == old(self)@.enrolling((topic@, partition)),
    {
        self.enrolled.insert(topic, partition, ());
        assert(self@.enrolled =~= old(self)@.enrolled.insert((topic@, partition)));
    }

    /// Reserves `count` sequence numbers for a batch.
    ///
    /// The counter advances here, not on acknowledgement: an unacknowledged batch
    /// still occupies its sequences, because the broker may have persisted it.
    pub fn allocate(&mut self, topic: &str, partition: i32, count: i32) -> (result: Result<
        SequenceRange,
        ProducerError,
    >)
        requires
            old(self).well_formed(),
            i32::MIN <= old(self)@.next((topic@, partition)) + count <= i32::MAX,
        ensures
            final(self).well_formed(),
            match old(self)@.refuses_batch((topic@, partition)) {
                Some(e) => result is Err && result->Err_0@ == e,
                None => result == Ok::<SequenceRange, ProducerError>(
                    SequenceRange { base: old(self)@.next((topic@, partition)), count },
                ),
            },
            result is Ok <==> old(self)@.may_produce((topic@, partition)),
            final(self)@ == old(self)@.allocated((topic@, partition), count),
    {
        self.check_usable()?;
        if self.transactional {
            if self.txn != TxnState::InTransaction {
                return Err(ProducerError::NoTransaction);
            }
            if !self.enrolled.contains(topic, partition) {
                return Err(ProducerError::NotEnrolled { topic: topic.to_owned(), partition });
            }
        }
        let base: i32 = self.next_sequence(topic, partition);
        self.sequences.insert(topic, partition, base + count);
        Ok(SequenceRange { base, count })
    }

    /// The next sequence that this partition would be given.
    pub fn next_sequence(&self, topic: &str, partition: i32) -> (next: i32)
        requires
            self.well_formed(),
        ensures
            next == self@.next((topic@, partition)),
    {
        match self.sequences.get(topic, partition) {
            Some(next) => *next,
            None => 0,
        }
    }

    /// Begins committing or aborting.
    pub fn end_transaction(&mut self) -> (result: Result<(), ProducerError>)
        requires
            old(self).well_formed(),
        ensures
            final(self).well_formed(),
            result == match old(self)@.refuses_end() {
                Some(e) => Err::<(), ProducerError>(e),
                None => Ok(()),
            },
            final(self)@ == old(self)@.ending(),
    {
        self.check_usable()?;
        if self.txn != TxnState::InTransaction {
            return Err(ProducerError::NoTransaction);
        }
        self.txn = TxnState::Ending;
        Ok(())
    }

    /// Records that the transaction ended: ready again, nothing enrolled, and the
    /// sequences **untouched**.
    pub fn on_end_transaction(&mut self)
        requires
            old(self).well_formed(),
        ensures
            final(self).well_formed(),
            final(self)@ == old(self)@.ended(),
    {
        if self.txn == TxnState::Ending {
            self.enrolled.clear();
            self.txn = TxnState::Ready;
            assert(self@.enrolled =~= Set::empty());
        }
    }

    /// Fences the producer: nothing further until it has a new identity.
    pub fn fence(&mut self)
        requires
            old(self).well_formed(),
        ensures
            final(self).well_formed(),
            final(self)@ == old(self)@.fenced(),
    {
        self.txn = TxnState::Fatal;
    }

    fn check_usable(&self) -> (result: Result<(), ProducerError>)
        ensures
            result == match self@.unusable() {
                Some(e) => Err::<(), ProducerError>(e),
                None => Ok(()),
            },
    {
        match self.txn {
            TxnState::Fatal => Err(ProducerError::Fatal),
            TxnState::Uninitialised => Err(ProducerError::Uninitialised),
            _ => Ok(()),
        }
    }
}

/// Whether the broker silently deduplicated a batch: it answers `Ok` and echoes where
/// the *original* copy landed, at or before the highest base offset seen so far.
pub fn looks_deduplicated(base_offset: i64, previous_high: Option<i64>) -> (yes: bool)
    ensures
        yes == match previous_high {
            Some(high) => base_offset <= high,
            None => false,
        },
{
    match previous_high {
        Some(high) => base_offset <= high,
        None => false,
    }
}

/// A producer that permits anything has an identity.
pub proof fn law_a_usable_producer_has_an_identity(state: &ProducerState)
    requires
        state.well_formed(),
    ensures
        state@.coherent(),
        state@.unusable() is None ==> state@.identity is Some,
{
}

/// Something that happens to a producer.
pub ghost enum Event {
    Initialised(ProducerIdentity),
    Begin,
    Enrolled((Seq<char>, i32)),
    Allocate((Seq<char>, i32), i32),
    End,
    Ended,
    Fence,
}

impl Sequencing {
    /// The producer after an event.
    pub open spec fn after(self, event: Event) -> Sequencing {
        match event {
            Event::Initialised(identity) => self.initialised(identity),
            Event::Begin => self.begun(),
            Event::Enrolled(slot) => self.enrolling(slot),
            Event::Allocate(slot, count) => self.allocated(slot, count),
            Event::End => self.ending(),
            Event::Ended => self.ended(),
            Event::Fence => self.fenced(),
        }
    }

    /// The producer after the first `n` of some events.
    pub open spec fn run(self, events: Seq<Event>, n: nat) -> Sequencing
        decreases n,
    {
        if n == 0 {
            self
        } else {
            self.run(events, (n - 1) as nat).after(events[n - 1])
        }
    }

    /// How many sequences the first `n` of some events reserve for a partition.
    pub open spec fn reserved(self, events: Seq<Event>, n: nat, slot: (Seq<char>, i32)) -> int
        decreases n,
    {
        if n == 0 {
            0
        } else {
            self.reserved(events, (n - 1) as nat, slot) + (match events[n - 1] {
                Event::Allocate(s, count) => if s == slot && self.run(
                    events,
                    (n - 1) as nat,
                ).may_produce(slot) {
                    count as int
                } else {
                    0
                },
                _ => 0,
            })
        }
    }
}

/// Whether no event gives the producer an identity other than the one it has.
pub open spec fn same_identity(events: Seq<Event>, identity: Option<ProducerIdentity>) -> bool {
    forall|i: int|
        0 <= i < events.len() ==> ((#[trigger] events[i]) matches Event::Initialised(given)
            ==> identity == Some(given))
}

/// Sequences are contiguous, whatever happens in between and to whatever other
/// partitions, transactions that end and begin included: as long as the identity
/// stays, the next sequence of a partition is the one it started from plus all that
/// was reserved since.
pub proof fn law_sequences_are_contiguous(
    start: Sequencing,
    events: Seq<Event>,
    n: nat,
    slot: (Seq<char>, i32),
)
    requires
        n <= events.len(),
        same_identity(events, start.identity),
        forall|i: nat|
            i <= n ==> i32::MIN <= start.next(slot) + #[trigger] start.reserved(events, i, slot)
                <= i32::MAX,
    ensures
        start.run(events, n).next(slot) == start.next(slot) + start.reserved(events, n, slot),
        start.run(events, n).identity == start.identity,
    decreases n,
{
    if n > 0 {
        law_sequences_are_contiguous(start, events, (n - 1) as nat, slot);
        let before = start.run(events, (n - 1) as nat);
        let event = events[n - 1];
        assert(i32::MIN <= start.next(slot) + start.reserved(events, n, slot) <= i32::MAX);
        match event {
            Event::Initialised(given) => {
                assert(start.identity == Some(given));
            },
            _ => {},
        }
    }
}

/// A new identity restarts every sequence; the same one restarts none.
pub proof fn law_only_a_new_identity_restarts_sequences(
    p: Sequencing,
    identity: ProducerIdentity,
    slot: (Seq<char>, i32),
)
    ensures
        p.initialised(identity).next(slot) == if p.identity == Some(identity) {
            p.next(slot)
        } else {
            0
        },
{
}

/// Once fenced, a producer refuses everything until it is given an identity again.
pub proof fn law_a_fenced_producer_refuses_everything(
    p: Sequencing,
    events: Seq<Event>,
    n: nat,
    slot: (Seq<char>, i32),
)
    requires
        n <= events.len(),
        forall|i: int| 0 <= i < n ==> !((#[trigger] events[i]) is Initialised),
    ensures
        ({
            let now = p.fenced().run(events, n);
            &&& now.txn == TxnState::Fatal
            &&& now.refuses_begin() == Some(ProducerError::Fatal)
            &&& now.refuses_end() == Some(ProducerError::Fatal)
            &&& now.unusable() == Some(ProducerError::Fatal)
            &&& !now.may_produce(slot)
        }),
    decreases n,
{
    if n > 0 {
        law_a_fenced_producer_refuses_everything(p, events, (n - 1) as nat, slot);
    }
}

/// A transaction goes through its states in turn: it can be opened where the producer is
/// ready and no other is open, it starts with nothing enrolled, it can be ended only while
/// it is open, and the acknowledged end leaves the producer ready, with nothing enrolled.
/// All the way the identity and every sequence stay.
pub proof fn law_transactions_go_round(p: Sequencing)
    ensures
        p.refuses_begin() is None <==> p.txn == TxnState::Ready,
        p.refuses_end() is None <==> p.txn == TxnState::InTransaction,
        p.txn == TxnState::Uninitialised ==> p.refuses_begin() == Some(ProducerError::Uninitialised)
            && p.refuses_end() == Some(ProducerError::Uninitialised),
        p.txn == TxnState::Fatal ==> p.refuses_begin() == Some(ProducerError::Fatal)
            && p.refuses_end() == Some(ProducerError::Fatal),
        p.txn == TxnState::InTransaction || p.txn == TxnState::Ending ==> p.refuses_begin() == Some(
            ProducerError::TransactionAlreadyOpen,
        ),
        p.txn == TxnState::Ready || p.txn == TxnState::Ending ==> p.refuses_end() == Some(
            ProducerError::NoTransaction,
        ),
        p.txn == TxnState::Ready ==> {
            let open = p.begun();
            let ending = open.ending();
            let done = ending.ended();
            &&& open.txn == TxnState::InTransaction
            &&& open.enrolled == Set::<(Seq<char>, i32)>::empty()
            &&& ending.txn == TxnState::Ending
            &&& done.txn == TxnState::Ready
            &&& done.enrolled == Set::<(Seq<char>, i32)>::empty()
            &&& done.sequences == p.sequences
            &&& done.identity == p.identity
            &&& done.transactional == p.transactional
        },
        p.txn != TxnState::Ready ==> p.begun() == p,
        p.txn != TxnState::InTransaction ==> p.ending() == p,
        p.txn != TxnState::Ending ==> p.ended() == p,
        p.txn == TxnState::Ending ==> p.ended().txn == TxnState::Ready && p.ended().enrolled
            == Set::<(Seq<char>, i32)>::empty() && p.ended().sequences == p.sequences
            && p.ended().identity == p.identity,
{
}

/// Who may write where. A producer without transactions may write once it has an
/// identity and is not fenced; one with transactions only inside an open transaction, and
/// only to partitions that are part of it. What it lacks is what it is told.
pub proof fn law_a_transaction_writes_only_where_it_is_enrolled(
    p: Sequencing,
    slot: (Seq<char>, i32),
)
    ensures
        p.may_produce(slot) <==> p.refuses_batch(slot) is None,
        !p.transactional ==> (p.may_produce(slot) <==> p.txn != TxnState::Uninitialised && p.txn
            != TxnState::Fatal),
        p.transactional ==> (p.may_produce(slot) <==> p.txn == TxnState::InTransaction
            && p.enrolled.contains(slot)),
        p.txn == TxnState::Uninitialised ==> p.refuses_batch(slot) == Some(Misuse::Uninitialised),
        p.txn == TxnState::Fatal ==> p.refuses_batch(slot) == Some(Misuse::Fatal),
        p.transactional && (p.txn == TxnState::Ready || p.txn == TxnState::Ending)
            ==> p.refuses_batch(slot) == Some(Misuse::NoTransaction),
        p.transactional && p.txn == TxnState::InTransaction && !p.enrolled.contains(slot)
            ==> p.refuses_batch(slot) == Some(Misuse::NotEnrolled(slot.0, slot.1)),
{
}

/// Reserving sequences takes exactly as many as were asked for, of that partition alone,
/// and of no partition where writing is refused.
pub proof fn law_a_reservation_takes_what_it_asks_for(
    p: Sequencing,
    slot: (Seq<char>, i32),
    count: i32,
)
    requires
        i32::MIN <= p.next(slot) + count <= i32::MAX,
    ensures
        p.may_produce(slot) ==> p.allocated(slot, count).next(slot) == p.next(slot) + count,
        !p.may_produce(slot) ==> p.allocated(slot, count) == p,
        forall|other: (Seq<char>, i32)|
            other != slot ==> #[trigger] p.allocated(slot, count).next(other) == p.next(other),
        p.allocated(slot, count).identity == p.identity,
        p.allocated(slot, count).txn == p.txn,
        p.allocated(slot, count).enrolled == p.enrolled,
        p.allocated(slot, count).transactional == p.transactional,
{
}

/// An identity makes the producer ready, whatever state it was in, with no transaction
/// open; fencing ends everything and forgets nothing; and a producer that is new has
/// neither identity nor sequences.
pub proof fn law_an_identity_makes_a_producer_ready(
    p: Sequencing,
    identity: ProducerIdentity,
    transactional: bool,
)
    ensures
        p.initialised(identity).identity == Some(identity),
        p.initialised(identity).txn == TxnState::Ready,
        p.initialised(identity).enrolled == Set::<(Seq<char>, i32)>::empty(),
        p.initialised(identity).transactional == p.transactional,
        p.fenced().txn == TxnState::Fatal,
        p.fenced().identity == p.identity,
        p.fenced().sequences == p.sequences,
        fresh(transactional).identity is None,
        fresh(transactional).txn == TxnState::Uninitialised,
        fresh(transactional).transactional == transactional,
        forall|slot: (Seq<char>, i32)| #[trigger] fresh(transactional).next(slot) == 0,
        forall|slot: (Seq<char>, i32)| !fresh(transactional).enrolled.contains(slot),
{
}

} // verus!
