use std::collections::HashMap;

use barnabas::producer::{
    looks_deduplicated, ProducerError, ProducerIdentity, ProducerState, SequenceRange, TxnState,
};

fn ready_transactional() -> ProducerState {
    let mut p = ProducerState::transactional();
    p.on_init_producer_id(ProducerIdentity { id: 7, epoch: 0 });
    p
}

fn enrolled_in_transaction() -> ProducerState {
    let mut p = ready_transactional();
    p.begin_transaction().unwrap();
    p.on_enrolled("t", 0);
    p
}

/// A second transaction continues the sequence. If it restarted, the broker would answer `Ok`,
/// echo the original base offset, write nothing, and commit an empty
/// transaction — with no error anywhere.
#[test]
fn producer_sequences_continue_across_transactions() {
    let mut p = enrolled_in_transaction();
    let first = p.allocate("t", 0, 3).unwrap();
    assert_eq!(first, SequenceRange { base: 0, count: 3 });

    p.end_transaction().unwrap();
    p.on_end_transaction();

    p.begin_transaction().unwrap();
    p.on_enrolled("t", 0);
    let second = p.allocate("t", 0, 2).unwrap();
    assert_eq!(
        second,
        SequenceRange { base: 3, count: 2 },
        "a new transaction restarted the sequence; the broker will \
         deduplicate it and commit an empty transaction"
    );
}

/// **Rule 2.** A retry re-sends the range it already has. The state machine
/// enforces this by handing out a value: there is no way to "re-read" the
/// counter and accidentally advance it.
#[test]
fn a_retry_reuses_its_range_and_does_not_advance() {
    let mut p = enrolled_in_transaction();
    let range = p.allocate("t", 0, 5).unwrap();
    let next_before = p.next_sequence("t", 0);
    // A retry sends `range` again. Nothing is re-allocated.
    assert_eq!(range.base, 0);
    assert_eq!(next_before, 5);
    assert_eq!(p.next_sequence("t", 0), 5, "a retry must not advance");
}

/// The counter advances at allocation, not acknowledgement: an
/// unacknowledged batch may well have been persisted, so its sequences are
/// spent either way.
#[test]
fn allocation_advances_even_without_acknowledgement() {
    let mut p = enrolled_in_transaction();
    p.allocate("t", 0, 4).unwrap();
    assert_eq!(p.next_sequence("t", 0), 4);
    let next = p.allocate("t", 0, 1).unwrap();
    assert_eq!(next.base, 4);
}

/// **The one legitimate reset.** A new epoch fences everything written
/// under the old one.
#[test]
fn a_new_epoch_resets_sequences() {
    let mut p = enrolled_in_transaction();
    p.allocate("t", 0, 3).unwrap();
    assert_eq!(p.next_sequence("t", 0), 3);

    p.on_init_producer_id(ProducerIdentity { id: 7, epoch: 1 });
    assert_eq!(p.next_sequence("t", 0), 0);
}

/// Re-initialising to the *same* identity must not reset: that would be a
/// silent duplicate-writer, since the broker still expects the old
/// sequence.
#[test]
fn re_initialising_the_same_identity_keeps_sequences() {
    let mut p = enrolled_in_transaction();
    p.allocate("t", 0, 3).unwrap();
    p.on_init_producer_id(ProducerIdentity { id: 7, epoch: 0 });
    assert_eq!(p.next_sequence("t", 0), 3);
}

/// Sequences are per partition; one partition's traffic must not shift
/// another's.
#[test]
fn sequences_are_per_partition() {
    let mut p = ready_transactional();
    p.begin_transaction().unwrap();
    p.on_enrolled("t", 0);
    p.on_enrolled("t", 1);
    p.allocate("t", 0, 3).unwrap();
    let other = p.allocate("t", 1, 1).unwrap();
    assert_eq!(other.base, 0);
}

/// **Rule 3.** A fenced producer refuses everything, because a fenced
/// producer that keeps writing is a split brain.
#[test]
fn a_fenced_producer_refuses_everything() {
    let mut p = enrolled_in_transaction();
    p.fence();
    assert_eq!(p.begin_transaction(), Err(ProducerError::Fatal));
    assert_eq!(p.allocate("t", 0, 1), Err(ProducerError::Fatal));
    assert_eq!(p.end_transaction(), Err(ProducerError::Fatal));
}

/// Only re-initialisation clears it, and that means a new epoch from the
/// coordinator.
#[test]
fn re_initialising_clears_the_fatal_state() {
    let mut p = enrolled_in_transaction();
    p.fence();
    p.on_init_producer_id(ProducerIdentity { id: 7, epoch: 1 });
    assert_eq!(p.state(), TxnState::Ready);
    assert!(p.begin_transaction().is_ok());
}

/// A partition must be enrolled before it is produced to, or the
/// coordinator cannot fence it at commit time.
#[test]
fn producing_to_an_unenrolled_partition_is_refused() {
    let mut p = ready_transactional();
    p.begin_transaction().unwrap();
    assert_eq!(
        p.allocate("t", 0, 1),
        Err(ProducerError::NotEnrolled {
            topic: "t".to_owned(),
            partition: 0
        })
    );
}

/// Enrollment is per transaction: needed once at the start, and again after
/// the transaction ends.
#[test]
fn enrollment_is_once_per_transaction() {
    let mut p = ready_transactional();
    p.begin_transaction().unwrap();
    assert!(p.needs_enrollment("t", 0));
    p.on_enrolled("t", 0);
    assert!(!p.needs_enrollment("t", 0));

    p.end_transaction().unwrap();
    p.on_end_transaction();
    p.begin_transaction().unwrap();
    assert!(
        p.needs_enrollment("t", 0),
        "a new transaction must enroll its partitions again"
    );
}

#[test]
fn producer_producing_outside_a_transaction_is_refused() {
    let mut p = ready_transactional();
    assert_eq!(p.allocate("t", 0, 1), Err(ProducerError::NoTransaction));
}

#[test]
fn nesting_transactions_is_refused() {
    let mut p = ready_transactional();
    p.begin_transaction().unwrap();
    assert_eq!(
        p.begin_transaction(),
        Err(ProducerError::TransactionAlreadyOpen)
    );
}

#[test]
fn an_uninitialised_producer_refuses_to_begin() {
    let mut p = ProducerState::transactional();
    assert_eq!(p.begin_transaction(), Err(ProducerError::Uninitialised));
}

/// An idempotent producer keeps the sequence rules and skips the
/// transaction machinery entirely.
#[test]
fn an_idempotent_producer_needs_no_transaction() {
    let mut p = ProducerState::idempotent();
    p.on_init_producer_id(ProducerIdentity { id: 1, epoch: 0 });
    assert!(!p.needs_enrollment("t", 0));
    assert_eq!(p.allocate("t", 0, 2).unwrap().base, 0);
    assert_eq!(p.allocate("t", 0, 2).unwrap().base, 2);
}

/// A base offset at or below one already seen means the broker
/// deduplicated: `Ok`, nothing written.
#[test]
fn a_repeated_base_offset_reads_as_deduplication() {
    assert!(!looks_deduplicated(0, None));
    assert!(!looks_deduplicated(10, Some(7)));
    assert!(looks_deduplicated(7, Some(7)));
    assert!(looks_deduplicated(3, Some(7)));
}

/// **The invariant, over an arbitrary interleaving.** Whatever order
/// transactions, partitions and batch sizes come in, each partition's
/// sequences must be contiguous from zero and never repeat — that is the
/// whole of what the broker checks, so it is what the state machine must
/// guarantee.
#[test]
fn sequences_are_contiguous_under_arbitrary_interleaving() {
    let mut p = ready_transactional();
    let partitions = [0, 1, 2];
    let mut expected: HashMap<i32, i32> = partitions.iter().map(|p| (*p, 0)).collect();

    // A deterministic but irregular schedule — no rand dependency, and a
    // failure reproduces exactly.
    let mut counter = 0u32;
    for txn in 0..5 {
        p.begin_transaction().unwrap();
        for step in 0..7 {
            counter = counter.wrapping_mul(1_664_525).wrapping_add(1_013_904_223);
            let partition = partitions[(counter >> 16) as usize % partitions.len()];
            let count = i32::try_from((counter >> 8) % 4 + 1).unwrap();

            if p.needs_enrollment("t", partition) {
                p.on_enrolled("t", partition);
            }
            let range = p.allocate("t", partition, count).unwrap();

            let want = expected.get_mut(&partition).unwrap();
            assert_eq!(
                range.base, *want,
                "txn {txn} step {step}: partition {partition} sequence jumped"
            );
            *want += count;
        }
        p.end_transaction().unwrap();
        p.on_end_transaction();
    }

    for (partition, want) in expected {
        assert_eq!(p.next_sequence("t", partition), want);
    }
}

#[test]
fn a_range_ends_where_the_next_begins() {
    let mut p = enrolled_in_transaction();
    let range = p.allocate("t", 0, 3).unwrap();
    assert_eq!(range.end(), 3);
    assert_eq!(p.next_sequence("t", 0), range.end());
}

#[test]
fn ending_a_transaction_that_is_not_open_is_refused() {
    let mut p = ready_transactional();
    assert_eq!(p.end_transaction(), Err(ProducerError::NoTransaction));
    assert_eq!(p.identity(), Some(ProducerIdentity { id: 7, epoch: 0 }));
}

#[test]
fn producer_errors_say_what_happened() {
    assert!(ProducerError::Fatal.message().contains("fenced"));
    let text = ProducerError::NotEnrolled { topic: "t".to_owned(), partition: 3 }.message();
    assert!(text.contains('t') && text.contains('3'), "{text}");
    for e in [
        ProducerError::Uninitialised,
        ProducerError::NoTransaction,
        ProducerError::TransactionAlreadyOpen,
    ] {
        assert!(!e.message().is_empty());
    }
}
