//! What a measuring program decides before it measures: which brokers and which cells,
//! which core writes to which partitions, and what it writes.
use crate::batch;
use crate::batch::{CompressionCodec, Outgoing};
use crate::buffer;
use crate::names;
use crate::records;
use crate::text;
use bytes::Bytes;
use vstd::prelude::*;
use vstd::string::StringExecFns;

verus! {

/// The partitions of a topic that is written to.
pub const PARTITIONS: i32 = 8;

/// The records that are read back, where nothing says how many.
pub const CONSUME_RECORDS: u64 = 1_000_000;

/// What a broker accepts as one message by default, a little over a mebibyte.
pub const MESSAGE_LIMIT: usize = 1_100_000;

/// The number that a setting spells, the default where it is not set or spells none.
pub fn consume_records(setting: Option<&str>) -> (count: u64)
    ensures
        count == match setting {
            Some(s) => match text::parsed(s@, u64::MAX as nat) {
                Some(n) => n as u64,
                None => CONSUME_RECORDS,
            },
            None => CONSUME_RECORDS,
        },
{
    match setting {
        Some(s) => match text::parse(s, u64::MAX) {
            Some(n) => n,
            None => CONSUME_RECORDS,
        },
        None => CONSUME_RECORDS,
    }
}

/// What stands between the commas of a list, without the white space around it.
pub open spec fn items(list: Seq<char>) -> Seq<Seq<char>> {
    text::split_from(list, 0, 0).map_values(|part: Seq<char>| text::trimmed(part))
}

fn trimmed_items(list: &str) -> (out: Vec<String>)
    ensures
        names::names_of(out@) == items(list@),
{
    let parts = text::split(list);
    let ghost all = names::names_of(parts@);
    let mut out: Vec<String> = Vec::new();
    let mut i: usize = 0;
    while i < parts.len()
        invariant
            i <= parts@.len(),
            all == names::names_of(parts@),
            out@.len() == i,
            forall|k: int| 0 <= k < i ==> (#[trigger] out@[k])@ == text::trimmed(all[k]),
        decreases parts@.len() - i,
    {
        out.push(text::trim(parts[i].as_str()));
        i = i + 1;
    }
    assert(names::names_of(out@) =~= items(list@));
    out
}

/// The brokers of a comma-separated list, one address each.
pub fn brokers(list: &str) -> (addrs: Vec<String>)
    ensures
        names::names_of(addrs@) == items(list@),
{
    trimmed_items(list)
}

/// Whether a section is to run: all are, where no comma-separated list of them is set.
pub fn want(cells: Option<&str>, section: &str) -> (yes: bool)
    ensures
        yes == match cells {
            Some(list) => items(list@).contains(section@),
            None => true,
        },
{
    match cells {
        None => true,
        Some(list) => {
            let parts = trimmed_items(list);
            let ghost all = names::names_of(parts@);
            let mut i: usize = 0;
            while i < parts.len()
                invariant
                    i <= parts@.len(),
                    all == names::names_of(parts@),
                    all == items(list@),
                    cells == Some(list),
                    forall|k: int| 0 <= k < i ==> #[trigger] all[k] != section@,
                decreases parts@.len() - i,
            {
                if names::same(parts[i].as_str(), section) {
                    assert(all[i as int] == section@);
                    return true;
                }
                i = i + 1;
            }
            false
        },
    }
}

/// A topic's name that no earlier run has used, made unique by the time.
pub fn unique_topic(prefix: &str, nanos: u64) -> (name: String)
    ensures
        name@ == "bench-"@ + prefix@ + "-"@ + text::digits(nanos as nat),
{
    let mut name: String = text::joined("bench-", prefix);
    name.append("-");
    text::push_digits(&mut name, nanos);
    name
}

/// Whether a batch of values fits in one message.
pub fn fits(batch: usize, value_bytes: usize) -> (yes: bool)
    ensures
        yes == (batch * value_bytes <= MESSAGE_LIMIT),
{
    match batch.checked_mul(value_bytes) {
        Some(n) => n <= MESSAGE_LIMIT,
        None => false,
    }
}

/// How many partitions a core takes, so that none is left over.
pub open spec fn per_core(cores: int) -> int {
    (PARTITIONS + cores - 1) / cores
}

/// Whether a core writes to a partition.
pub open spec fn owns(cores: int, core: int, partition: int) -> bool {
    0 <= partition < PARTITIONS && partition / per_core(cores) == core
}

/// The partitions that a core writes to, in order.
pub fn owned(cores: usize, core: usize) -> (list: Vec<i32>)
    requires
        0 < cores <= PARTITIONS,
    ensures
        forall|p: i32| list@.contains(p) == owns(cores as int, core as int, p as int),
        forall|i: int, j: int| 0 <= i < j < list@.len() ==> list@[i] < list@[j],
{
    let share: usize = (PARTITIONS as usize + cores - 1) / cores;
    proof {
        lemma_share(cores as int);
    }
    let mut list: Vec<i32> = Vec::new();
    let mut p: i32 = 0;
    while p < PARTITIONS
        invariant
            0 <= p <= PARTITIONS,
            share == per_core(cores as int),
            share > 0,
            forall|q: i32|
                #![auto]
                list@.contains(q) == (q < p && owns(cores as int, core as int, q as int)),
            forall|i: int, j: int| 0 <= i < j < list@.len() ==> list@[i] < list@[j],
        decreases PARTITIONS - p,
    {
        let ghost before = list@;
        if p as usize / share == core {
            assert forall|i: int| 0 <= i < before.len() implies before[i] < p by {
                assert(before.contains(before[i]));
            }
            list.push(p);
            assert forall|q: i32| list@.contains(q) == (before.contains(q) || q == p) by {
                if before.contains(q) {
                    let i = choose|i: int| 0 <= i < before.len() && before[i] == q;
                    assert(list@[i] == q);
                }
                if q == p {
                    assert(list@[before.len() as int] == p);
                }
            }
        }
        p = p + 1;
    }
    list
}

proof fn lemma_share(cores: int)
    requires
        0 < cores <= PARTITIONS,
    ensures
        per_core(cores) > 0,
        per_core(cores) * cores >= PARTITIONS,
{
    vstd::arithmetic::div_mod::lemma_fundamental_div_mod(PARTITIONS + cores - 1, cores);
    vstd::arithmetic::div_mod::lemma_mod_bound(PARTITIONS + cores - 1, cores);
    let share = per_core(cores);
    assert(share * cores == cores * share) by (nonlinear_arith);
    assert(share > 0) by (nonlinear_arith)
        requires
            share * cores >= 8,
            cores > 0,
    ;
}

/// However many cores there are, every partition is written to, and by one core alone.
pub proof fn law_every_partition_has_one_core(cores: int, partition: int)
    requires
        0 < cores <= PARTITIONS,
        0 <= partition < PARTITIONS,
    ensures
        exists|core: int| 0 <= core < cores && #[trigger] owns(cores, core, partition),
        forall|a: int, b: int| #[trigger]
            owns(cores, a, partition) && #[trigger] owns(cores, b, partition) ==> a == b,
{
    lemma_share(cores);
    let share = per_core(cores);
    let core = partition / share;
    vstd::arithmetic::div_mod::lemma_fundamental_div_mod(partition, share);
    vstd::arithmetic::div_mod::lemma_mod_bound(partition, share);
    assert(0 <= core < cores) by (nonlinear_arith)
        requires
            partition == share * core + partition % share,
            0 <= partition % share < share,
            0 <= partition < 8,
            share * cores >= 8,
            share > 0,
    ;
    assert(owns(cores, core, partition));
}

/// A value that is one byte over and over.
pub fn payload(bytes: usize) -> (value: Bytes)
    ensures
        buffer::contents(value) == Seq::new(bytes as nat, |i: int| 0x78u8),
{
    let mut out: Vec<u8> = Vec::new();
    let mut i: usize = 0;
    while i < bytes
        invariant
            i <= bytes,
            out@ =~= Seq::new(i as nat, |k: int| 0x78u8),
        decreases bytes - i,
    {
        out.push(0x78);
        i = i + 1;
    }
    buffer::from_vec(out)
}

/// The next state of a 64-bit xorshift generator.
pub open spec fn shifted(state: u64) -> u64 {
    let a = state ^ (state << 13u64);
    let b = a ^ (a >> 7u64);
    b ^ (b << 17u64)
}

/// The state that a mixed payload starts from.
pub const SEED: u64 = 0x2545_F491_4F6C_DD1D;

/// The structured text of a mixed payload.
pub open spec fn log_line() -> Seq<u8> {
    seq![
        108u8, 101, 118, 101, 108, 61, 105, 110, 102, 111, 32, 109, 115, 103, 61, 114, 101, 113, 117,
        101, 115, 116, 32, 112, 97, 116, 104, 61, 47, 97, 112, 105, 47, 118, 49, 47, 105, 116, 101,
        109, 115, 32, 115, 116, 97, 116, 117, 115, 61, 50, 48, 48, 32,
    ]
}

/// The bytes of a number, lowest first.
pub open spec fn little_endian(n: u64) -> Seq<u8> {
    seq![
        (n % 256) as u8,
        (n / 0x100 % 256) as u8,
        (n / 0x1_0000 % 256) as u8,
        (n / 0x100_0000 % 256) as u8,
        (n / 0x1_0000_0000 % 256) as u8,
        (n / 0x100_0000_0000 % 256) as u8,
        (n / 0x1_0000_0000_0000 % 256) as u8,
        (n / 0x100_0000_0000_0000 % 256) as u8,
    ]
}

/// What a mixed payload gains when it has `len` bytes and the generator's state is
/// `state`: text in the first half of every 64 bytes, noise in the second.
pub open spec fn gained(len: nat, state: u64) -> Seq<u8> {
    if len % 64 < 32 {
        log_line()
    } else {
        little_endian(state)
    }
}

/// A mixed payload grows with every step.
pub proof fn lemma_gains(len: nat, state: u64)
    ensures
        gained(len, state).len() > 0,
{
    assert(log_line()[0] == 108);
}

/// A mixed payload grown until it has at least `bytes` bytes.
pub open spec fn mixed(out: Seq<u8>, state: u64, bytes: nat) -> Seq<u8>
    decreases
        if out.len() >= bytes {
            0
        } else {
            bytes - out.len()
        },
{
    if out.len() >= bytes {
        out
    } else {
        proof {
            lemma_gains(out.len(), shifted(state));
        }
        mixed(out + gained(out.len(), shifted(state)), shifted(state), bytes)
    }
}

fn push_all(out: &mut Vec<u8>, more: &[u8])
    ensures
        final(out)@ == old(out)@ + more@,
{
    let ghost before = out@;
    let mut i: usize = 0;
    assert(out@ =~= before + more@.take(0));
    while i < more.len()
        invariant
            i <= more@.len(),
            out@ == before + more@.take(i as int),
        decreases more@.len() - i,
    {
        out.push(more[i]);
        i = i + 1;
        assert(out@ =~= before + more@.take(i as int));
    }
    assert(more@.take(i as int) =~= more@);
}

fn log_line_bytes() -> (bytes: [u8; 53])
    ensures
        bytes@ == log_line(),
{
    let bytes: [u8; 53] = [
        108, 101, 118, 101, 108, 61, 105, 110, 102, 111, 32, 109, 115, 103, 61, 114, 101, 113, 117,
        101, 115, 116, 32, 112, 97, 116, 104, 61, 47, 97, 112, 105, 47, 118, 49, 47, 105, 116, 101,
        109, 115, 32, 115, 116, 97, 116, 117, 115, 61, 50, 48, 48, 32,
    ];
    assert(bytes@ =~= log_line());
    bytes
}

fn little_endian_bytes(n: u64) -> (bytes: [u8; 8])
    ensures
        bytes@ == little_endian(n),
{
    let bytes: [u8; 8] = [
        (n % 256) as u8,
        (n / 0x100 % 256) as u8,
        (n / 0x1_0000 % 256) as u8,
        (n / 0x100_0000 % 256) as u8,
        (n / 0x1_0000_0000 % 256) as u8,
        (n / 0x100_0000_0000 % 256) as u8,
        (n / 0x1_0000_0000_0000 % 256) as u8,
        (n / 0x100_0000_0000_0000 % 256) as u8,
    ];
    assert(bytes@ =~= little_endian(n));
    bytes
}

/// A value with something to compress, but not everything: half structured text, half
/// noise.
pub fn payload_mixed(bytes: usize) -> (value: Bytes)
    ensures
        buffer::contents(value) == mixed(Seq::empty(), SEED, bytes as nat).take(bytes as int),
{
    let line = log_line_bytes();
    let mut out: Vec<u8> = Vec::new();
    let mut state: u64 = SEED;
    assert(out@ =~= Seq::empty());
    while out.len() < bytes
        invariant
            line@ == log_line(),
            mixed(Seq::empty(), SEED, bytes as nat) == mixed(out@, state, bytes as nat),
        decreases
            if out@.len() >= bytes {
                0
            } else {
                bytes - out@.len()
            },
    {
        state = state ^ (state << 13u64);
        state = state ^ (state >> 7u64);
        state = state ^ (state << 17u64);
        proof {
            lemma_gains(out@.len(), state);
        }
        if out.len() % 64 < 32 {
            push_all(&mut out, line.as_slice());
        } else {
            let noise = little_endian_bytes(state);
            push_all(&mut out, noise.as_slice());
        }
    }
    out.truncate(bytes);
    assert(out@ =~= mixed(Seq::empty(), SEED, bytes as nat).take(bytes as int));
    buffer::from_vec(out)
}

/// The decimal digits of a number, in ASCII.
pub open spec fn ascii_digits(n: nat) -> Seq<u8>
    decreases n,
{
    if n < 10 {
        seq![(48 + n) as u8]
    } else {
        ascii_digits(n / 10).push((48 + n % 10) as u8)
    }
}

fn push_ascii(out: &mut Vec<u8>, n: usize)
    ensures
        final(out)@ == old(out)@ + ascii_digits(n as nat),
    decreases n,
{
    if n >= 10 {
        push_ascii(out, n / 10);
    }
    let digit: u8 = (n % 10) as u8;
    out.push(48 + digit);
    assert(out@ =~= old(out)@ + ascii_digits(n as nat));
}

/// The key of the record with a number.
pub open spec fn key_of(n: nat) -> Seq<u8> {
    seq![0x6bu8] + ascii_digits(n)
}

/// The key of the record with a number: `k`, and the number.
pub fn key(n: usize) -> (bytes: Bytes)
    ensures
        buffer::contents(bytes) == key_of(n as nat),
{
    let mut out: Vec<u8> = Vec::new();
    out.push(0x6b);
    push_ascii(&mut out, n);
    assert(out@ =~= key_of(n as nat));
    buffer::from_vec(out)
}

/// The numbered records of one batch, each with the same value.
pub open spec fn numbered_records(count: nat, value_bytes: nat) -> Seq<batch::Sealed> {
    Seq::new(
        count,
        |i: int|
            batch::Sealed {
                transactional: false,
                control: false,
                partition_leader_epoch: 0,
                producer_id: 1,
                producer_epoch: 0,
                offset: i as i64,
                sequence: i as i32,
                timestamp: 0,
                key: Some(key_of(i as nat)),
                value: Some(Seq::new(value_bytes, |k: int| 0x78u8)),
            },
    )
}

/// One batch of numbered records, uncompressed, as a broker would send it; `None` where
/// it is too large for one.
pub fn encoded_batch(count: usize, value_bytes: usize) -> (bytes: Option<Bytes>)
    requires
        count <= i32::MAX,
    ensures
        ({
            let list = numbered_records(count as nat, value_bytes as nat);
            &&& records::optional_contents(bytes) == if count == 0 {
                Some(Seq::<u8>::empty())
            } else {
                match batch::encoded(list, CompressionCodec::Uncompressed) {
                    Ok(b) => Some(b),
                    Err(_) => None,
                }
            }
            &&& batch::bulk(list, count as nat) <= batch::ORDINARY_BULK ==> bytes is Some
            &&& count > 0 && batch::bulk(list, count as nat) <= batch::ORDINARY_BULK
                ==> batch::reads_back(buffer::contents(bytes->Some_0), list)
        }),
{
    if count == 0 {
        return Some(buffer::from_vec(Vec::new()));
    }
    let ghost list = numbered_records(count as nat, value_bytes as nat);
    let value = payload(value_bytes);
    let mut out: Vec<Outgoing> = Vec::new();
    let mut i: usize = 0;
    while i < count
        invariant
            i <= count <= i32::MAX,
            list == numbered_records(count as nat, value_bytes as nat),
            buffer::contents(value) == Seq::new(value_bytes as nat, |k: int| 0x78u8),
            out@.len() == i,
            forall|k: int| 0 <= k < i ==> (#[trigger] out@[k])@ == list[k],
        decreases count - i,
    {
        out.push(
            Outgoing {
                transactional: false,
                control: false,
                partition_leader_epoch: 0,
                producer_id: 1,
                producer_epoch: 0,
                offset: i as i64,
                sequence: i as i32,
                timestamp: 0,
                key: Some(key(i)),
                value: Some(value.clone()),
            },
        );
        assert(out@[i as int]@ == list[i as int]);
        i = i + 1;
    }
    assert(batch::sealed_of(out@) =~= list);
    match batch::encode(out, CompressionCodec::Uncompressed) {
        Ok(bytes) => Some(bytes),
        Err(_) => None,
    }
}

/// The memory that a process has resident, in kibibytes, from the text of its memory
/// statistics: the second number is in pages of four. Zero where there is none.
pub fn rss_kib(statistics: &str) -> (kib: u64)
    ensures
        kib == match text::second_of(statistics@) {
            Some(word) => match text::parsed(word, u64::MAX as nat) {
                Some(pages) => (pages as u64).wrapping_mul(4),
                None => 0,
            },
            None => 0,
        },
{
    match text::second_word(statistics) {
        Some(word) => match text::parse(word.as_str(), u64::MAX) {
            Some(pages) => pages.wrapping_mul(4),
            None => 0,
        },
        None => 0,
    }
}

/// What is measured: eight partitions, a million records read back, and messages of at most
/// 1.1 million bytes. The records of a batch are numbered from zero, each with its own key
/// and a value of the size asked for, under no transaction.
pub proof fn law_a_measured_batch_is_numbered(count: nat, value_bytes: nat, i: int)
    requires
        0 <= i < count <= i32::MAX,
    ensures
        PARTITIONS == 8,
        CONSUME_RECORDS == 1_000_000,
        MESSAGE_LIMIT == 1_100_000,
        numbered_records(count, value_bytes).len() == count,
        ({
            let r = numbered_records(count, value_bytes)[i];
            &&& r.offset == i
            &&& r.sequence == i
            &&& !r.transactional
            &&& !r.control
            &&& r.key == Some(seq![0x6bu8] + ascii_digits(i as nat))
            &&& r.value matches Some(v)
            &&& v.len() == value_bytes
            &&& forall|k: int| 0 <= k < v.len() ==> (#[trigger] v[k]) == 0x78
        }),
{
}

/// A mixed payload only grows, by whole pieces, and stops as soon as it is long enough: it
/// starts with what it had, and ends less than one piece behind what was asked for.
pub proof fn law_a_mixed_payload_grows_by_pieces(out: Seq<u8>, state: u64, bytes: nat)
    ensures
        mixed(out, state, bytes).len() >= bytes,
        out.len() <= mixed(out, state, bytes).len(),
        mixed(out, state, bytes).take(out.len() as int) == out,
        out.len() < bytes ==> mixed(out, state, bytes).len() < bytes + 53,
        out.len() < bytes && out.len() % 64 < 32 ==> mixed(out, state, bytes).subrange(
            out.len() as int,
            out.len() as int + 53,
        ) == log_line(),
        out.len() < bytes && out.len() % 64 >= 32 ==> mixed(out, state, bytes).subrange(
            out.len() as int,
            out.len() as int + 8,
        ) == little_endian(shifted(state)),
    decreases
        if out.len() >= bytes {
            0
        } else {
            bytes - out.len()
        },
{
    let all = mixed(out, state, bytes);
    if out.len() < bytes {
        let piece = gained(out.len(), shifted(state));
        lemma_gains(out.len(), shifted(state));
        let grown = out + piece;
        law_a_mixed_payload_grows_by_pieces(grown, shifted(state), bytes);
        assert(all.take(grown.len() as int) == grown);
        assert(all.take(out.len() as int) =~= grown.take(out.len() as int));
        assert(grown.take(out.len() as int) =~= out);
        assert(all.subrange(out.len() as int, grown.len() as int) =~= piece) by {
            assert forall|i: int| 0 <= i < piece.len() implies all[out.len() + i]
                == #[trigger] piece[i] by {
                assert(all.take(grown.len() as int)[out.len() + i] == grown[out.len() + i]);
            }
        }
    } else {
        assert(all.take(out.len() as int) =~= out);
    }
}

} // verus!
