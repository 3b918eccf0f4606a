//! Choosing a partition for a keyed record.
//!
//! There is no single default. The Java client hashes a key with murmur2, librdkafka
//! with CRC-32: same key, same topic, different partition. So both are here and the
//! caller chooses. Records without a key go round robin.
use vstd::prelude::*;

verus! {

/// Which hash decides a keyed record's partition.
#[derive(Debug, Clone, Copy, PartialEq, Eq, Structural)]
pub enum Partitioner {
    /// CRC-32, as librdkafka does. The default.
    Crc32,
    /// murmur2, as the Java client does.
    Murmur2,
}

impl Default for Partitioner {
    fn default() -> (partitioner: Self)
        ensures
            partitioner == Partitioner::Crc32,
    {
        Partitioner::Crc32
    }
}

/// One bit of the CRC-32 register's division by the reflected IEEE polynomial.
pub open spec fn crc_bit(crc: u32) -> u32 {
    if crc % 2 == 1 {
        (crc >> 1) ^ 0xEDB8_8320u32
    } else {
        crc >> 1
    }
}

/// `n` bits of it.
pub open spec fn crc_bits(crc: u32, n: nat) -> u32
    decreases n,
{
    if n == 0 {
        crc
    } else {
        crc_bit(crc_bits(crc, (n - 1) as nat))
    }
}

/// The register after the first `n` bytes.
pub open spec fn crc_register(data: Seq<u8>, n: nat) -> u32
    decreases n,
{
    if n == 0 {
        0xFFFF_FFFF
    } else {
        crc_bits(crc_register(data, (n - 1) as nat) ^ (data[n - 1] as u32), 8)
    }
}

/// The CRC-32 of some bytes.
pub open spec fn crc32_of(data: Seq<u8>) -> u32 {
    !crc_register(data, data.len())
}

/// CRC-32 (IEEE 802.3, reflected).
pub fn crc32(data: &[u8]) -> (crc: u32)
    ensures
        crc == crc32_of(data@),
{
    let mut crc: u32 = 0xFFFF_FFFF;
    let mut i: usize = 0;
    while i < data.len()
        invariant
            i <= data@.len(),
            crc == crc_register(data@, i as nat),
        decreases data@.len() - i,
    {
        crc = crc ^ (data[i] as u32);
        let ghost start = crc;
        let mut bit: u8 = 0;
        while bit < 8
            invariant
                bit <= 8,
                crc == crc_bits(start, bit as nat),
            decreases 8 - bit,
        {
            crc = if crc % 2 == 1 {
                (crc >> 1) ^ 0xEDB8_8320u32
            } else {
                crc >> 1
            };
            bit = bit + 1;
        }
        i = i + 1;
    }
    !crc
}

pub const MURMUR_SEED: u32 = 0x9747_b28c;

pub const MURMUR_M: u32 = 0x5bd1_e995;

/// The little-endian 32-bit word at `at`.
pub open spec fn le_word(data: Seq<u8>, at: int) -> u32 {
    (data[at] + data[at + 1] * 0x100 + data[at + 2] * 0x1_0000 + data[at + 3] * 0x100_0000) as u32
}

/// A word, mixed before it goes into the hash.
pub open spec fn mixed(word: u32) -> u32 {
    let k = word.wrapping_mul(MURMUR_M);
    (k ^ (k >> 24)).wrapping_mul(MURMUR_M)
}

/// The hash after the first `n` words.
pub open spec fn murmur_words(data: Seq<u8>, n: nat) -> u32
    decreases n,
{
    if n == 0 {
        MURMUR_SEED ^ (data.len() as u32)
    } else {
        murmur_words(data, (n - 1) as nat).wrapping_mul(MURMUR_M) ^ mixed(
            le_word(data, 4 * (n - 1)),
        )
    }
}

/// The hash after the bytes, up to three, that make no whole word.
pub open spec fn murmur_tail(data: Seq<u8>, h: u32) -> u32 {
    let left = data.len() % 4;
    let at = data.len() - left;
    if left == 0 {
        h
    } else {
        let h = if left == 3 {
            h ^ ((data[at + 2] * 0x1_0000) as u32)
        } else {
            h
        };
        let h = if left >= 2 {
            h ^ ((data[at + 1] * 0x100) as u32)
        } else {
            h
        };
        (h ^ (data[at] as u32)).wrapping_mul(MURMUR_M)
    }
}

/// The 32 bits of the murmur2 hash.
pub open spec fn murmur_bits(data: Seq<u8>) -> u32 {
    let h = murmur_tail(data, murmur_words(data, data.len() / 4));
    let h = (h ^ (h >> 13)).wrapping_mul(MURMUR_M);
    h ^ (h >> 15)
}

/// The murmur2 hash of some bytes, as a signed integer.
pub open spec fn murmur2_of(data: Seq<u8>) -> i32 {
    murmur_bits(data) as i32
}

fn hash_bits(data: &[u8]) -> (bits: u32)
    ensures
        bits == murmur_bits(data@),
{
    let length: usize = data.len();
    let mut h: u32 = MURMUR_SEED ^ (length as u32);
    let blocks: usize = length / 4;
    let mut i: usize = 0;
    while i < blocks
        invariant
            length == data@.len(),
            blocks == length / 4,
            i <= blocks,
            h == murmur_words(data@, i as nat),
        decreases blocks - i,
    {
        let at: usize = i * 4;
        let word: u32 = data[at] as u32 + (data[at + 1] as u32) * 0x100 + (data[at + 2] as u32)
            * 0x1_0000 + (data[at + 3] as u32) * 0x100_0000;
        let k: u32 = word.wrapping_mul(MURMUR_M);
        let k: u32 = (k ^ (k >> 24)).wrapping_mul(MURMUR_M);
        h = h.wrapping_mul(MURMUR_M) ^ k;
        i = i + 1;
    }
    let left: usize = length % 4;
    let at: usize = length - left;
    if left == 3 {
        h = h ^ (data[at + 2] as u32 * 0x1_0000);
    }
    if left >= 2 {
        h = h ^ (data[at + 1] as u32 * 0x100);
    }
    if left >= 1 {
        h = (h ^ (data[at] as u32)).wrapping_mul(MURMUR_M);
    }
    h = (h ^ (h >> 13)).wrapping_mul(MURMUR_M);
    h ^ (h >> 15)
}

/// murmur2, with the seed and the arithmetic of the Java client.
pub fn murmur2(data: &[u8]) -> (hash: i32)
    ensures
        hash == murmur2_of(data@),
{
    hash_bits(data) as i32
}

/// The unsigned number that a key's partition is taken from: for murmur2 the hash
/// without its sign bit.
pub open spec fn key_number(partitioner: Partitioner, key: Seq<u8>) -> u32 {
    match partitioner {
        Partitioner::Crc32 => crc32_of(key),
        Partitioner::Murmur2 => murmur_bits(key) % 0x8000_0000,
    }
}

/// The partition of a record without a key, whose turn it is.
pub open spec fn in_turn(next: u32, count: i32) -> i32 {
    (next as int % count as int) as i32
}

impl Partitioner {
    /// The partition for `key` in a topic with `partition_count` partitions.
    ///
    /// `next` is the round-robin counter for records without a key; it advances only
    /// when it is used. `None` when the count is not positive, as that of a topic
    /// which is still being created: a number off the network is no reason to panic.
    pub fn partition_for(
        self,
        key: Option<&[u8]>,
        partition_count: i32,
        next: &mut u32,
    ) -> (partition: Option<i32>)
        ensures
            partition == if partition_count <= 0 {
                None
            } else {
                match key {
                    Some(key) => Some(
                        (key_number(self, key@) as int % partition_count as int) as i32,
                    ),
                    None => Some(in_turn(*old(next), partition_count)),
                }
            },
            *final(next) == if partition_count > 0 && key is None {
                old(next).wrapping_add(1)
            } else {
                *old(next)
            },
            partition matches Some(p) ==> 0 <= p < partition_count,
            partition is None <==> partition_count <= 0,
            self == Partitioner::Crc32 && key is Some && partition_count > 0 ==> partition == Some(
                (crc32_of(key.unwrap()@) as int % partition_count as int) as i32,
            ),
            self == Partitioner::Murmur2 && key is Some && partition_count > 0 ==> partition
                == Some(
                ((murmur2_of(key.unwrap()@) as int % 0x8000_0000) % partition_count as int) as i32,
            ),
    {
        proof {
            if let Some(key) = key {
                if partition_count > 0 {
                    law_each_partitioner_has_its_own_hash(key@, partition_count);
                }
            }
        }
        if partition_count <= 0 {
            return None;
        }
        let count: u32 = partition_count as u32;
        match key {
            None => {
                let chosen: u32 = *next % count;
                *next = next.wrapping_add(1);
                Some(chosen as i32)
            },
            Some(key) => {
                let number: u32 = match self {
                    Partitioner::Crc32 => crc32(key),
                    Partitioner::Murmur2 => hash_bits(key) % 0x8000_0000,
                };
                Some((number % count) as i32)
            },
        }
    }
}

proof fn lemma_in_turn(start: int, count: int, i: int, j: int)
    requires
        count > 0,
        0 <= i < j < count,
    ensures
        (start + i) % count != (start + j) % count,
{
    let r = (start + i) % count;
    if r == (start + j) % count {
        let a = (start + i) / count;
        let b = (start + j) / count;
        vstd::arithmetic::div_mod::lemma_fundamental_div_mod(start + i, count);
        vstd::arithmetic::div_mod::lemma_fundamental_div_mod(start + j, count);
        assert(false) by (nonlinear_arith)
            requires
                count > 0,
                0 < j - i < count,
                start + i == count * a + r,
                start + j == count * b + r,
        ;
    }
}

/// Over any run of records without a key, as many as there are partitions, the round
/// robin uses every partition, and none of them twice. The counter must not start again
/// from zero in between.
pub proof fn law_null_keys_are_spread(start: u32, count: i32, p: i32)
    requires
        count > 0,
        0 <= p < count,
        start + count <= u32::MAX,
    ensures
        exists|k: int| 0 <= k < count && #[trigger] in_turn((start + k) as u32, count) == p,
        forall|i: int, j: int|
            0 <= i < j < count ==> #[trigger] in_turn((start + i) as u32, count)
                != #[trigger] in_turn((start + j) as u32, count),
{
    let c = count as int;
    let s = start as int % c;
    vstd::arithmetic::div_mod::lemma_fundamental_div_mod(start as int, c);
    vstd::arithmetic::div_mod::lemma_mod_bound(start as int, c);
    let q = start as int / c;
    let k = if p >= s {
        p - s
    } else {
        p - s + c
    };
    let round = if p >= s {
        q
    } else {
        q + 1
    };
    assert(start + k == c * round + p) by (nonlinear_arith)
        requires
            start == c * q + s,
            p >= s ==> k == p - s && round == q,
            p < s ==> k == p - s + c && round == q + 1,
    ;
    vstd::arithmetic::div_mod::lemma_mod_multiples_vanish(round, p as int, c);
    vstd::arithmetic::div_mod::lemma_small_mod(p as nat, c as nat);
    assert(in_turn((start + k) as u32, count) == p);
    assert forall|i: int, j: int| 0 <= i < j < count implies #[trigger] in_turn(
        (start + i) as u32,
        count,
    ) != #[trigger] in_turn((start + j) as u32, count) by {
        lemma_in_turn(start as int, c, i, j);
        vstd::arithmetic::div_mod::lemma_mod_bound(start + i, c);
        vstd::arithmetic::div_mod::lemma_mod_bound(start + j, c);
    }
}

proof fn lemma_without_sign(bits: u32)
    ensures
        bits as int % 0x8000_0000 == (bits as i32) as int % 0x8000_0000,
{
    let signed = bits as i32;
    assert(signed < 0 ==> bits % 0x8000_0000 == signed + 0x8000_0000) by (bit_vector)
        requires
            signed == bits as i32,
    ;
    assert(signed >= 0 ==> bits == signed) by (bit_vector)
        requires
            signed == bits as i32,
    ;
}

/// Which hash a partitioner goes by: the CRC-32 of the key as an unsigned number, as
/// librdkafka has it, or the murmur2 hash of the key without its sign bit, as the Java
/// client has it. The partition is the remainder by the number of partitions.
pub proof fn law_each_partitioner_has_its_own_hash(key: Seq<u8>, count: i32)
    requires
        count > 0,
    ensures
        key_number(Partitioner::Crc32, key) as int % count as int == crc32_of(key) as int
            % count as int,
        key_number(Partitioner::Murmur2, key) as int % count as int == (murmur2_of(key) as int
            % 0x8000_0000) % count as int,
{
    lemma_without_sign(murmur_bits(key));
}

/// The bytes that make no whole word count as a word of which the rest is zero: a key of one
/// or two such bytes ends as it would with a zero byte behind them, so that every length of
/// tail is treated alike. Without such bytes nothing is added.
pub proof fn law_a_short_tail_counts_as_if_filled_up(data: Seq<u8>, h: u32)
    ensures
        data.len() % 4 == 0 ==> murmur_tail(data, h) == h,
        data.len() % 4 == 1 || data.len() % 4 == 2 ==> murmur_tail(data, h) == murmur_tail(
            data.push(0),
            h,
        ),
        data.len() % 4 == 3 ==> ({
            let at = data.len() - 3;
            murmur_tail(data, h) == (h ^ ((data[at + 2] * 0x1_0000) as u32) ^ ((data[at + 1]
                * 0x100) as u32) ^ (data[at] as u32)).wrapping_mul(0x5bd1_e995)
        }),
{
    let longer = data.push(0);
    let left = data.len() % 4;
    let at = data.len() - left;
    assert(h ^ 0u32 == h) by (bit_vector);
    assert forall|i: int| 0 <= i < data.len() implies longer[i] == data[i] by {}
    assert(longer[data.len() as int] == 0);
    if left == 1 || left == 2 {
        assert(longer.len() % 4 == left + 1);
        assert(longer.len() - longer.len() % 4 == at);
    }
}

proof fn lemma_same_register(a: Seq<u8>, b: Seq<u8>, n: nat)
    requires
        n <= a.len(),
        n <= b.len(),
        forall|i: int| 0 <= i < n ==> (#[trigger] a[i]) == b[i],
    ensures
        crc_register(a, n) == crc_register(b, n),
    decreases n,
{
    if n > 0 {
        lemma_same_register(a, b, (n - 1) as nat);
        assert(a[n - 1] == b[n - 1]);
    }
}

/// A checksum goes on byte by byte: each byte goes into the low end of the register, of which
/// eight bits are then divided off by the reflected polynomial. Two keys with the same
/// checksum have the same one with the same byte behind them.
pub proof fn law_a_checksum_goes_on_byte_by_byte(data: Seq<u8>, other: Seq<u8>, byte: u8, crc: u32)
    ensures
        crc32_of(data.push(byte)) == !crc_bits(!crc32_of(data) ^ (byte as u32), 8),
        crc32_of(data) == crc32_of(other) ==> crc32_of(data.push(byte)) == crc32_of(
            other.push(byte),
        ),
        crc % 2 == 0 ==> crc_bit(crc) == crc / 2,
        crc % 2 == 1 ==> crc_bit(crc) == (crc / 2) ^ 0xEDB8_8320u32,
{
    lemma_same_register(data, data.push(byte), data.len());
    lemma_same_register(other, other.push(byte), other.len());
    let a = crc_register(data, data.len());
    let b = crc_register(other, other.len());
    assert(!(!a) == a) by (bit_vector);
    assert(!(!b) == b) by (bit_vector);
    assert(crc >> 1 == crc / 2) by (bit_vector);
}

/// Each whole word of a key is mixed in alike, wherever it stands and however long the key is:
/// the hash so far times the multiplier, combined with the mixed word.
pub proof fn law_every_word_is_mixed_in_alike(a: Seq<u8>, b: Seq<u8>, i: nat, j: nat)
    requires
        4 * i + 4 <= a.len(),
        4 * j + 4 <= b.len(),
        murmur_words(a, i) == murmur_words(b, j),
        forall|k: int| 0 <= k < 4 ==> a[4 * i + k] == #[trigger] b[4 * j + k],
    ensures
        murmur_words(a, i + 1) == murmur_words(b, j + 1),
        murmur_words(a, 0) == 0x9747_b28cu32 ^ (a.len() as u32),
{
    let p = 4 * i as int;
    let q = 4 * j as int;
    assert(a[p + 0] == b[q + 0]);
    assert(a[p + 1] == b[q + 1]);
    assert(a[p + 2] == b[q + 2]);
    assert(a[p + 3] == b[q + 3]);
    assert(le_word(a, p) == le_word(b, q));
}

/// A word is read with its lowest byte first: a byte counts 256 times as much as the one
/// before it, and nothing but the four bytes counts.
pub proof fn law_a_word_has_its_lowest_byte_first(data: Seq<u8>, at: int)
    requires
        0 <= at,
        at + 4 <= data.len(),
    ensures
        le_word(data, at) == data[at] + 256 * (data[at + 1] + 256 * (data[at + 2] + 256 * data[at
            + 3])),
{
}

} // verus!
