//! Administrative requests: enough to create a topic, inspect a cluster and trim a log.
//!
//! Creating, deleting and expanding topics goes to the controller, which moves on
//! election; deleting records goes to the partition's leader, since it moves one log's
//! start.
use crate::client;
use crate::client::{Disposition, Error, Fault};
use crate::fetching;
use crate::group::TopicPartition;
use crate::grouping;
use crate::lookup;
use crate::name_map::NameMap;
use crate::names;
use crate::retry;
use crate::retry::Verdict;
use crate::slots::SlotMap;
use vstd::prelude::*;

verus! {

/// Attempts for a request that may be tried again.
pub const MAX_RETRIES: usize = 20;

/// The wait between them, in milliseconds.
pub const BACKOFF_MS: u64 = 50;

/// The code of a broker that is not the controller.
pub const NOT_CONTROLLER: i16 = 41;

/// A topic to create.
#[derive(Debug)]
pub struct NewTopic {
    pub name: String,
    pub partitions: i32,
    pub replication_factor: i16,
    pub config: NameMap<String>,
}

impl NewTopic {
    pub closed spec fn well_formed(&self) -> bool {
        self.config.well_formed()
    }

    /// The configuration that departs from the broker's defaults.
    pub closed spec fn config(&self) -> Map<Seq<char>, Seq<char>> {
        self.config@.map_values(|v: String| v@)
    }

    /// A topic with the broker's defaults for everything but its shape.
    pub fn new(name: &str, partitions: i32, replication_factor: i16) -> (topic: Self)
        ensures
            topic.well_formed(),
            topic.name@ == name@,
            topic.partitions == partitions,
            topic.replication_factor == replication_factor,
            topic.config() == Map::<Seq<char>, Seq<char>>::empty(),
    {
        let topic = NewTopic {
            name: name.to_owned(),
            partitions,
            replication_factor,
            config: NameMap::new(),
        };
        assert(topic.config() =~= Map::empty());
        topic
    }

    /// The topic with one more setting, as the broker names it.
    pub fn with_config(self, key: &str, value: &str) -> (topic: Self)
        requires
            self.well_formed(),
        ensures
            topic.well_formed(),
            topic.name == self.name,
            topic.partitions == self.partitions,
            topic.replication_factor == self.replication_factor,
            topic.config() == self.config().insert(key@, value@),
    {
        let mut topic = self;
        let ghost before = topic.config();
        topic.config.insert(key, value.to_owned());
        assert(topic.config() =~= before.insert(key@, value@));
        topic
    }

    /// The settings, in the order of their names.
    pub fn configs(&self) -> (list: Vec<(String, String)>)
        requires
            self.well_formed(),
        ensures
            names::lists(setting_names(list@), self.config().dom()),
            forall|i: int|
                0 <= i < list@.len() ==> (#[trigger] list@[i]).1@ == self.config()[list@[i].0@],
    {
        let keys = self.config.names();
        let ghost all = names::names_of(keys@);
        let mut list: Vec<(String, String)> = Vec::new();
        let mut i: usize = 0;
        while i < keys.len()
            invariant
                self.well_formed(),
                i <= keys@.len(),
                all == names::names_of(keys@),
                names::lists(all, self.config@.dom()),
                list@.len() == i,
                forall|k: int|
                    0 <= k < i ==> (#[trigger] list@[k]).0@ == all[k] && list@[k].1@
                        == self.config()[all[k]],
            decreases keys@.len() - i,
        {
            assert(all[i as int] == keys@[i as int]@);
            assert(all.to_set().contains(all[i as int])) by {
                assert(all.contains(all[i as int]));
            }
            let value = match self.config.get(keys[i].as_str()) {
                Some(value) => value.clone(),
                None => String::new(),
            };
            list.push((keys[i].clone(), value));
            i = i + 1;
        }
        proof {
            assert(setting_names(list@) =~= all);
            assert(self.config().dom() =~= self.config@.dom());
        }
        list
    }
}

/// The names of some settings.
pub open spec fn setting_names(list: Seq<(String, String)>) -> Seq<Seq<char>> {
    Seq::new(list.len(), |i: int| list[i].0@)
}

/// One broker, as the cluster describes itself.
#[derive(Debug, PartialEq, Eq)]
pub struct BrokerInfo {
    pub node_id: i32,
    pub host: String,
    pub port: i32,
    pub is_controller: bool,
}

/// Marks the controller among the brokers of a cluster.
pub fn describe_cluster(brokers: Vec<(i32, String, i32)>, controller: Option<i32>) -> (list: Vec<
    BrokerInfo,
>)
    ensures
        list@.len() == brokers@.len(),
        forall|i: int|
            0 <= i < list@.len() ==> {
                let info = #[trigger] list@[i];
                &&& info.node_id == brokers@[i].0
                &&& info.host@ == brokers@[i].1@
                &&& info.port == brokers@[i].2
                &&& info.is_controller == (controller == Some(brokers@[i].0))
            },
{
    let ghost all = brokers@;
    let mut list: Vec<BrokerInfo> = Vec::new();
    for broker in it: brokers
        invariant
            it.seq() == all,
            list@.len() == it.index(),
            forall|i: int|
                0 <= i < list@.len() ==> {
                    let info = #[trigger] list@[i];
                    &&& info.node_id == all[i].0
                    &&& info.host@ == all[i].1@
                    &&& info.port == all[i].2
                    &&& info.is_controller == (controller == Some(all[i].0))
                },
    {
        let is_controller = match controller {
            Some(id) => id == broker.0,
            None => false,
        };
        list.push(
            BrokerInfo { node_id: broker.0, host: broker.1, port: broker.2, is_controller },
        );
    }
    list
}

/// What to do about the controller's answer.
pub open spec fn controller_outcome(
    attempt: usize,
    op: Seq<char>,
    code: i16,
    disposition: Disposition,
) -> retry::Outcome {
    if code == 0 {
        retry::Outcome::Done
    } else if code == NOT_CONTROLLER {
        if attempt + 1 < MAX_RETRIES {
            retry::Outcome::Again(BACKOFF_MS)
        } else {
            retry::Outcome::Fail(BACKOFF_MS, op, NOT_CONTROLLER, Disposition::Retry)
        }
    } else if disposition == Disposition::Retry && attempt + 1 < MAX_RETRIES {
        retry::Outcome::Again(BACKOFF_MS)
    } else {
        retry::Outcome::Fail(0, op, code, disposition)
    }
}

/// Decides over the controller's answer, and says whether the controller is to be
/// forgotten: one that says it is none is not asked again.
pub fn on_controller_answer(
    attempt: usize,
    op: &'static str,
    code: i16,
    disposition: Disposition,
) -> (decided: (Verdict, bool))
    ensures
        decided.0@ == controller_outcome(attempt, op@, code, disposition),
        decided.1 == (code == NOT_CONTROLLER),
{
    if code == 0 {
        return (Verdict::Done, false);
    }
    let more = attempt < MAX_RETRIES - 1;
    if code == NOT_CONTROLLER {
        if more {
            return (Verdict::Again { wait_ms: BACKOFF_MS }, true);
        }
        return (
            Verdict::Fail {
                wait_ms: BACKOFF_MS,
                op,
                code: NOT_CONTROLLER,
                disposition: Disposition::Retry,
            },
            true,
        );
    }
    if disposition == Disposition::Retry && more {
        return (Verdict::Again { wait_ms: BACKOFF_MS }, false);
    }
    (Verdict::Fail { wait_ms: 0, op, code, disposition }, false)
}

/// A controller that moved is waited for until the attempts are used up, however its answer
/// is to be taken otherwise.
pub proof fn law_a_moved_controller_is_waited_for(
    attempt: usize,
    op: Seq<char>,
    disposition: Disposition,
)
    ensures
        controller_outcome(attempt, op, NOT_CONTROLLER, disposition) is Again <==> attempt + 1
            < MAX_RETRIES,
{
}

/// Decides over a cluster that has no controller: an election is a wait and not a
/// failure. `None` says that waiting is over.
pub fn on_no_controller(attempt: usize) -> (wait_ms: Option<u64>)
    ensures
        wait_ms == if attempt + 1 < MAX_RETRIES {
            Some(BACKOFF_MS)
        } else {
            None
        },
{
    if attempt < MAX_RETRIES - 1 {
        Some(BACKOFF_MS)
    } else {
        None
    }
}

/// What to do about a topic whose change was accepted.
#[derive(Debug)]
pub enum Visibility {
    /// It can be used.
    Visible,
    Wait { wait_ms: u64 },
    Failed(Error),
}

/// Decides whether a topic can be used: accepted by the controller and known to the
/// brokers are seconds apart, and a producer that writes in between finds no leader.
pub fn on_visibility(topic: &str, attempt: usize, count: i32, wanted: i32) -> (visibility: Visibility)
    ensures
        match visibility {
            Visibility::Visible => count >= wanted,
            Visibility::Wait { wait_ms } => count < wanted && attempt + 1 < MAX_RETRIES && wait_ms
                == BACKOFF_MS,
            Visibility::Failed(e) => count < wanted && attempt + 1 >= MAX_RETRIES && e@
                == Fault::NoLeader(topic@, -1i32),
        },
{
    if count >= wanted {
        Visibility::Visible
    } else if attempt < MAX_RETRIES - 1 {
        Visibility::Wait { wait_ms: BACKOFF_MS }
    } else {
        Visibility::Failed(Error::NoLeader { topic: topic.to_owned(), partition: -1 })
    }
}

/// Administrative settings.
#[derive(Debug)]
pub struct Admin {
    timeout_ms: i32,
}

/// One topic in a request to create some.
#[derive(Debug)]
pub struct CreatableTopic {
    pub name: String,
    pub partitions: i32,
    pub replication_factor: i16,
    pub configs: Vec<(String, String)>,
}

/// A request to create topics.
#[derive(Debug)]
pub struct CreateTopics {
    pub timeout_ms: i32,
    pub topics: Vec<CreatableTopic>,
}

/// Whether an entry of a request creates a topic.
pub open spec fn creates(entry: CreatableTopic, topic: NewTopic) -> bool {
    &&& entry.name@ == topic.name@
    &&& entry.partitions == topic.partitions
    &&& entry.replication_factor == topic.replication_factor
    &&& names::lists(setting_names(entry.configs@), topic.config().dom())
    &&& forall|i: int|
        0 <= i < entry.configs@.len() ==> (#[trigger] entry.configs@[i]).1@
            == topic.config()[entry.configs@[i].0@]
}

/// A request to delete topics.
#[derive(Debug)]
pub struct DeleteTopics {
    pub timeout_ms: i32,
    pub names: Vec<String>,
}

/// A request to grow a topic to a number of partitions **in total**.
#[derive(Debug)]
pub struct CreatePartitions {
    pub timeout_ms: i32,
    pub topic: String,
    pub count: i32,
    pub validate_only: bool,
}

/// A request to delete the records before some offsets, for one leader.
#[derive(Debug)]
pub struct DeleteRecords {
    pub timeout_ms: i32,
    /// By topic.
    pub topics: Vec<(String, Vec<TrimEntry>)>,
}

/// One partition in a request to delete records.
#[derive(Debug, Clone, Copy, PartialEq, Eq, Structural)]
pub struct TrimEntry {
    pub partition: i32,
    /// The first offset that stays.
    pub offset: i64,
}

/// The entries of a request to delete records.
pub open spec fn trim_entries(before: Seq<((Seq<char>, i32), i64)>) -> Seq<
    (Seq<char>, TrimEntry),
> {
    Seq::new(
        before.len(),
        |i: int| (before[i].0.0, TrimEntry { partition: before[i].0.1, offset: before[i].1 }),
    )
}

impl Admin {
    /// How long the **broker** may take over an operation, in milliseconds.
    pub closed spec fn timeout(&self) -> i32 {
        self.timeout_ms
    }

    /// Thirty seconds for every operation.
    pub fn new() -> (admin: Self)
        ensures
            admin.timeout() == 30_000,
    {
        Admin { timeout_ms: 30_000 }
    }

    /// How long the **broker** may take over an operation before it gives up, in
    /// milliseconds.
    pub fn set_operation_timeout(&mut self, ms: u64)
        ensures
            final(self).timeout() == if ms <= i32::MAX {
                ms as i32
            } else {
                i32::MAX
            },
    {
        self.timeout_ms = if ms <= 0x7fff_ffff {
            ms as i32
        } else {
            i32::MAX
        };
    }

    /// The request that creates topics, `None` where there are none. A topic that exists
    /// already is an error: a caller that never learns of it ends up producing to a topic
    /// with the wrong partition count.
    pub fn create_topics(&self, topics: &Vec<NewTopic>) -> (request: Option<CreateTopics>)
        requires
            forall|i: int| 0 <= i < topics@.len() ==> (#[trigger] topics@[i]).well_formed(),
        ensures
            match request {
                None => topics@.len() == 0,
                Some(r) => {
                    &&& topics@.len() > 0
                    &&& r.timeout_ms == self.timeout()
                    &&& r.topics@.len() == topics@.len()
                    &&& forall|i: int|
                        0 <= i < topics@.len() ==> creates(#[trigger] r.topics@[i], topics@[i])
                },
            },
    {
        if topics.len() == 0 {
            return None;
        }
        let mut entries: Vec<CreatableTopic> = Vec::new();
        let mut i: usize = 0;
        while i < topics.len()
            invariant
                i <= topics@.len(),
                forall|k: int| 0 <= k < topics@.len() ==> (#[trigger] topics@[k]).well_formed(),
                entries@.len() == i,
                forall|k: int| 0 <= k < i ==> creates(#[trigger] entries@[k], topics@[k]),
            decreases topics@.len() - i,
        {
            let topic = &topics[i];
            entries.push(
                CreatableTopic {
                    name: topic.name.clone(),
                    partitions: topic.partitions,
                    replication_factor: topic.replication_factor,
                    configs: topic.configs(),
                },
            );
            i = i + 1;
        }
        Some(CreateTopics { timeout_ms: self.timeout_ms, topics: entries })
    }

    /// The request that deletes topics, `None` where there are none.
    pub fn delete_topics(&self, list: &Vec<String>) -> (request: Option<DeleteTopics>)
        ensures
            match request {
                None => list@.len() == 0,
                Some(r) => list@.len() > 0 && r.timeout_ms == self.timeout() && names::names_of(
                    r.names@,
                ) == names::names_of(list@),
            },
    {
        if list.len() == 0 {
            return None;
        }
        let mut out: Vec<String> = Vec::new();
        let mut i: usize = 0;
        while i < list.len()
            invariant
                i <= list@.len(),
                out@.len() == i,
                forall|k: int| 0 <= k < i ==> (#[trigger] out@[k])@ == list@[k]@,
            decreases list@.len() - i,
        {
            out.push(list[i].clone());
            i = i + 1;
        }
        assert(names::names_of(out@) =~= names::names_of(list@));
        Some(DeleteTopics { timeout_ms: self.timeout_ms, names: out })
    }

    /// The request that grows a topic to `count` partitions **in total**. That changes
    /// where keys land.
    pub fn create_partitions(&self, topic: &str, count: i32) -> (request: CreatePartitions)
        ensures
            request.timeout_ms == self.timeout(),
            request.topic@ == topic@,
            request.count == count,
            !request.validate_only,
    {
        CreatePartitions {
            timeout_ms: self.timeout_ms,
            topic: topic.to_owned(),
            count,
            validate_only: false,
        }
    }

    /// The request that deletes the records **before** some offsets, for their leader.
    pub fn delete_records(&self, before: &Vec<(TopicPartition, i64)>) -> (request: DeleteRecords)
        ensures
            request.timeout_ms == self.timeout(),
            grouping::groups_of(
                trim_entries(fetching::numbered(before@)),
                grouping::group_views(request.topics@),
            ),
    {
        let mut entries: Vec<(String, TrimEntry)> = Vec::new();
        let mut i: usize = 0;
        while i < before.len()
            invariant
                i <= before@.len(),
                entries@.len() == i,
                forall|k: int|
                    0 <= k < i ==> ((#[trigger] entries@[k]).0@, entries@[k].1) == (
                        before@[k].0@.0,
                        TrimEntry { partition: before@[k].0@.1, offset: before@[k].1 },
                    ),
            decreases before@.len() - i,
        {
            entries.push(
                (
                    before[i].0.topic.clone(),
                    TrimEntry { partition: before[i].0.partition, offset: before[i].1 },
                ),
            );
            i = i + 1;
        }
        assert(grouping::entry_views(entries@) =~= trim_entries(fetching::numbered(before@)));
        DeleteRecords { timeout_ms: self.timeout_ms, topics: grouping::grouped(entries) }
    }
}

/// What is trimmed, each with its leader's address.
pub open spec fn led_by(before: Seq<((Seq<char>, i32), i64)>, leaders: Seq<Seq<char>>) -> Seq<
    (Seq<char>, ((Seq<char>, i32), i64)),
> {
    Seq::new(before.len(), |i: int| (leaders[i], before[i]))
}

/// Groups what is trimmed by leader. `leaders` has an address for each partition.
pub fn by_leader(before: &Vec<(TopicPartition, i64)>, leaders: &Vec<String>) -> (groups: Vec<
    (String, Vec<(TopicPartition, i64)>),
>)
    requires
        leaders@.len() == before@.len(),
    ensures
        grouping::groups_of(
            led_by(fetching::numbered(before@), names::names_of(leaders@)),
            lookup::lookups_of(groups@),
        ),
{
    let mut pairs: Vec<(String, (TopicPartition, i64))> = Vec::new();
    let mut i: usize = 0;
    while i < before.len()
        invariant
            i <= before@.len(),
            leaders@.len() == before@.len(),
            pairs@.len() == i,
            forall|k: int|
                0 <= k < i ==> (#[trigger] pairs@[k]).0@ == leaders@[k]@ && pairs@[k].1.0@
                    == before@[k].0@ && pairs@[k].1.1 == before@[k].1,
        decreases before@.len() - i,
    {
        pairs.push((leaders[i].clone(), (before[i].0.clone(), before[i].1)));
        i = i + 1;
    }
    let ghost entries = grouping::entry_views(pairs@);
    let groups = grouping::grouped(pairs);
    proof {
        let f = |w: (TopicPartition, i64)| (w.0@, w.1);
        let found = grouping::group_views(groups@);
        let mapped = led_by(fetching::numbered(before@), names::names_of(leaders@));
        let mapped_groups = lookup::lookups_of(groups@);
        assert forall|k: int| 0 <= k < entries.len() implies #[trigger] mapped[k] == (
            entries[k].0,
            f(entries[k].1),
        ) by {
            assert(pairs@[k].0@ == leaders@[k]@);
        }
        assert forall|g: int| 0 <= g < found.len() implies #[trigger] mapped_groups[g] == (
            found[g].0,
            found[g].1.map_values(f),
        ) by {
            assert(fetching::numbered(groups@[g].1@) =~= groups@[g].1@.map_values(f));
        }
        grouping::lemma_groups_mapped(entries, found, mapped, mapped_groups, f);
    }
    groups
}

/// One partition in an answer to a deletion.
#[derive(Debug)]
pub struct TrimAnswer {
    pub slot: TopicPartition,
    pub code: i16,
    pub disposition: Disposition,
    /// Where the log starts now.
    pub low_watermark: i64,
}

/// The codes of some answers.
pub open spec fn trim_codes(answers: Seq<TrimAnswer>) -> Seq<(i16, Disposition)> {
    Seq::new(answers.len(), |i: int| (answers[i].code, answers[i].disposition))
}

/// Where logs start after the first `n` answers.
pub open spec fn trimmed(
    starts: Map<(Seq<char>, i32), i64>,
    answers: Seq<TrimAnswer>,
    n: nat,
) -> Map<(Seq<char>, i32), i64>
    decreases n,
{
    if n == 0 {
        starts
    } else {
        trimmed(starts, answers, (n - 1) as nat).insert(
            answers[n - 1].slot@,
            answers[n - 1].low_watermark,
        )
    }
}

/// Takes a leader's answer to a deletion: where each log starts now, up to the first
/// refusal.
pub fn on_delete_records(starts: &mut SlotMap<i64>, answers: &[TrimAnswer]) -> (result: Result<
    (),
    Error,
>)
    requires
        old(starts).well_formed(),
    ensures
        final(starts).well_formed(),
        match client::first_refusal(trim_codes(answers@), answers@.len()) {
            None => result is Ok && final(starts)@ == trimmed(
                old(starts)@,
                answers@,
                answers@.len(),
            ),
            Some(i) => result is Err && result->Err_0@ == Fault::Broker(
                "DeleteRecords"@,
                answers@[i].code,
                answers@[i].disposition,
            ) && final(starts)@ == trimmed(old(starts)@, answers@, i as nat),
        },
{
    let ghost codes = trim_codes(answers@);
    let ghost before = starts@;
    let mut i: usize = 0;
    while i < answers.len()
        invariant
            i <= answers@.len(),
            starts.well_formed(),
            before == old(starts)@,
            codes == trim_codes(answers@),
            starts@ == trimmed(before, answers@, i as nat),
            client::first_refusal(codes, i as nat) is None,
        decreases answers@.len() - i,
    {
        let answer = &answers[i];
        assert(codes[i as int] == (answer.code, answer.disposition));
        if answer.code != 0 {
            proof {
                client::lemma_refusal(codes, (i + 1) as nat, codes.len());
            }
            return Err(
                Error::Broker {
                    op: "DeleteRecords",
                    code: answer.code,
                    disposition: answer.disposition,
                },
            );
        }
        starts.insert(answer.slot.topic.as_str(), answer.slot.partition, answer.low_watermark);
        i = i + 1;
    }
    Ok(())
}

/// One resource in an answer about configuration.
#[derive(Debug)]
pub struct ConfigAnswer {
    pub code: i16,
    pub disposition: Disposition,
    pub configs: Vec<(String, Option<String>)>,
}

/// The codes of some answers about configuration.
pub open spec fn config_codes(answers: Seq<ConfigAnswer>) -> Seq<(i16, Disposition)> {
    Seq::new(answers.len(), |i: int| (answers[i].code, answers[i].disposition))
}

/// A configuration with the first `n` settings of a resource in it.
pub open spec fn with_settings(
    known: Map<Seq<char>, Option<Seq<char>>>,
    configs: Seq<(String, Option<String>)>,
    n: nat,
) -> Map<Seq<char>, Option<Seq<char>>>
    decreases n,
{
    if n == 0 {
        known
    } else {
        with_settings(known, configs, (n - 1) as nat).insert(
            configs[n - 1].0@,
            client::optional_text(configs[n - 1].1),
        )
    }
}

/// What the first `n` answers say of the configuration: every setting that the broker
/// reports, a later one over an earlier.
pub open spec fn configuration(answers: Seq<ConfigAnswer>, n: nat) -> Map<
    Seq<char>,
    Option<Seq<char>>,
>
    decreases n,
{
    if n == 0 {
        Map::empty()
    } else {
        with_settings(
            configuration(answers, (n - 1) as nat),
            answers[n - 1].configs@,
            answers[n - 1].configs@.len(),
        )
    }
}

/// What a map of settings stands for.
pub open spec fn settings_of(map: NameMap<Option<String>>) -> Map<Seq<char>, Option<Seq<char>>> {
    map@.map_values(|v: Option<String>| client::optional_text(v))
}

/// What to do about an answer about configuration.
#[derive(Debug)]
pub enum ConfigStep {
    Done(NameMap<Option<String>>),
    Again { wait_ms: u64 },
    Failed(Error),
}

/// Whether a topic may only not have reached the broker yet: it was just created, say.
pub open spec fn unknown_yet(attempt: usize, answers: Seq<ConfigAnswer>) -> bool {
    &&& answers.len() > 0
    &&& answers[0].code != 0
    &&& answers[0].disposition == Disposition::RefreshMetadata
    &&& attempt + 1 < MAX_RETRIES
}

/// Decides over an answer about a topic's effective configuration.
pub fn on_describe_configs(attempt: usize, answers: Vec<ConfigAnswer>) -> (step: ConfigStep)
    ensures
        match step {
            ConfigStep::Again { wait_ms } => unknown_yet(attempt, answers@) && wait_ms
                == BACKOFF_MS,
            ConfigStep::Failed(e) => !unknown_yet(attempt, answers@) && if answers@.len() == 0 {
                e@ == Fault::Missing("a resource"@)
            } else {
                match client::first_refusal(config_codes(answers@), answers@.len()) {
                    None => false,
                    Some(i) => e@ == Fault::Broker(
                        "DescribeConfigs"@,
                        answers@[i].code,
                        answers@[i].disposition,
                    ),
                }
            },
            ConfigStep::Done(map) => {
                &&& !unknown_yet(attempt, answers@)
                &&& answers@.len() > 0
                &&& client::first_refusal(config_codes(answers@), answers@.len()) is None
                &&& map.well_formed()
                &&& settings_of(map) == configuration(answers@, answers@.len())
            },
        },
{
    if answers.len() == 0 {
        return ConfigStep::Failed(Error::Missing("a resource"));
    }
    if answers[0].code != 0 && answers[0].disposition == Disposition::RefreshMetadata && attempt
        < MAX_RETRIES - 1 {
        return ConfigStep::Again { wait_ms: BACKOFF_MS };
    }
    let ghost all = answers@;
    let ghost codes = config_codes(all);
    let mut map: NameMap<Option<String>> = NameMap::new();
    assert(settings_of(map) =~= Map::empty());
    for answer in it: answers
        invariant
            it.seq() == all,
            all == answers@,
            all.len() > 0,
            !unknown_yet(attempt, all),
            codes == config_codes(all),
            client::first_refusal(codes, it.index() as nat) is None,
            map.well_formed(),
            settings_of(map) == configuration(all, it.index() as nat),
    {
        let ghost k = it.index() as int;
        assert(codes[k] == (answer.code, answer.disposition));
        if answer.code != 0 {
            proof {
                client::lemma_refusal(codes, (k + 1) as nat, codes.len());
            }
            return ConfigStep::Failed(
                Error::Broker {
                    op: "DescribeConfigs",
                    code: answer.code,
                    disposition: answer.disposition,
                },
            );
        }
        let ghost known = settings_of(map);
        let ghost configs = answer.configs@;
        for config in inner: answer.configs
            invariant
                inner.seq() == configs,
                map.well_formed(),
                settings_of(map) == with_settings(known, configs, inner.index() as nat),
        {
            let ghost earlier = settings_of(map);
            map.insert(config.0.as_str(), config.1);
            assert(settings_of(map) =~= earlier.insert(
                config.0@,
                client::optional_text(config.1),
            ));
        }
    }
    ConfigStep::Done(map)
}

/// The controller is asked at most twenty times, a twentieth of a second apart: while it
/// moved, and while what is wrong passes by itself. Every other error fails at once, with
/// its own code, and so does the last attempt.
pub proof fn law_the_controller_is_asked_twenty_times(
    attempt: usize,
    op: Seq<char>,
    code: i16,
    disposition: Disposition,
)
    requires
        attempt < 20,
    ensures
        code == 0 ==> controller_outcome(attempt, op, code, disposition) == retry::Outcome::Done,
        attempt < 19 && (code == 41 || (code != 0 && disposition == Disposition::Retry))
            ==> controller_outcome(attempt, op, code, disposition) == retry::Outcome::Again(50),
        attempt == 19 && code == 41 ==> controller_outcome(attempt, op, code, disposition)
            == retry::Outcome::Fail(50, op, 41, Disposition::Retry),
        attempt == 19 && code != 0 && code != 41 ==> controller_outcome(
            attempt,
            op,
            code,
            disposition,
        ) == retry::Outcome::Fail(0, op, code, disposition),
        code != 0 && code != 41 && disposition != Disposition::Retry ==> controller_outcome(
            attempt,
            op,
            code,
            disposition,
        ) == retry::Outcome::Fail(0, op, code, disposition),
        MAX_RETRIES == 20,
        BACKOFF_MS == 50,
        NOT_CONTROLLER == 41,
{
}

/// Each log starts where the leader's answer says, the last where it answered twice; logs
/// that it did not name start where they did.
pub proof fn law_a_log_starts_where_it_was_trimmed(
    starts: Map<(Seq<char>, i32), i64>,
    answers: Seq<TrimAnswer>,
    n: nat,
    slot: (Seq<char>, i32),
)
    requires
        n <= answers.len(),
    ensures
        (forall|j: int| 0 <= j < n ==> (#[trigger] answers[j]).slot@ != slot) ==> trimmed(
            starts,
            answers,
            n,
        ).dom().contains(slot) == starts.dom().contains(slot) && (starts.dom().contains(slot)
            ==> trimmed(starts, answers, n)[slot] == starts[slot]),
    decreases n,
{
    if n > 0 {
        law_a_log_starts_where_it_was_trimmed(starts, answers, (n - 1) as nat, slot);
        if forall|j: int| 0 <= j < n ==> (#[trigger] answers[j]).slot@ != slot {
            assert(answers[n - 1].slot@ != slot);
        }
    }
}

/// Of a log that was trimmed the last answer's start counts.
pub proof fn law_the_last_trim_counts(
    starts: Map<(Seq<char>, i32), i64>,
    answers: Seq<TrimAnswer>,
    n: nat,
    i: int,
)
    requires
        0 <= i < n <= answers.len(),
        forall|j: int| i < j < n ==> (#[trigger] answers[j]).slot@ != answers[i].slot@,
    ensures
        trimmed(starts, answers, n).dom().contains(answers[i].slot@),
        trimmed(starts, answers, n)[answers[i].slot@] == answers[i].low_watermark,
    decreases n,
{
    if i < n - 1 {
        law_the_last_trim_counts(starts, answers, (n - 1) as nat, i);
        assert(answers[n - 1].slot@ != answers[i].slot@);
    }
}

/// A request to trim names each partition under its own topic with the offset that is to be
/// its first, and goes to that partition's own leader.
pub proof fn law_each_log_is_trimmed_at_its_own_offset(
    before: Seq<((Seq<char>, i32), i64)>,
    leaders: Seq<Seq<char>>,
    i: int,
)
    requires
        0 <= i < before.len(),
        leaders.len() == before.len(),
    ensures
        trim_entries(before).len() == before.len(),
        trim_entries(before)[i].0 == before[i].0.0,
        trim_entries(before)[i].1.partition == before[i].0.1,
        trim_entries(before)[i].1.offset == before[i].1,
        led_by(before, leaders).len() == before.len(),
        led_by(before, leaders)[i].0 == leaders[i],
        led_by(before, leaders)[i].1 == before[i],
{
}

/// A resource's settings are all known, the last where one is reported twice, and settings
/// that it does not report stay.
pub proof fn law_every_setting_is_known(
    known: Map<Seq<char>, Option<Seq<char>>>,
    configs: Seq<(String, Option<String>)>,
    n: nat,
    name: Seq<char>,
)
    requires
        n <= configs.len(),
    ensures
        with_settings(known, configs, n).dom().contains(name) <==> known.dom().contains(name)
            || exists|i: int| 0 <= i < n && (#[trigger] configs[i]).0@ == name,
        (forall|j: int| 0 <= j < n ==> (#[trigger] configs[j]).0@ != name) && known.dom().contains(
            name,
        ) ==> with_settings(known, configs, n)[name] == known[name],
    decreases n,
{
    if n > 0 {
        law_every_setting_is_known(known, configs, (n - 1) as nat, name);
        let last = configs[n - 1].0@;
        if last == name {
            assert(configs[n - 1].0@ == name);
        } else if exists|i: int| 0 <= i < n && (#[trigger] configs[i]).0@ == name {
            let i = choose|i: int| 0 <= i < n && (#[trigger] configs[i]).0@ == name;
            assert(0 <= i < n - 1 && configs[i].0@ == name);
        }
        if exists|i: int| 0 <= i < n - 1 && (#[trigger] configs[i]).0@ == name {
            let i = choose|i: int| 0 <= i < n - 1 && (#[trigger] configs[i]).0@ == name;
            assert(0 <= i < n && configs[i].0@ == name);
        }
    }
}

/// A setting has the value that it was last reported with.
pub proof fn law_the_last_report_of_a_setting_counts(
    known: Map<Seq<char>, Option<Seq<char>>>,
    configs: Seq<(String, Option<String>)>,
    n: nat,
    i: int,
)
    requires
        0 <= i < n <= configs.len(),
        forall|j: int| i < j < n ==> (#[trigger] configs[j]).0@ != configs[i].0@,
    ensures
        with_settings(known, configs, n)[configs[i].0@] == match configs[i].1 {
            Some(value) => Some(value@),
            None => None,
        },
    decreases n,
{
    if i < n - 1 {
        law_the_last_report_of_a_setting_counts(known, configs, (n - 1) as nat, i);
        assert(configs[n - 1].0@ != configs[i].0@);
    }
}

/// A broker that does not know the topic yet is asked again, as long as attempts are left;
/// with any other answer, or with none, it is not.
pub proof fn law_an_unknown_topic_is_asked_for_again(attempt: usize, answers: Seq<ConfigAnswer>)
    ensures
        answers.len() == 0 ==> !unknown_yet(attempt, answers),
        attempt >= 19 ==> !unknown_yet(attempt, answers),
        answers.len() > 0 && attempt < 19 ==> (unknown_yet(attempt, answers) <==> answers[0].code
            != 0 && answers[0].disposition == Disposition::RefreshMetadata),
{
}

/// What every answer reports is known: a setting that one of them reports, and that no
/// later one does, is known as that answer reports it.
pub proof fn law_every_answer_counts(answers: Seq<ConfigAnswer>, n: nat, i: int, name: Seq<char>)
    requires
        0 <= i < n <= answers.len(),
        exists|k: int|
            0 <= k < answers[i].configs@.len() && (#[trigger] answers[i].configs@[k]).0@ == name,
        forall|j: int, k: int|
            i < j < n && 0 <= k < answers[j].configs@.len() ==> (
            #[trigger] answers[j].configs@[k]).0@ != name,
    ensures
        configuration(answers, n).dom().contains(name),
        forall|known: Map<Seq<char>, Option<Seq<char>>>|
            configuration(answers, n)[name] == #[trigger] with_settings(
                known,
                answers[i].configs@,
                answers[i].configs@.len(),
            )[name],
    decreases n,
{
    let earlier = configuration(answers, (n - 1) as nat);
    let last = answers[n - 1].configs@;
    law_every_setting_is_known(earlier, last, last.len(), name);
    if i < n - 1 {
        law_every_answer_counts(answers, (n - 1) as nat, i, name);
        assert forall|j: int| 0 <= j < last.len() implies (#[trigger] last[j]).0@ != name by {
            assert(answers[n - 1].configs@[j].0@ != name);
        }
    } else {
        assert forall|known: Map<Seq<char>, Option<Seq<char>>>|
            configuration(answers, n)[name] == #[trigger] with_settings(
                known,
                last,
                last.len(),
            )[name] by {
            lemma_reported(earlier, known, last, last.len(), name);
        }
    }
}

proof fn lemma_reported(
    one: Map<Seq<char>, Option<Seq<char>>>,
    other: Map<Seq<char>, Option<Seq<char>>>,
    configs: Seq<(String, Option<String>)>,
    n: nat,
    name: Seq<char>,
)
    requires
        n <= configs.len(),
        exists|k: int| 0 <= k < n && (#[trigger] configs[k]).0@ == name,
    ensures
        with_settings(one, configs, n)[name] == with_settings(other, configs, n)[name],
    decreases n,
{
    if n > 0 && configs[n - 1].0@ != name {
        let k = choose|k: int| 0 <= k < n && (#[trigger] configs[k]).0@ == name;
        assert(0 <= k < n - 1 && configs[k].0@ == name);
        lemma_reported(one, other, configs, (n - 1) as nat, name);
    }
}

/// A topic is created under its name, with the partitions and the replication that were asked
/// for, and with every setting that it was given, at its value, and no other.
pub proof fn law_a_topic_is_created_as_it_was_described(
    entry: CreatableTopic,
    topic: NewTopic,
    key: Seq<char>,
    value: Seq<char>,
)
    requires
        creates(entry, topic),
    ensures
        entry.name@ == topic.name@,
        entry.partitions == topic.partitions,
        entry.replication_factor == topic.replication_factor,
        (topic.config().dom().contains(key) && topic.config()[key] == value) <==> exists|i: int|
            0 <= i < entry.configs@.len() && (#[trigger] entry.configs@[i]).0@ == key
                && entry.configs@[i].1@ == value,
{
    let list = setting_names(entry.configs@);
    assert(list.to_set().contains(key) == list.contains(key));
    if list.contains(key) {
        let k = choose|k: int| 0 <= k < list.len() && list[k] == key;
        assert(entry.configs@[k].0@ == key);
    }
    assert forall|i: int|
        0 <= i < entry.configs@.len() && (#[trigger] entry.configs@[i]).0@ == key implies list.contains(
        key,
    ) by {
        assert(list[i] == key);
    }
}

} // verus!
