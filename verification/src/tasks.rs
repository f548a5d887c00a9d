//! Task configuration and the provisioning commands of the internal test
//! interface: creating a task, appending an HPKE receiver configuration,
//! answering the endpoint query, and purging all state.

use vstd::prelude::*;
use crate::DapVersion;
use crate::codec::dec_full;
use crate::hpke::{HpkeConfig, HpkeConfigView, HpkeReceiverConfig, copy_bytes};
use crate::messages::{
    Duration, Id, Interval, Time, base64url_decoded, decode_base64url_vec,
};
use crate::store::{BearerToken, KvState, KvView};
use vstd::string::StringExecFns;

verus! {

/// The role a service plays in the protocol.
#[derive(Clone, Copy, Debug, PartialEq, Eq, Structural)]
pub enum DapRole {
    Leader,
    Helper,
}

/// The Prio3 instantiations a task can be configured with.
#[derive(Clone, Copy, Debug, PartialEq, Eq, Structural)]
pub enum Prio3Config {
    Count,
    Sum { bits: u32 },
    SumVec { bits: u32, length: u32, chunk_length: u32 },
    Histogram { length: u32, chunk_length: u32 },
}

/// The VDAF a task runs.
#[derive(Clone, Copy, Debug, PartialEq, Eq, Structural)]
pub enum VdafConfig {
    Prio3(Prio3Config),
}

/// How a task's batches are selected.
#[derive(Clone, Copy, Debug, PartialEq, Eq, Structural)]
pub enum DapQueryConfig {
    TimeInterval,
    FixedSize { max_batch_size: Option<u64> },
}

/// How the task came to exist.
#[derive(Clone, Copy, Debug, PartialEq, Eq, Structural)]
pub enum TaskMethod {
    Unknown,
    Taskprov,
}

impl Default for TaskMethod {
    /// Absent other knowledge, a task's provenance is unknown.
    fn default() -> (r: TaskMethod)
        ensures
            r == TaskMethod::Unknown,
    {
        TaskMethod::Unknown
    }
}

/// A task's configuration: created once, immutable thereafter, expired after
/// `not_after`.
#[derive(Clone, Debug, PartialEq, Eq)]
pub struct DapTaskConfig {
    pub version: DapVersion,
    pub leader_url: String,
    pub helper_url: String,
    pub time_precision: Duration,
    pub not_before: Time,
    pub not_after: Time,
    pub min_batch_size: u64,
    pub query: DapQueryConfig,
    pub vdaf: VdafConfig,
    pub vdaf_verify_key: Vec<u8>,
    pub collector_hpke_config: HpkeConfig,
    pub method: TaskMethod,
    pub num_agg_span_shards: u64,
}

/// The mathematical value of a [`DapTaskConfig`].
pub struct DapTaskConfigView {
    pub version: DapVersion,
    pub leader_url: Seq<char>,
    pub helper_url: Seq<char>,
    pub time_precision: Duration,
    pub not_before: Time,
    pub not_after: Time,
    pub min_batch_size: u64,
    pub query: DapQueryConfig,
    pub vdaf: VdafConfig,
    pub vdaf_verify_key: Seq<u8>,
    pub collector_hpke_config: HpkeConfigView,
    pub method: TaskMethod,
    pub num_agg_span_shards: u64,
}

impl View for DapTaskConfig {
    type V = DapTaskConfigView;

    open spec fn view(&self) -> DapTaskConfigView {
        DapTaskConfigView {
            version: self.version,
            leader_url: self.leader_url@,
            helper_url: self.helper_url@,
            time_precision: self.time_precision,
            not_before: self.not_before,
            not_after: self.not_after,
            min_batch_size: self.min_batch_size,
            query: self.query,
            vdaf: self.vdaf,
            vdaf_verify_key: self.vdaf_verify_key@,
            collector_hpke_config: self.collector_hpke_config@,
            method: self.method,
            num_agg_span_shards: self.num_agg_span_shards,
        }
    }
}

impl DeepView for DapTaskConfig {
    type V = DapTaskConfigView;

    open spec fn deep_view(&self) -> DapTaskConfigView {
        self.view()
    }
}

impl DapTaskConfigView {
    /// The task's timing fields are meaningful and the aggregate span is
    /// sharded at least once.
    pub open spec fn wf(self) -> bool {
        self.time_precision > 0 && self.num_agg_span_shards > 0
    }
}

impl DapTaskConfig {
    /// An owned copy with the same mathematical value.
    pub fn duplicate(&self) -> (r: DapTaskConfig)
        ensures
            r@ == self@,
    {
        DapTaskConfig {
            version: self.version,
            leader_url: self.leader_url.clone(),
            helper_url: self.helper_url.clone(),
            time_precision: self.time_precision,
            not_before: self.not_before,
            not_after: self.not_after,
            min_batch_size: self.min_batch_size,
            query: self.query,
            vdaf: self.vdaf,
            vdaf_verify_key: copy_bytes(&self.vdaf_verify_key),
            collector_hpke_config: self.collector_hpke_config.duplicate(),
            method: self.method,
            num_agg_span_shards: self.num_agg_span_shards,
        }
    }
}

impl Interval {
    /// Whether the batch interval is valid for the task: its start and its
    /// duration align to the task's time precision, and the duration covers at
    /// least one precision unit.
    pub fn is_valid_for(&self, task_config: &DapTaskConfig) -> (r: bool)
        requires
            task_config.time_precision > 0,
        ensures
            r == (self.start % task_config.time_precision == 0 && self.duration
                % task_config.time_precision == 0 && self.duration >= task_config.time_precision),
    {
        if self.start % task_config.time_precision != 0 || self.duration
            % task_config.time_precision != 0 || self.duration < task_config.time_precision {
            return false;
        }
        true
    }
}

/// The VDAFs the test interface can name.
#[derive(Clone, Copy, Debug, PartialEq, Eq, Structural)]
pub enum VdafTypeName {
    Prio3Count,
    Prio3Sum,
    Prio3SumVec,
    Prio3Histogram,
    Unrecognized,
}

/// The VDAF description carried in an add-task command.
#[derive(Clone, Copy, Debug, PartialEq, Eq, Structural)]
pub struct InternalTestVdaf {
    pub typ: VdafTypeName,
    pub bits: Option<u32>,
    pub length: Option<u32>,
    pub chunk_length: Option<u32>,
}

/// The add-task command of the internal test interface.
#[derive(Clone, Debug, PartialEq, Eq)]
pub struct InternalTestAddTask {
    pub task_id: Id,
    pub leader: String,
    pub helper: String,
    pub vdaf: InternalTestVdaf,
    pub leader_authentication_token: String,
    pub collector_authentication_token: Option<String>,
    pub role: DapRole,
    pub vdaf_verify_key: String,
    pub query_type: u8,
    pub min_batch_size: u64,
    pub max_batch_size: Option<u64>,
    pub time_precision: Duration,
    pub collector_hpke_config: String,
    pub task_expiration: Time,
}

/// The endpoint query of the internal test interface.
#[derive(Clone, Copy, Debug, PartialEq, Eq, Structural)]
pub struct InternalTestEndpointForTask {
    pub role: DapRole,
}

/// Why an add-task command is refused. Each variant names the first check that
/// failed, in the order the checks run.
#[derive(Clone, Copy, Debug, PartialEq, Eq, Structural)]
pub enum AddTaskError {
    UnrecognizedVdaf,
    InvalidVerifyKey,
    InvalidHpkeConfig,
    LeaderTokenExists,
    CollectorTokenExists,
    MissingCollectorToken,
    UnexpectedCollectorToken,
    UnexpectedMaxBatchSize,
    UnrecognizedQueryType,
    ConfigExists,
}

/// The VDAF named by an add-task command: each type takes exactly its own
/// parameters, and nothing else is recognized.
pub open spec fn vdaf_config_of(v: InternalTestVdaf) -> Result<VdafConfig, AddTaskError> {
    match (v.typ, v.bits, v.length, v.chunk_length) {
        (VdafTypeName::Prio3Count, Option::None, Option::None, Option::None) => Ok(
            VdafConfig::Prio3(Prio3Config::Count),
        ),
        (VdafTypeName::Prio3Sum, Option::Some(bits), Option::None, Option::None) => Ok(
            VdafConfig::Prio3(Prio3Config::Sum { bits }),
        ),
        (
            VdafTypeName::Prio3SumVec,
            Option::Some(bits),
            Option::Some(length),
            Option::Some(chunk_length),
        ) => Ok(VdafConfig::Prio3(Prio3Config::SumVec { bits, length, chunk_length })),
        (
            VdafTypeName::Prio3Histogram,
            Option::None,
            Option::Some(length),
            Option::Some(chunk_length),
        ) => Ok(VdafConfig::Prio3(Prio3Config::Histogram { length, chunk_length })),
        _ => Err(AddTaskError::UnrecognizedVdaf),
    }
}

/// The query configuration named by an add-task command: a time-interval task
/// takes no maximum batch size, a fixed-size task may carry one, and no other
/// query type is recognized.
pub open spec fn query_config_of(query_type: u8, max_batch_size: Option<u64>) -> Result<
    DapQueryConfig,
    AddTaskError,
> {
    if query_type == 1 {
        match max_batch_size {
            Option::None => Ok(DapQueryConfig::TimeInterval),
            Option::Some(_) => Err(AddTaskError::UnexpectedMaxBatchSize),
        }
    } else if query_type == 2 {
        Ok(DapQueryConfig::FixedSize { max_batch_size })
    } else {
        Err(AddTaskError::UnrecognizedQueryType)
    }
}

/// The collector HPKE configuration named by an add-task command: the URL-safe
/// base64 text must decode, and the bytes must decode in full as a
/// configuration.
pub open spec fn collector_hpke_of(s: Seq<char>) -> Option<HpkeConfigView> {
    match base64url_decoded(s) {
        Option::None => Option::None,
        Option::Some(b) => match dec_full(HpkeConfigView::dec(b)) {
            Ok(c) => Option::Some(c),
            Err(_) => Option::None,
        },
    }
}

/// The task configuration an accepted add-task command creates.
pub open spec fn task_config_of(
    version: DapVersion,
    cmd: InternalTestAddTask,
    now: Time,
    query: DapQueryConfig,
    vdaf: VdafConfig,
    verify_key: Seq<u8>,
    collector_hpke_config: HpkeConfigView,
) -> DapTaskConfigView {
    DapTaskConfigView {
        version,
        leader_url: cmd.leader@,
        helper_url: cmd.helper@,
        time_precision: cmd.time_precision,
        not_before: now,
        not_after: cmd.task_expiration,
        min_batch_size: cmd.min_batch_size,
        query,
        vdaf,
        vdaf_verify_key: verify_key,
        collector_hpke_config,
        method: TaskMethod::Unknown,
        num_agg_span_shards: 4,
    }
}

/// What an add-task command does: the result it returns and the store it
/// leaves behind, given the store it found. The checks run in order: a task
/// that already exists is refused before anything is written, and a failure
/// after a token was created leaves that token in place.
pub open spec fn add_task_outcome(
    o: KvView,
    version: DapVersion,
    cmd: InternalTestAddTask,
    now: Time,
) -> (Result<(), AddTaskError>, KvView) {
    let vdaf = vdaf_config_of(cmd.vdaf);
    let key = base64url_decoded(cmd.vdaf_verify_key@);
    let hpke = collector_hpke_of(cmd.collector_hpke_config@);
    if o.tasks.contains_key(cmd.task_id@) {
        (Err(AddTaskError::ConfigExists), o)
    } else if vdaf is Err {
        (Err(AddTaskError::UnrecognizedVdaf), o)
    } else if key is None {
        (Err(AddTaskError::InvalidVerifyKey), o)
    } else if hpke is None {
        (Err(AddTaskError::InvalidHpkeConfig), o)
    } else if o.leader_tokens.contains_key(cmd.task_id@) {
        (Err(AddTaskError::LeaderTokenExists), o)
    } else {
        let o1 = KvView {
            leader_tokens: o.leader_tokens.insert(
                cmd.task_id@,
                cmd.leader_authentication_token@,
            ),
            ..o
        };
        match (cmd.role, cmd.collector_authentication_token) {
            (DapRole::Leader, Option::Some(token)) => {
                if o1.collector_tokens.contains_key(cmd.task_id@) {
                    (Err(AddTaskError::CollectorTokenExists), o1)
                } else {
                    let o2 = KvView {
                        collector_tokens: o1.collector_tokens.insert(cmd.task_id@, token@),
                        ..o1
                    };
                    add_task_finish(o2, version, cmd, now, key->Some_0, hpke->Some_0)
                }
            },
            (DapRole::Leader, Option::None) => (Err(AddTaskError::MissingCollectorToken), o1),
            (DapRole::Helper, Option::None) => add_task_finish(
                o1,
                version,
                cmd,
                now,
                key->Some_0,
                hpke->Some_0,
            ),
            (DapRole::Helper, Option::Some(_)) => (
                Err(AddTaskError::UnexpectedCollectorToken),
                o1,
            ),
        }
    }
}

/// The tail of an add-task command, after the tokens are in place: parse the
/// query configuration and create the task, exactly once.
pub open spec fn add_task_finish(
    o: KvView,
    version: DapVersion,
    cmd: InternalTestAddTask,
    now: Time,
    verify_key: Seq<u8>,
    collector_hpke_config: HpkeConfigView,
) -> (Result<(), AddTaskError>, KvView) {
    match query_config_of(cmd.query_type, cmd.max_batch_size) {
        Err(e) => (Err(e), o),
        Ok(query) => {
            if o.tasks.contains_key(cmd.task_id@) {
                (Err(AddTaskError::ConfigExists), o)
            } else {
                let task = task_config_of(
                    version,
                    cmd,
                    now,
                    query,
                    vdaf_config_of(cmd.vdaf)->Ok_0,
                    verify_key,
                    collector_hpke_config,
                );
                (Ok(()), KvView { tasks: o.tasks.insert(cmd.task_id@, task), ..o })
            }
        },
    }
}

/// Create a task from an add-task command: refuse a task that already exists,
/// validate the VDAF, the verify key, the collector HPKE configuration and the
/// query type, and create the bearer tokens and the task configuration, each
/// exactly once.
pub fn internal_add_task(
    kv: &mut KvState,
    version: DapVersion,
    cmd: InternalTestAddTask,
    now: Time,
) -> (r: Result<(), AddTaskError>)
    requires
        old(kv).wf(),
    ensures
        final(kv).wf(),
        (r, final(kv)@) == add_task_outcome(old(kv)@, version, cmd, now),
{
    if kv.get_task_config(&cmd.task_id).is_some() {
        return Err(AddTaskError::ConfigExists);
    }
    let vdaf = match (cmd.vdaf.typ, cmd.vdaf.bits, cmd.vdaf.length, cmd.vdaf.chunk_length) {
        (VdafTypeName::Prio3Count, None, None, None) => VdafConfig::Prio3(Prio3Config::Count),
        (VdafTypeName::Prio3Sum, Some(bits), None, None) => VdafConfig::Prio3(
            Prio3Config::Sum { bits },
        ),
        (VdafTypeName::Prio3SumVec, Some(bits), Some(length), Some(chunk_length)) => {
            VdafConfig::Prio3(Prio3Config::SumVec { bits, length, chunk_length })
        },
        (VdafTypeName::Prio3Histogram, None, Some(length), Some(chunk_length)) => {
            VdafConfig::Prio3(Prio3Config::Histogram { length, chunk_length })
        },
        _ => {
            return Err(AddTaskError::UnrecognizedVdaf);
        },
    };
    let vdaf_verify_key = match decode_base64url_vec(cmd.vdaf_verify_key.as_str()) {
        Some(data) => data,
        None => {
            return Err(AddTaskError::InvalidVerifyKey);
        },
    };
    let collector_hpke_config = match decode_base64url_vec(cmd.collector_hpke_config.as_str()) {
        Some(data) => match HpkeConfig::get_decoded(data.as_slice()) {
            Ok(config) => config,
            Err(_) => {
                return Err(AddTaskError::InvalidHpkeConfig);
            },
        },
        None => {
            return Err(AddTaskError::InvalidHpkeConfig);
        },
    };
    let token = BearerToken(cmd.leader_authentication_token.clone());
    if kv.put_if_not_exists_leader_bearer_token(&cmd.task_id, token).is_some() {
        return Err(AddTaskError::LeaderTokenExists);
    }
    match (cmd.role, &cmd.collector_authentication_token) {
        (DapRole::Leader, Some(token_string)) => {
            let token = BearerToken(token_string.clone());
            if kv.put_if_not_exists_collector_bearer_token(&cmd.task_id, token).is_some() {
                return Err(AddTaskError::CollectorTokenExists);
            }
        },
        (DapRole::Leader, None) => {
            return Err(AddTaskError::MissingCollectorToken);
        },
        (DapRole::Helper, None) => {},
        (DapRole::Helper, Some(..)) => {
            return Err(AddTaskError::UnexpectedCollectorToken);
        },
    }
    let query = if cmd.query_type == 1 {
        match cmd.max_batch_size {
            None => DapQueryConfig::TimeInterval,
            Some(..) => {
                return Err(AddTaskError::UnexpectedMaxBatchSize);
            },
        }
    } else if cmd.query_type == 2 {
        DapQueryConfig::FixedSize { max_batch_size: cmd.max_batch_size }
    } else {
        return Err(AddTaskError::UnrecognizedQueryType);
    };
    let task = DapTaskConfig {
        version,
        leader_url: cmd.leader.clone(),
        helper_url: cmd.helper.clone(),
        time_precision: cmd.time_precision,
        not_before: now,
        not_after: cmd.task_expiration,
        min_batch_size: cmd.min_batch_size,
        query,
        vdaf,
        vdaf_verify_key,
        collector_hpke_config,
        method: TaskMethod::Unknown,
        num_agg_span_shards: 4,
    };
    if kv.put_if_not_exists_task_config(&cmd.task_id, task).is_some() {
        return Err(AddTaskError::ConfigExists);
    }
    Ok(())
}

/// Why an add-HPKE-configuration command is refused.
#[derive(Clone, Copy, Debug, PartialEq, Eq, Structural)]
pub enum AddHpkeConfigError {
    IdExists,
}

/// Whether a receiver list already holds a configuration with the given
/// identifier.
pub open spec fn receiver_id_present(list: Seq<crate::hpke::HpkeReceiverConfigView>, id: u8) -> bool {
    exists|i: int| 0 <= i < list.len() && (#[trigger] list[i]).config.id == id
}

/// Append a receiver configuration to a draft's set, refusing a duplicate
/// identifier.
#[verifier::loop_isolation(false)]
pub fn internal_add_hpke_config(
    kv: &mut KvState,
    version: DapVersion,
    new_receiver: HpkeReceiverConfig,
) -> (r: Result<(), AddHpkeConfigError>)
    requires
        old(kv).wf(),
    ensures
        final(kv).wf(),
        ({
            let list = if old(kv)@.hpke_sets.contains_key(version) {
                old(kv)@.hpke_sets[version]
            } else {
                Seq::<crate::hpke::HpkeReceiverConfigView>::empty()
            };
            if receiver_id_present(list, new_receiver@.config.id) {
                r == Err::<(), AddHpkeConfigError>(AddHpkeConfigError::IdExists) && final(kv)@
                    == old(kv)@
            } else {
                r == Ok::<(), AddHpkeConfigError>(()) && final(kv)@ == (KvView {
                    hpke_sets: old(kv)@.hpke_sets.insert(version, list.push(new_receiver@)),
                    ..old(kv)@
                })
            }
        }),
{
    let mut config_list = match kv.get_hpke_receiver_config_set(version) {
        Some(list) => list,
        None => Vec::new(),
    };
    let ghost list0 = config_list.deep_view();
    proof {
        if !old(kv)@.hpke_sets.contains_key(version) {
            assert(config_list.deep_view() =~= Seq::<crate::hpke::HpkeReceiverConfigView>::empty());
        }
    }
    let mut i: usize = 0;
    while i < config_list.len()
        invariant
            list0 == config_list.deep_view(),
            i <= config_list@.len(),
            config_list@.len() == list0.len(),
            forall|j: int| 0 <= j < i ==> (#[trigger] list0[j]).config.id != new_receiver@.config.id,
        decreases config_list@.len() - i,
    {
        proof {
            assert(list0[i as int] == config_list@[i as int]@);
        }
        if config_list[i].config.id == new_receiver.config.id {
            return Err(AddHpkeConfigError::IdExists);
        }
        i = i + 1;
    }
    let ghost before_push = config_list.deep_view();
    config_list.push(new_receiver);
    proof {
        assert(config_list.deep_view() =~= before_push.push(config_list@.last()@));
    }
    kv.put_hpke_receiver_config_set(version, config_list);
    Ok(())
}

/// Why an endpoint query is refused.
#[derive(Clone, Copy, Debug, PartialEq, Eq, Structural)]
pub enum EndpointError {
    RoleMismatch,
    NoBaseUrl,
}

/// The static configuration of one service instance.
#[derive(Clone, Debug, PartialEq, Eq)]
pub struct ServiceConfig {
    pub role: DapRole,
    pub base_path: Option<String>,
}

/// The base path of this service for a draft: the configured base path with
/// the draft's label and a trailing slash appended. The roles must agree, and
/// a base path must be configured.
pub fn internal_endpoint_for_task(
    config: &ServiceConfig,
    version: DapVersion,
    cmd: InternalTestEndpointForTask,
) -> (r: Result<String, EndpointError>)
    ensures
        config.role != cmd.role ==> r == Err::<String, EndpointError>(EndpointError::RoleMismatch),
        config.role == cmd.role ==> match config.base_path {
            None => r == Err::<String, EndpointError>(EndpointError::NoBaseUrl),
            Some(p) => r matches Ok(s) && s@ == p@ + version.spec_label() + "/"@,
        },
{
    if config.role != cmd.role {
        return Err(EndpointError::RoleMismatch);
    }
    match &config.base_path {
        None => Err(EndpointError::NoBaseUrl),
        Some(p) => {
            let mut s = String::new();
            s.append(p.as_str());
            s.append(version.label());
            s.append("/");
            proof {
                assert(s@ =~= p@ + version.spec_label() + "/"@);
            }
            Ok(s)
        },
    }
}

/// Purge all persisted state: every typed prefix and the overrides.
pub fn internal_delete_all(kv: &mut KvState)
    ensures
        final(kv).wf(),
        final(kv)@.tasks == Map::<Seq<u8>, DapTaskConfigView>::empty(),
        final(kv)@.leader_tokens == Map::<Seq<u8>, Seq<char>>::empty(),
        final(kv)@.collector_tokens == Map::<Seq<u8>, Seq<char>>::empty(),
        final(kv)@.hpke_sets == Map::<
            DapVersion,
            Seq<crate::hpke::HpkeReceiverConfigView>,
        >::empty(),
        final(kv)@.skip_replay_protection is None,
{
    kv.delete_all();
}

} // verus!
