use daphne::DapVersion;
use daphne::aggregate::TransitionFailure;
use daphne::hpke::{HpkeAeadId, HpkeConfig, HpkeKdfId, HpkeKemId, HpkeReceiverConfig};
use daphne::messages::{Id, Interval, Nonce};
use daphne::roles::{
    DapAbort, ReplayCache, ReplayProtection, StorageError, batch_bucket, check_batch_size,
    check_report_time, fetch_replay_protection_override, resolve_replay_protection,
};
use daphne::store::{BearerToken, KvState};
use daphne::tasks::{
    AddHpkeConfigError, AddTaskError, DapQueryConfig, DapRole, DapTaskConfig,
    InternalTestAddTask, InternalTestEndpointForTask, InternalTestVdaf, Prio3Config,
    ServiceConfig, TaskMethod, VdafConfig, VdafTypeName, internal_add_hpke_config,
    internal_add_task, internal_delete_all, internal_endpoint_for_task,
};

fn example_collector_hpke_config() -> HpkeConfig {
    HpkeConfig {
        id: 23,
        kem_id: HpkeKemId::X25519HkdfSha256,
        kdf_id: HpkeKdfId::HkdfSha256,
        aead_id: HpkeAeadId::Aes128Gcm,
        public_key: vec![9; 32],
    }
}

fn example_add_task_cmd(now: u64) -> InternalTestAddTask {
    let collector_hpke_config = base64::encode_config(
        example_collector_hpke_config().get_encoded().unwrap(),
        base64::URL_SAFE_NO_PAD,
    );
    InternalTestAddTask {
        task_id: Id(vec![0x01; 32]),
        leader: String::from("http://localhost:8787/v09"),
        helper: String::from("http://localhost:8788/v09"),
        vdaf: InternalTestVdaf {
            typ: VdafTypeName::Prio3Sum,
            bits: Some(8),
            length: None,
            chunk_length: None,
        },
        leader_authentication_token: String::from("I-am-the-leader"),
        collector_authentication_token: Some(String::from("I-am-the-collector")),
        role: DapRole::Leader,
        vdaf_verify_key: String::from("BwcHBwcHBwcHBwcHBwcHBw"),
        query_type: 2,
        min_batch_size: 1,
        max_batch_size: Some(12),
        time_precision: 3600,
        collector_hpke_config,
        task_expiration: now + 604_800,
    }
}

#[test]
fn add_task_happy_path() {
    let now = 1_700_000_000;
    let mut kv = KvState::new();
    let cmd = example_add_task_cmd(now);
    assert_eq!(internal_add_task(&mut kv, DapVersion::Draft07, cmd.clone(), now), Ok(()));

    let task = kv.get_task_config(&Id(vec![0x01; 32])).unwrap();
    assert_eq!(task.version, DapVersion::Draft07);
    assert_eq!(task.leader_url, "http://localhost:8787/v09");
    assert_eq!(task.helper_url, "http://localhost:8788/v09");
    assert_eq!(task.time_precision, 3600);
    assert_eq!(task.not_before, now);
    assert_eq!(task.not_after, now + 604_800);
    assert_eq!(task.min_batch_size, 1);
    assert_eq!(task.query, DapQueryConfig::FixedSize { max_batch_size: Some(12) });
    assert_eq!(task.vdaf, VdafConfig::Prio3(Prio3Config::Sum { bits: 8 }));
    // The verify key was URL-safe base64; the stored value is its bytes.
    assert_eq!(task.vdaf_verify_key, vec![7; 16]);
    assert_eq!(task.collector_hpke_config, example_collector_hpke_config());
    assert_eq!(task.method, TaskMethod::Unknown);
    assert_eq!(task.num_agg_span_shards, 4);

    // A second call with the same task identifier reports the existing config.
    let again = internal_add_task(&mut kv, DapVersion::Draft07, cmd, now);
    assert_eq!(again, Err(AddTaskError::ConfigExists));
}

#[test]
fn add_task_rejects_bad_inputs() {
    let now = 1_700_000_000;

    // An unrecognized VDAF.
    let mut kv = KvState::new();
    let mut cmd = example_add_task_cmd(now);
    cmd.vdaf.typ = VdafTypeName::Unrecognized;
    assert_eq!(
        internal_add_task(&mut kv, DapVersion::Draft07, cmd, now),
        Err(AddTaskError::UnrecognizedVdaf)
    );

    // A VDAF with the wrong parameters for its type.
    let mut kv = KvState::new();
    let mut cmd = example_add_task_cmd(now);
    cmd.vdaf.bits = None;
    assert_eq!(
        internal_add_task(&mut kv, DapVersion::Draft07, cmd, now),
        Err(AddTaskError::UnrecognizedVdaf)
    );

    // A verify key that is not URL-safe base64.
    let mut kv = KvState::new();
    let mut cmd = example_add_task_cmd(now);
    cmd.vdaf_verify_key = String::from("!!not-base64!!");
    assert_eq!(
        internal_add_task(&mut kv, DapVersion::Draft07, cmd, now),
        Err(AddTaskError::InvalidVerifyKey)
    );

    // A collector HPKE configuration whose bytes do not decode.
    let mut kv = KvState::new();
    let mut cmd = example_add_task_cmd(now);
    cmd.collector_hpke_config = String::from("AAAA");
    assert_eq!(
        internal_add_task(&mut kv, DapVersion::Draft07, cmd, now),
        Err(AddTaskError::InvalidHpkeConfig)
    );

    // A Leader without a collector token.
    let mut kv = KvState::new();
    let mut cmd = example_add_task_cmd(now);
    cmd.collector_authentication_token = None;
    assert_eq!(
        internal_add_task(&mut kv, DapVersion::Draft07, cmd, now),
        Err(AddTaskError::MissingCollectorToken)
    );

    // A Helper with a collector token.
    let mut kv = KvState::new();
    let mut cmd = example_add_task_cmd(now);
    cmd.role = DapRole::Helper;
    assert_eq!(
        internal_add_task(&mut kv, DapVersion::Draft07, cmd, now),
        Err(AddTaskError::UnexpectedCollectorToken)
    );

    // A time-interval task with a maximum batch size.
    let mut kv = KvState::new();
    let mut cmd = example_add_task_cmd(now);
    cmd.query_type = 1;
    assert_eq!(
        internal_add_task(&mut kv, DapVersion::Draft07, cmd, now),
        Err(AddTaskError::UnexpectedMaxBatchSize)
    );

    // An unrecognized query type.
    let mut kv = KvState::new();
    let mut cmd = example_add_task_cmd(now);
    cmd.query_type = 3;
    assert_eq!(
        internal_add_task(&mut kv, DapVersion::Draft07, cmd, now),
        Err(AddTaskError::UnrecognizedQueryType)
    );
}

#[test]
fn put_if_not_exists_creates_exactly_once() {
    let now = 1_700_000_000;
    let mut kv = KvState::new();
    let cmd = example_add_task_cmd(now);
    let task = DapTaskConfig {
        version: DapVersion::Draft07,
        leader_url: cmd.leader.clone(),
        helper_url: cmd.helper.clone(),
        time_precision: 3600,
        not_before: now,
        not_after: now + 604_800,
        min_batch_size: 1,
        query: DapQueryConfig::FixedSize { max_batch_size: Some(12) },
        vdaf: VdafConfig::Prio3(Prio3Config::Sum { bits: 8 }),
        vdaf_verify_key: vec![7; 16],
        collector_hpke_config: example_collector_hpke_config(),
        method: TaskMethod::Unknown,
        num_agg_span_shards: 4,
    };
    let task_id = Id(vec![0x01; 32]);
    // The first creation succeeds; every later attempt reports the existing
    // value and changes nothing.
    assert!(kv.put_if_not_exists_task_config(&task_id, task.duplicate()).is_none());
    let existing = kv.put_if_not_exists_task_config(&task_id, task.duplicate()).unwrap();
    assert_eq!(existing, task);
    let existing = kv.put_if_not_exists_task_config(&task_id, task.duplicate()).unwrap();
    assert_eq!(existing, task);

    assert!(kv
        .put_if_not_exists_leader_bearer_token(&task_id, BearerToken(String::from("token-a")))
        .is_none());
    let existing = kv
        .put_if_not_exists_leader_bearer_token(&task_id, BearerToken(String::from("token-b")))
        .unwrap();
    assert_eq!(existing, BearerToken(String::from("token-a")));
}

#[test]
fn add_hpke_config_rejects_duplicate_id() {
    let mut kv = KvState::new();
    let receiver = HpkeReceiverConfig {
        config: example_collector_hpke_config(),
        private_key: vec![1; 32],
    };
    assert_eq!(internal_add_hpke_config(&mut kv, DapVersion::Draft07, receiver.clone()), Ok(()));
    assert_eq!(
        internal_add_hpke_config(&mut kv, DapVersion::Draft07, receiver.clone()),
        Err(AddHpkeConfigError::IdExists)
    );
    // The same identifier is fine under another draft's set.
    assert_eq!(internal_add_hpke_config(&mut kv, DapVersion::Draft02, receiver), Ok(()));
    assert_eq!(kv.get_hpke_receiver_config_set(DapVersion::Draft07).unwrap().len(), 1);
}

#[test]
fn endpoint_for_task() {
    let config = ServiceConfig {
        role: DapRole::Leader,
        base_path: Some(String::from("/prefix/")),
    };
    assert_eq!(
        internal_endpoint_for_task(
            &config,
            DapVersion::Draft07,
            InternalTestEndpointForTask { role: DapRole::Leader }
        ),
        Ok(String::from("/prefix/v07/"))
    );
    assert!(internal_endpoint_for_task(
        &config,
        DapVersion::Draft07,
        InternalTestEndpointForTask { role: DapRole::Helper }
    )
    .is_err());
}

#[test]
fn delete_all_purges_state() {
    let now = 1_700_000_000;
    let mut kv = KvState::new();
    let cmd = example_add_task_cmd(now);
    assert_eq!(internal_add_task(&mut kv, DapVersion::Draft07, cmd, now), Ok(()));
    internal_delete_all(&mut kv);
    assert!(kv.get_task_config(&Id(vec![0x01; 32])).is_none());
    assert!(kv.get_hpke_receiver_config_set(DapVersion::Draft07).is_none());
    assert!(kv.get_skip_replay_protection().is_none());
}

#[test]
fn replay_override_missing_resolves_to_enabled() {
    // With no override key present, the resolver returns Enabled and no error
    // surfaces upstream.
    let kv = KvState::new();
    assert_eq!(fetch_replay_protection_override(&kv), ReplayProtection::Enabled);
    assert_eq!(resolve_replay_protection(&Ok(None)), ReplayProtection::Enabled);
}

#[test]
fn replay_override_failure_resolves_to_enabled() {
    // A failed read leaves replay protection enabled.
    assert_eq!(resolve_replay_protection(&Err(StorageError)), ReplayProtection::Enabled);
    // So does an explicit false.
    assert_eq!(resolve_replay_protection(&Ok(Some(false))), ReplayProtection::Enabled);
    // Only an explicit true disables it.
    assert_eq!(
        resolve_replay_protection(&Ok(Some(true))),
        ReplayProtection::InsecureDisabled
    );
    let mut kv = KvState::new();
    kv.put_skip_replay_protection(true);
    assert_eq!(fetch_replay_protection_override(&kv), ReplayProtection::InsecureDisabled);
}

#[test]
fn replay_protection_rejects_second_report() {
    let mut cache = ReplayCache::new();
    let task_id = Id(vec![0x01; 32]);
    let nonce = Nonce(vec![0x02; 16]);
    assert_eq!(cache.check_replay(&task_id, &nonce, ReplayProtection::Enabled), Ok(()));
    cache.mark_finished(Id(vec![0x01; 32]), Nonce(vec![0x02; 16]));
    assert_eq!(
        cache.check_replay(&task_id, &nonce, ReplayProtection::Enabled),
        Err(TransitionFailure::ReportReplayed)
    );
    // A different nonce under the same task still passes.
    assert_eq!(
        cache.check_replay(&task_id, &Nonce(vec![0x03; 16]), ReplayProtection::Enabled),
        Ok(())
    );
    // With the override in force, even the replayed pair passes.
    assert_eq!(
        cache.check_replay(&task_id, &nonce, ReplayProtection::InsecureDisabled),
        Ok(())
    );
}

fn example_task(min_batch_size: u64) -> DapTaskConfig {
    DapTaskConfig {
        version: DapVersion::Draft07,
        leader_url: String::from("http://localhost:8787/"),
        helper_url: String::from("http://localhost:8788/"),
        time_precision: 3600,
        not_before: 1_700_000_000,
        not_after: 1_700_604_800,
        min_batch_size,
        query: DapQueryConfig::TimeInterval,
        vdaf: VdafConfig::Prio3(Prio3Config::Count),
        vdaf_verify_key: vec![7; 16],
        collector_hpke_config: example_collector_hpke_config(),
        method: TaskMethod::Unknown,
        num_agg_span_shards: 4,
    }
}

#[test]
fn interval_validity() {
    let task = example_task(100);
    assert!(Interval { start: 0, duration: 3600 }.is_valid_for(&task));
    assert!(!Interval { start: 0, duration: 1800 }.is_valid_for(&task));
    assert!(!Interval { start: 1800, duration: 3600 }.is_valid_for(&task));
    assert!(Interval { start: 7200, duration: 7200 }.is_valid_for(&task));
}

#[test]
fn collect_too_small_batch_is_invalid() {
    // A collect request against a batch below the task's minimum is refused.
    let task = example_task(100);
    assert_eq!(check_batch_size(99, &task), Err(DapAbort::BatchInvalid));
    assert_eq!(check_batch_size(100, &task), Ok(()));
    assert_eq!(check_batch_size(101, &task), Ok(()));
}

#[test]
fn report_time_window() {
    let task = example_task(1);
    assert_eq!(check_report_time(1_700_000_000, &task), Ok(()));
    assert_eq!(check_report_time(1_699_999_999, &task), Err(DapAbort::ReportTooLate));
    assert_eq!(check_report_time(1_700_604_801, &task), Err(DapAbort::ReportTooLate));
}

#[test]
fn batch_bucket_rounds_down() {
    assert_eq!(batch_bucket(1_700_001_234, 3600), 1_699_999_200);
    assert_eq!(batch_bucket(0, 3600), 0);
    assert_eq!(batch_bucket(3599, 3600), 0);
    assert_eq!(batch_bucket(3600, 3600), 3600);
}
