//! An in-process model of the typed, namespaced key-value surface that the
//! Aggregators keep their configuration in.
//!
//! Each typed prefix is a map from a key to a value; creation goes through
//! `put_if_not_exists`, which returns the existing value on conflict and never
//! overwrites. The store is modeled as association lists with unique keys; the
//! contracts speak of the maps they denote.

use vstd::prelude::*;
use crate::DapVersion;
use crate::hpke::{HpkeReceiverConfig, HpkeReceiverConfigView, duplicate_receiver_configs};
use crate::messages::{Id, constant_time_eq};
use crate::tasks::{DapTaskConfig, DapTaskConfigView};
use vstd::pervasive::VecAdditionalExecFns;

verus! {

/// An opaque bearer token.
#[derive(Clone, Debug, PartialEq, Eq)]
pub struct BearerToken(pub String);

impl View for BearerToken {
    type V = Seq<char>;

    open spec fn view(&self) -> Seq<char> {
        self.0@
    }
}

impl DeepView for BearerToken {
    type V = Seq<char>;

    open spec fn deep_view(&self) -> Seq<char> {
        self.0@
    }
}

impl BearerToken {
    /// An owned copy with the same text.
    pub fn duplicate(&self) -> (r: BearerToken)
        ensures
            r@ == self@,
    {
        BearerToken(self.0.clone())
    }
}

/// The map denoted by an association list keyed by identifiers: later entries
/// win, though the store keeps its keys unique.
pub open spec fn id_map<V: DeepView>(entries: Seq<(Id, V)>) -> Map<Seq<u8>, V::V>
    decreases entries.len(),
{
    if entries.len() == 0 {
        Map::empty()
    } else {
        id_map(entries.drop_last()).insert(entries.last().0@, entries.last().1.deep_view())
    }
}

/// Whether an association list holds each key at most once.
pub open spec fn id_keys_unique<V>(entries: Seq<(Id, V)>) -> bool {
    forall|i: int, j: int|
        0 <= i < j < entries.len() ==> (#[trigger] entries[i]).0@ != (#[trigger] entries[j]).0@
}

pub proof fn lemma_id_map_contains<V: DeepView>(entries: Seq<(Id, V)>, k: Seq<u8>)
    ensures
        id_map(entries).contains_key(k) <==> (exists|i: int|
            0 <= i < entries.len() && (#[trigger] entries[i]).0@ == k),
    decreases entries.len(),
{
    if entries.len() > 0 {
        lemma_id_map_contains(entries.drop_last(), k);
        if entries.last().0@ == k {
            assert(entries[entries.len() - 1].0@ == k);
        } else {
            if exists|i: int| 0 <= i < entries.len() - 1 && (#[trigger] entries.drop_last()[i]).0@
                == k {
                let i = choose|i: int|
                    0 <= i < entries.len() - 1 && (#[trigger] entries.drop_last()[i]).0@ == k;
                assert(entries[i].0@ == k);
            }
            if exists|i: int| 0 <= i < entries.len() && (#[trigger] entries[i]).0@ == k {
                let i = choose|i: int| 0 <= i < entries.len() && (#[trigger] entries[i]).0@ == k;
                assert(entries.drop_last()[i].0@ == k);
            }
        }
    }
}

pub proof fn lemma_id_map_value<V: DeepView>(entries: Seq<(Id, V)>, i: int)
    requires
        id_keys_unique(entries),
        0 <= i < entries.len(),
    ensures
        id_map(entries).contains_key(entries[i].0@),
        id_map(entries)[entries[i].0@] == entries[i].1.deep_view(),
    decreases entries.len(),
{
    if i == entries.len() - 1 {
    } else {
        assert(id_keys_unique(entries.drop_last())) by {
            assert(forall|a: int, b: int|
                0 <= a < b < entries.len() - 1 ==> (#[trigger] entries.drop_last()[a]).0@ != (
                #[trigger] entries.drop_last()[b]).0@) by {
                assert(forall|a: int|
                    0 <= a < entries.len() - 1 ==> (#[trigger] entries.drop_last()[a]) == entries[
                    a]);
            }
        }
        assert(entries.drop_last()[i] == entries[i]);
        lemma_id_map_value(entries.drop_last(), i);
        assert(entries[i].0@ != entries.last().0@);
    }
}

pub proof fn lemma_id_map_push<V: DeepView>(entries: Seq<(Id, V)>, id: Id, v: V)
    ensures
        id_map(entries.push((id, v))) == id_map(entries).insert(id@, v.deep_view()),
{
    assert(entries.push((id, v)).drop_last() =~= entries);
    assert(entries.push((id, v)).last() == (id, v));
}

/// The outcome of an atomic create: the existing value on conflict, with the
/// map unchanged; otherwise no conflict, and the value is bound to the key.
pub open spec fn put_if_not_exists_outcome<V>(m: Map<Seq<u8>, V>, k: Seq<u8>, v: V) -> (
    Option<V>,
    Map<Seq<u8>, V>,
) {
    if m.contains_key(k) {
        (Some(m[k]), m)
    } else {
        (None, m.insert(k, v))
    }
}

/// How many of a sequence of creation attempts on one key succeed, when the
/// attempts are applied in order.
pub open spec fn count_create_successes<V>(m: Map<Seq<u8>, V>, k: Seq<u8>, vs: Seq<V>) -> nat
    decreases vs.len(),
{
    if vs.len() == 0 {
        0
    } else {
        let (r, m1) = put_if_not_exists_outcome(m, k, vs[0]);
        (if r is None {
            1nat
        } else {
            0nat
        }) + count_create_successes(m1, k, vs.skip(1))
    }
}

proof fn lemma_no_success_when_present<V>(m: Map<Seq<u8>, V>, k: Seq<u8>, vs: Seq<V>)
    requires
        m.contains_key(k),
    ensures
        count_create_successes(m, k, vs) == 0,
    decreases vs.len(),
{
    if vs.len() > 0 {
        lemma_no_success_when_present(m, k, vs.skip(1));
    }
}

/// Task creation linearizes: however many callers race to create the same key
/// in a store that lacks it, exactly one succeeds and the others see the
/// conflict.
pub proof fn law_task_create_once<V>(m: Map<Seq<u8>, V>, k: Seq<u8>, vs: Seq<V>)
    requires
        !m.contains_key(k),
        vs.len() > 0,
    ensures
        count_create_successes(m, k, vs) == 1,
{
    let m1 = m.insert(k, vs[0]);
    assert(m1.contains_key(k));
    lemma_no_success_when_present(m1, k, vs.skip(1));
}

/// The mathematical value of the whole store: one map per typed prefix, and
/// the global override.
#[verifier::ext_equal]
pub struct KvView {
    pub tasks: Map<Seq<u8>, DapTaskConfigView>,
    pub leader_tokens: Map<Seq<u8>, Seq<char>>,
    pub collector_tokens: Map<Seq<u8>, Seq<char>>,
    pub hpke_sets: Map<DapVersion, Seq<HpkeReceiverConfigView>>,
    pub skip_replay_protection: Option<bool>,
}

/// The map denoted by an association list keyed by protocol draft.
pub open spec fn version_map<V: DeepView>(entries: Seq<(DapVersion, V)>) -> Map<DapVersion, V::V>
    decreases entries.len(),
{
    if entries.len() == 0 {
        Map::empty()
    } else {
        version_map(entries.drop_last()).insert(entries.last().0, entries.last().1.deep_view())
    }
}

/// Whether an association list holds each draft at most once.
pub open spec fn version_keys_unique<V>(entries: Seq<(DapVersion, V)>) -> bool {
    forall|i: int, j: int|
        0 <= i < j < entries.len() ==> (#[trigger] entries[i]).0 != (#[trigger] entries[j]).0
}

pub proof fn lemma_version_map_contains<V: DeepView>(entries: Seq<(DapVersion, V)>, k: DapVersion)
    ensures
        version_map(entries).contains_key(k) <==> (exists|i: int|
            0 <= i < entries.len() && (#[trigger] entries[i]).0 == k),
    decreases entries.len(),
{
    if entries.len() > 0 {
        lemma_version_map_contains(entries.drop_last(), k);
        if entries.last().0 == k {
            assert(entries[entries.len() - 1].0 == k);
        } else {
            if exists|i: int| 0 <= i < entries.len() - 1 && (#[trigger] entries.drop_last()[i]).0
                == k {
                let i = choose|i: int|
                    0 <= i < entries.len() - 1 && (#[trigger] entries.drop_last()[i]).0 == k;
                assert(entries[i].0 == k);
            }
            if exists|i: int| 0 <= i < entries.len() && (#[trigger] entries[i]).0 == k {
                let i = choose|i: int| 0 <= i < entries.len() && (#[trigger] entries[i]).0 == k;
                assert(entries.drop_last()[i].0 == k);
            }
        }
    }
}

pub proof fn lemma_version_map_value<V: DeepView>(entries: Seq<(DapVersion, V)>, i: int)
    requires
        version_keys_unique(entries),
        0 <= i < entries.len(),
    ensures
        version_map(entries).contains_key(entries[i].0),
        version_map(entries)[entries[i].0] == entries[i].1.deep_view(),
    decreases entries.len(),
{
    if i == entries.len() - 1 {
    } else {
        assert(version_keys_unique(entries.drop_last())) by {
            assert(forall|a: int|
                0 <= a < entries.len() - 1 ==> (#[trigger] entries.drop_last()[a]) == entries[a]);
        }
        assert(entries.drop_last()[i] == entries[i]);
        lemma_version_map_value(entries.drop_last(), i);
        assert(entries[i].0 != entries.last().0);
    }
}

pub proof fn lemma_version_map_push<V: DeepView>(entries: Seq<(DapVersion, V)>, k: DapVersion, v: V)
    ensures
        version_map(entries.push((k, v))) == version_map(entries).insert(k, v.deep_view()),
{
    assert(entries.push((k, v)).drop_last() =~= entries);
    assert(entries.push((k, v)).last() == (k, v));
}

pub proof fn lemma_version_map_update<V: DeepView>(entries: Seq<(DapVersion, V)>, i: int, v: V)
    requires
        version_keys_unique(entries),
        0 <= i < entries.len(),
    ensures
        version_map(entries.update(i, (entries[i].0, v))) == version_map(entries).insert(
            entries[i].0,
            v.deep_view(),
        ),
        version_keys_unique(entries.update(i, (entries[i].0, v))),
    decreases entries.len(),
{
    let k = entries[i].0;
    let updated = entries.update(i, (k, v));
    assert(version_keys_unique(updated)) by {
        assert(forall|a: int|
            0 <= a < entries.len() ==> (#[trigger] updated[a]).0 == entries[a].0);
    }
    if i == entries.len() - 1 {
        assert(updated.drop_last() =~= entries.drop_last());
        assert(updated.last() == (k, v));
        assert(version_map(entries.drop_last()).insert(k, entries.last().1.deep_view()).insert(
            k,
            v.deep_view(),
        ) =~= version_map(entries.drop_last()).insert(k, v.deep_view()));
    } else {
        assert(updated.drop_last() =~= entries.drop_last().update(i, (k, v)));
        assert(version_keys_unique(entries.drop_last())) by {
            assert(forall|a: int|
                0 <= a < entries.len() - 1 ==> (#[trigger] entries.drop_last()[a]) == entries[a]);
        }
        assert(entries.drop_last()[i] == entries[i]);
        lemma_version_map_update(entries.drop_last(), i, v);
        assert(updated.last() == entries.last());
        assert(k != entries.last().0);
        assert(version_map(entries.drop_last()).insert(k, v.deep_view()).insert(
            entries.last().0,
            entries.last().1.deep_view(),
        ) =~= version_map(entries.drop_last()).insert(
            entries.last().0,
            entries.last().1.deep_view(),
        ).insert(k, v.deep_view()));
    }
}

/// The in-process configuration store: task configurations, bearer tokens,
/// HPKE receiver sets and the global overrides, each under its typed prefix.
pub struct KvState {
    pub task_configs: Vec<(Id, DapTaskConfig)>,
    pub leader_bearer_tokens: Vec<(Id, BearerToken)>,
    pub collector_bearer_tokens: Vec<(Id, BearerToken)>,
    pub hpke_receiver_config_sets: Vec<(DapVersion, Vec<HpkeReceiverConfig>)>,
    pub skip_replay_protection: Option<bool>,
}

impl View for KvState {
    type V = KvView;

    open spec fn view(&self) -> KvView {
        KvView {
            tasks: id_map(self.task_configs@),
            leader_tokens: id_map(self.leader_bearer_tokens@),
            collector_tokens: id_map(self.collector_bearer_tokens@),
            hpke_sets: version_map(self.hpke_receiver_config_sets@),
            skip_replay_protection: self.skip_replay_protection,
        }
    }
}

impl KvState {
    /// Each typed prefix holds each key at most once.
    pub open spec fn wf(self) -> bool {
        id_keys_unique(self.task_configs@) && id_keys_unique(self.leader_bearer_tokens@)
            && id_keys_unique(self.collector_bearer_tokens@) && version_keys_unique(
            self.hpke_receiver_config_sets@,
        )
    }

    /// An empty store.
    pub fn new() -> (r: KvState)
        ensures
            r.wf(),
            r@.tasks == Map::<Seq<u8>, DapTaskConfigView>::empty(),
            r@.leader_tokens == Map::<Seq<u8>, Seq<char>>::empty(),
            r@.collector_tokens == Map::<Seq<u8>, Seq<char>>::empty(),
            r@.hpke_sets == Map::<DapVersion, Seq<HpkeReceiverConfigView>>::empty(),
            r@.skip_replay_protection is None,
    {
        KvState {
            task_configs: Vec::new(),
            leader_bearer_tokens: Vec::new(),
            collector_bearer_tokens: Vec::new(),
            hpke_receiver_config_sets: Vec::new(),
            skip_replay_protection: None,
        }
    }

    /// Look a task configuration up by its identifier.
    pub fn get_task_config(&self, task_id: &Id) -> (r: Option<&DapTaskConfig>)
        requires
            self.wf(),
        ensures
            match r {
                Some(t) => self@.tasks.contains_key(task_id@) && t.deep_view()
                    == self@.tasks.index(task_id@),
                None => !self@.tasks.contains_key(task_id@),
            },
    {
        let entries = &self.task_configs;
        let mut i: usize = 0;
        while i < entries.len()
            invariant
                self.wf(),
                entries == self.task_configs,
                i <= entries@.len(),
                forall|j: int| 0 <= j < i ==> (#[trigger] entries@[j]).0@ != task_id@,
            decreases entries@.len() - i,
        {
            if constant_time_eq(entries[i].0.as_ref(), task_id.as_ref()) {
                proof {
                    lemma_id_map_value(entries@, i as int);
                }
                return Some(&entries[i].1);
            }
            i = i + 1;
        }
        proof {
            lemma_id_map_contains(entries@, task_id@);
        }
        None
    }

    /// Create a task configuration, atomically: on conflict the existing value
    /// is returned and nothing changes.
    #[verifier::loop_isolation(false)]
    pub fn put_if_not_exists_task_config(&mut self, task_id: &Id, task: DapTaskConfig) -> (r:
        Option<DapTaskConfig>)
        requires
            old(self).wf(),
        ensures
            final(self).wf(),
            ({
                let (ghost_r, m) = put_if_not_exists_outcome(old(self)@.tasks, task_id@, task@);
                &&& (match r {
                    Some(existing) => ghost_r == Some(existing@),
                    None => ghost_r is None,
                })
                &&& final(self)@ == (KvView { tasks: m, ..old(self)@ })
            }),
    {
        let mut i: usize = 0;
        let entries_len = self.task_configs.len();
        while i < entries_len
            invariant
                entries_len == self.task_configs@.len(),
                i <= entries_len,
                forall|j: int| 0 <= j < i ==> (#[trigger] self.task_configs@[j]).0@ != task_id@,
            decreases entries_len - i,
        {
            if constant_time_eq(self.task_configs[i].0.as_ref(), task_id.as_ref()) {
                proof {
                    lemma_id_map_value(self.task_configs@, i as int);
                    assert(self@ =~= (KvView { tasks: old(self)@.tasks, ..old(self)@ }));
                }
                return Some(self.task_configs[i].1.duplicate());
            }
            i = i + 1;
        }
        proof {
            lemma_id_map_contains(self.task_configs@, task_id@);
        }
        let ghost entries0 = self.task_configs@;
        self.task_configs.push((Id(crate::hpke::copy_bytes(&task_id.0)), task));
        proof {
            assert(self.task_configs@.last().0@ == task_id@);
            lemma_id_map_push(entries0, self.task_configs@.last().0, self.task_configs@.last().1);
            assert(self.task_configs@.drop_last() =~= entries0);
            assert(id_map(self.task_configs@) == id_map(entries0).insert(task_id@, task@));
            assert(id_keys_unique(self.task_configs@)) by {
                assert(forall|j: int|
                    0 <= j < entries0.len() ==> (#[trigger] self.task_configs@[j]) == entries0[j]);
            }
            assert(self@ =~= (KvView {
                tasks: id_map(entries0).insert(task_id@, task@),
                ..old(self)@
            }));
        }
        None
    }

    /// Create a bearer token under a typed prefix, atomically.
    #[verifier::loop_isolation(false)]
    fn put_if_not_exists_token(
        entries: &mut Vec<(Id, BearerToken)>,
        task_id: &Id,
        token: BearerToken,
    ) -> (r: Option<BearerToken>)
        requires
            id_keys_unique(old(entries)@),
        ensures
            id_keys_unique(final(entries)@),
            ({
                let (ghost_r, m) = put_if_not_exists_outcome(
                    id_map(old(entries)@),
                    task_id@,
                    token@,
                );
                &&& (match r {
                    Some(existing) => ghost_r == Some(existing@),
                    None => ghost_r is None,
                })
                &&& id_map(final(entries)@) == m
            }),
    {
        let mut i: usize = 0;
        let entries_len = entries.len();
        while i < entries_len
            invariant
                entries_len == entries@.len(),
                i <= entries_len,
                id_keys_unique(entries@),
                forall|j: int| 0 <= j < i ==> (#[trigger] entries@[j]).0@ != task_id@,
            decreases entries_len - i,
        {
            if constant_time_eq(entries[i].0.as_ref(), task_id.as_ref()) {
                proof {
                    lemma_id_map_value(entries@, i as int);
                }
                return Some(entries[i].1.duplicate());
            }
            i = i + 1;
        }
        proof {
            lemma_id_map_contains(entries@, task_id@);
        }
        let ghost entries0 = entries@;
        entries.push((Id(crate::hpke::copy_bytes(&task_id.0)), token));
        proof {
            assert(entries@.last().0@ == task_id@);
            lemma_id_map_push(entries0, entries@.last().0, entries@.last().1);
            assert(entries@.drop_last() =~= entries0);
            assert(id_keys_unique(entries@)) by {
                assert(forall|j: int|
                    0 <= j < entries0.len() ==> (#[trigger] entries@[j]) == entries0[j]);
            }
        }
        None
    }

    /// Create the Leader's bearer token for a task, atomically.
    pub fn put_if_not_exists_leader_bearer_token(&mut self, task_id: &Id, token: BearerToken) -> (r:
        Option<BearerToken>)
        requires
            old(self).wf(),
        ensures
            final(self).wf(),
            ({
                let (ghost_r, m) = put_if_not_exists_outcome(
                    old(self)@.leader_tokens,
                    task_id@,
                    token@,
                );
                &&& (match r {
                    Some(existing) => ghost_r == Some(existing@),
                    None => ghost_r is None,
                })
                &&& final(self)@ == (KvView { leader_tokens: m, ..old(self)@ })
            }),
    {
        Self::put_if_not_exists_token(&mut self.leader_bearer_tokens, task_id, token)
    }

    /// Create the Collector's bearer token for a task, atomically.
    pub fn put_if_not_exists_collector_bearer_token(
        &mut self,
        task_id: &Id,
        token: BearerToken,
    ) -> (r: Option<BearerToken>)
        requires
            old(self).wf(),
        ensures
            final(self).wf(),
            ({
                let (ghost_r, m) = put_if_not_exists_outcome(
                    old(self)@.collector_tokens,
                    task_id@,
                    token@,
                );
                &&& (match r {
                    Some(existing) => ghost_r == Some(existing@),
                    None => ghost_r is None,
                })
                &&& final(self)@ == (KvView { collector_tokens: m, ..old(self)@ })
            }),
    {
        Self::put_if_not_exists_token(&mut self.collector_bearer_tokens, task_id, token)
    }

    /// Read a draft's HPKE receiver configurations, cloned.
    pub fn get_hpke_receiver_config_set(&self, version: DapVersion) -> (r: Option<
        Vec<HpkeReceiverConfig>,
    >)
        requires
            self.wf(),
        ensures
            match r {
                Some(list) => self@.hpke_sets.contains_key(version) && list.deep_view()
                    == self@.hpke_sets[version],
                None => !self@.hpke_sets.contains_key(version),
            },
    {
        let entries = &self.hpke_receiver_config_sets;
        let mut i: usize = 0;
        while i < entries.len()
            invariant
                self.wf(),
                entries == self.hpke_receiver_config_sets,
                i <= entries@.len(),
                forall|j: int| 0 <= j < i ==> (#[trigger] entries@[j]).0 != version,
            decreases entries@.len() - i,
        {
            if entries[i].0 == version {
                proof {
                    lemma_version_map_value(entries@, i as int);
                }
                return Some(duplicate_receiver_configs(&entries[i].1));
            }
            i = i + 1;
        }
        proof {
            lemma_version_map_contains(entries@, version);
        }
        None
    }

    /// Bind a draft's HPKE receiver configurations, unconditionally.
    #[verifier::loop_isolation(false)]
    pub fn put_hpke_receiver_config_set(
        &mut self,
        version: DapVersion,
        list: Vec<HpkeReceiverConfig>,
    )
        requires
            old(self).wf(),
        ensures
            final(self).wf(),
            final(self)@ == (KvView {
                hpke_sets: old(self)@.hpke_sets.insert(version, list.deep_view()),
                ..old(self)@
            }),
    {
        let mut i: usize = 0;
        let entries_len = self.hpke_receiver_config_sets.len();
        while i < entries_len
            invariant
                *self == *old(self),
                entries_len == self.hpke_receiver_config_sets@.len(),
                i <= entries_len,
                forall|j: int|
                    0 <= j < i ==> (#[trigger] self.hpke_receiver_config_sets@[j]).0 != version,
            decreases entries_len - i,
    {
            if self.hpke_receiver_config_sets[i].0 == version {
                proof {
                    lemma_version_map_update(self.hpke_receiver_config_sets@, i as int, list);
                    assert(self.hpke_receiver_config_sets@[i as int].0 == version);
                }
                let ghost listv = list.deep_view();
                self.hpke_receiver_config_sets.set(i, (version, list));
                proof {
                    assert(self@ =~= (KvView {
                        hpke_sets: old(self)@.hpke_sets.insert(version, listv),
                        ..old(self)@
                    }));
                }
                return ;
            }
            i = i + 1;
        }
        proof {
            lemma_version_map_contains(self.hpke_receiver_config_sets@, version);
        }
        let ghost entries0 = self.hpke_receiver_config_sets@;
        let ghost listv = list.deep_view();
        self.hpke_receiver_config_sets.push((version, list));
        proof {
            let entries1 = self.hpke_receiver_config_sets@;
            assert(entries1.last().0 == version);
            assert(entries1.last().1.deep_view() == listv);
            lemma_version_map_push(entries0, entries1.last().0, entries1.last().1);
            assert(entries1.drop_last() =~= entries0);
            assert(version_map(entries0) == old(self)@.hpke_sets);
            assert forall|a: int, b: int|
                0 <= a < b < entries1.len() implies (#[trigger] entries1[a]).0 != (
            #[trigger] entries1[b]).0 by {
                if b == entries0.len() {
                    assert(entries1[a] == entries0[a]);
                    assert(entries0[a].0 != version);
                } else {
                    assert(entries1[a] == entries0[a]);
                    assert(entries1[b] == entries0[b]);
                }
            }
            assert(self@ =~= (KvView {
                hpke_sets: old(self)@.hpke_sets.insert(version, listv),
                ..old(self)@
            }));
        }
    }

    /// Read the global replay-protection override, if any is set.
    pub fn get_skip_replay_protection(&self) -> (r: Option<bool>)
        ensures
            r == self@.skip_replay_protection,
    {
        self.skip_replay_protection
    }

    /// Set the global replay-protection override.
    pub fn put_skip_replay_protection(&mut self, value: bool)
        requires
            old(self).wf(),
        ensures
            final(self).wf(),
            final(self)@ == (KvView { skip_replay_protection: Some(value), ..old(self)@ }),
    {
        self.skip_replay_protection = Some(value);
    }

    /// Purge the whole namespace: every typed prefix and the overrides.
    pub fn delete_all(&mut self)
        ensures
            final(self).wf(),
            final(self)@.tasks == Map::<Seq<u8>, DapTaskConfigView>::empty(),
            final(self)@.leader_tokens == Map::<Seq<u8>, Seq<char>>::empty(),
            final(self)@.collector_tokens == Map::<Seq<u8>, Seq<char>>::empty(),
            final(self)@.hpke_sets == Map::<DapVersion, Seq<HpkeReceiverConfigView>>::empty(),
            final(self)@.skip_replay_protection is None,
    {
        self.task_configs = Vec::new();
        self.leader_bearer_tokens = Vec::new();
        self.collector_bearer_tokens = Vec::new();
        self.hpke_receiver_config_sets = Vec::new();
        self.skip_replay_protection = None;
    }
}

} // verus!
