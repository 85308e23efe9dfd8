//! The versioned deployment state for one target: the record history, the
//! current pointer, and the value transitions (adding a deployment, garbage
//! collection) that deploy and rollback are built from.

use vstd::prelude::*;

use crate::time::TS_MAX;

verus! {

/// Retention limit: at most this many deployment records are kept.
pub const MAX_VERSIONS_TO_KEEP: usize = 10;

/// One historical deployment.
///
/// `original_id` is the id whose content this record carries: its own id for
/// a fresh deploy, the restored id for a rollback.
#[derive(Debug, PartialEq, Eq, Clone)]
pub struct DeploymentRecord {
    /// When the deployment was made current, in milliseconds since the epoch.
    pub time: i64,
    /// Free-text annotation; empty if none was supplied.
    pub message: Vec<u8>,
    /// The id of the deployment this record's content originated from.
    pub original_id: u32,
}

/// The full deployment history of one target path.
///
/// `deployments` is kept sorted by strictly increasing id; ids are never
/// reused, even after garbage collection evicts old entries.
#[derive(Debug, PartialEq, Eq, Clone)]
pub struct TargetState {
    /// Deployment records, keyed by id, in ascending id order.
    pub deployments: Vec<(u32, DeploymentRecord)>,
    /// The id the target symlink currently points to; `None` before any
    /// deployment.
    pub current: Option<u32>,
    /// The stable path being managed; the state's own identity.
    pub target: Vec<u8>,
}

/// The ids retained after one more deployment: the new id is appended and
/// only the newest `MAX_VERSIONS_TO_KEEP` ids survive.
pub open spec fn ids_after_deploy(ids: Seq<u32>, new_id: u32) -> Seq<u32> {
    let grown = ids.push(new_id);
    if grown.len() <= MAX_VERSIONS_TO_KEEP {
        grown
    } else {
        grown.subrange(grown.len() - MAX_VERSIONS_TO_KEEP, grown.len() as int)
    }
}

/// The ids a fresh target holds after `n` deployments: the newest
/// `MAX_VERSIONS_TO_KEEP` of `0..n`.
pub open spec fn fresh_run_ids(n: nat) -> Seq<u32> {
    let kept = if n <= MAX_VERSIONS_TO_KEEP {
        n
    } else {
        MAX_VERSIONS_TO_KEEP as nat
    };
    Seq::new(kept, |i: int| (n - kept + i) as u32)
}

impl TargetState {
    /// The deployment ids, in ascending order.
    pub open spec fn ids(self) -> Seq<u32> {
        self.deployments@.map_values(|p: (u32, DeploymentRecord)| p.0)
    }

    /// Ids are strictly increasing.
    pub open spec fn sorted(self) -> bool {
        forall|a: int, b: int|
            0 <= a < b < self.ids().len() ==> self.ids()[a] < self.ids()[b]
    }

    /// `id` is one of the retained deployment ids.
    pub open spec fn has_id(self, id: u32) -> bool {
        exists|k: int| 0 <= k < self.ids().len() && self.ids()[k] == id
    }

    /// Every record's timestamp is within the supported range.
    pub open spec fn times_ok(self) -> bool {
        forall|k: int|
            0 <= k < self.deployments@.len() ==> 0 <= #[trigger] self.deployments@[k].1.time
                < TS_MAX
    }

    /// Well-formedness: sorted unique ids, timestamps in range, and a
    /// current pointer exactly when the history is non-empty, naming a
    /// retained id.
    pub open spec fn wf(self) -> bool {
        &&& self.sorted()
        &&& self.times_ok()
        &&& match self.current {
            Option::None => self.deployments@.len() == 0,
            Option::Some(c) => self.has_id(c),
        }
    }

    /// The current pointer names the newest deployment. Holds of every
    /// state this library produces; loaded files are only required to
    /// satisfy `wf`.
    pub open spec fn current_is_newest(self) -> bool {
        self.deployments@.len() > 0 ==> self.current == Option::Some(self.ids().last())
    }

    /// The id the next deployment will get.
    pub open spec fn next_id_spec(self) -> nat {
        if self.deployments@.len() == 0 {
            0
        } else {
            self.ids().last() as nat + 1
        }
    }

    /// The id space is not exhausted: one more deployment is possible.
    pub open spec fn can_deploy(self) -> bool {
        self.deployments@.len() == 0 || self.ids().last() < u32::MAX
    }

    /// A fresh, never-deployed state for `target`.
    pub fn new(target: Vec<u8>) -> (r: Self)
        ensures
            r.deployments@.len() == 0,
            r.current is None,
            r.target == target,
            r.wf(),
            r.current_is_newest(),
    {
        TargetState { deployments: Vec::new(), current: Option::None, target }
    }

    /// Whether one more deployment id is available.
    pub fn check_can_deploy(&self) -> (r: bool)
        ensures
            r == self.can_deploy(),
    {
        let n = self.deployments.len();
        if n == 0 {
            true
        } else {
            self.deployments[n - 1].0 < u32::MAX
        }
    }

    /// The id the next deployment will get: one past the newest id, or 0
    /// for an empty history. Ids grow monotonically and are never reused.
    pub fn next_deployment(&self) -> (r: u32)
        requires
            self.sorted(),
            self.can_deploy(),
        ensures
            r as nat == self.next_id_spec(),
    {
        let n = self.deployments.len();
        if n == 0 {
            0
        } else {
            self.deployments[n - 1].0 + 1
        }
    }

    /// Appends a record for `new_id` and makes it current. The record's
    /// `original_id` is `new_id` itself for a fresh deploy, or the id the
    /// content was restored from when given.
    pub fn add_deployment(
        self,
        new_id: u32,
        time: i64,
        message: Vec<u8>,
        original_id: Option<u32>,
    ) -> (r: Self)
        requires
            self.wf(),
            0 <= time < TS_MAX,
            self.deployments@.len() == 0 || self.ids().last() < new_id,
        ensures
            r.deployments@ == self.deployments@.push(
                (
                    new_id,
                    DeploymentRecord {
                        time,
                        message,
                        original_id: if original_id is Some {
                            original_id.unwrap()
                        } else {
                            new_id
                        },
                    },
                ),
            ),
            r.ids() == self.ids().push(new_id),
            r.current == Option::Some(new_id),
            r.target == self.target,
            r.wf(),
            r.current_is_newest(),
    {
        let oid = match original_id {
            Option::Some(o) => o,
            Option::None => new_id,
        };
        let mut deployments = self.deployments;
        let ghost before = deployments@;
        deployments.push((new_id, DeploymentRecord { time, message, original_id: oid }));
        let r = TargetState { deployments, current: Option::Some(new_id), target: self.target };
        proof {
            assert(r.ids() =~= self.ids().push(new_id));
            assert forall|a: int, b: int| 0 <= a < b < r.ids().len() implies r.ids()[a]
                < r.ids()[b] by {
                if b < r.ids().len() - 1 {
                    assert(self.ids()[a] < self.ids()[b]);
                }
            }
            assert(r.has_id(new_id)) by {
                assert(r.ids()[r.ids().len() - 1] == new_id);
            }
        }
        r
    }

    /// The deployment ids, newest first, for display and for picking the
    /// previous deployment during rollback.
    pub fn order_ids(&self) -> (r: Vec<u32>)
        ensures
            r@.len() == self.ids().len(),
            forall|i: int|
                0 <= i < r@.len() ==> r@[i] == self.ids()[self.ids().len() - 1 - i],
    {
        let n = self.deployments.len();
        let mut r: Vec<u32> = Vec::new();
        let mut i: usize = 0;
        while i < n
            invariant
                0 <= i <= n,
                n == self.deployments@.len(),
                r@.len() == i,
                forall|k: int| 0 <= k < i ==> r@[k] == self.ids()[n - 1 - k],
            decreases n - i,
        {
            r.push(self.deployments[n - 1 - i].0);
            i = i + 1;
        }
        r
    }

    /// The index of the record for `id`, if it is retained.
    pub fn find_index(&self, id: u32) -> (r: Option<usize>)
        ensures
            match r {
                Option::Some(k) => k < self.ids().len() && self.ids()[k as int] == id,
                Option::None => !self.has_id(id),
            },
    {
        let n = self.deployments.len();
        let mut i: usize = 0;
        while i < n
            invariant
                0 <= i <= n,
                n == self.deployments@.len(),
                forall|k: int| 0 <= k < i ==> self.ids()[k] != id,
            decreases n - i,
        {
            if self.deployments[i].0 == id {
                return Option::Some(i);
            }
            i = i + 1;
        }
        Option::None
    }

    /// Evicts the oldest records beyond the retention limit and returns the
    /// evicted ids, newest first. The newest `MAX_VERSIONS_TO_KEEP` records
    /// (among them the current one) survive; every evicted id is smaller
    /// than every retained one.
    pub fn garbage_collect(&mut self) -> (evicted: Vec<u32>)
        requires
            old(self).wf(),
            old(self).current_is_newest(),
        ensures
            final(self).ids() == ids_after_deploy_base(old(self).ids()),
            final(self).deployments@.len() <= MAX_VERSIONS_TO_KEEP,
            final(self).target == old(self).target,
            final(self).current == old(self).current,
            final(self).wf(),
            final(self).current_is_newest(),
            evicted@.len() + final(self).deployments@.len() == old(self).deployments@.len(),
            forall|m: int|
                0 <= m < evicted@.len() ==> #[trigger] evicted@[m] == old(self).ids()[evicted@.len()
                    - 1 - m],
            final(self).deployments@ == old(self).deployments@.skip(evicted@.len() as int),
            forall|a: int, b: int|
                0 <= a < evicted@.len() && 0 <= b < final(self).ids().len() ==> evicted@[a]
                    < final(self).ids()[b],
    {
        let n = self.deployments.len();
        if n <= MAX_VERSIONS_TO_KEEP {
            let evicted: Vec<u32> = Vec::new();
            assert(self.deployments@ =~= old(self).deployments@.skip(0));
            assert(self.ids() =~= ids_after_deploy_base(old(self).ids()));
            return evicted;
        }
        let k = n - MAX_VERSIONS_TO_KEEP;
        let mut evicted: Vec<u32> = Vec::new();
        let mut i: usize = k;
        while i > 0
            invariant
                0 <= i <= k < n,
                n == self.deployments@.len(),
                self == old(self),
                evicted@.len() == k - i,
                forall|m: int|
                    0 <= m < evicted@.len() ==> #[trigger] evicted@[m] == old(self).ids()[k - 1
                        - m],
            decreases i,
        {
            i = i - 1;
            let id = self.deployments[i].0;
            evicted.push(id);
        }
        let mut j: usize = 0;
        while j < k
            invariant
                0 <= j <= k,
                k < old(self).deployments@.len(),
                self.deployments@ == old(self).deployments@.skip(j as int),
                self.current == old(self).current,
                self.target == old(self).target,
            decreases k - j,
        {
            let _ = self.deployments.remove(0);
            assert(self.deployments@ =~= old(self).deployments@.skip(j + 1));
            j = j + 1;
        }
        proof {
            assert(self.ids() =~= old(self).ids().skip(k as int));
            assert(self.ids() =~= ids_after_deploy_base(old(self).ids()));
            let c = old(self).current.unwrap();
            assert(self.ids()[self.ids().len() - 1] == old(self).ids().last());
            assert(self.has_id(c));
        }
        evicted
    }
}

/// The ids retained after garbage collection: the newest
/// `MAX_VERSIONS_TO_KEEP` survive.
pub open spec fn ids_after_deploy_base(ids: Seq<u32>) -> Seq<u32> {
    if ids.len() <= MAX_VERSIONS_TO_KEEP {
        ids
    } else {
        ids.subrange(ids.len() - MAX_VERSIONS_TO_KEEP, ids.len() as int)
    }
}

/// After `n` deploys to a fresh target the history holds exactly the ids
/// `0..n` when `n` is at most the retention limit — and in general the
/// newest `MAX_VERSIONS_TO_KEEP` of them: one more deploy with id `n`
/// takes the retained ids of an `n`-deploy run to those of an
/// `n + 1`-deploy run.
pub proof fn lemma_fresh_run_step(n: nat)
    requires
        n < u32::MAX,
    ensures
        ids_after_deploy(fresh_run_ids(n), n as u32) == fresh_run_ids(n + 1),
        n <= MAX_VERSIONS_TO_KEEP ==> fresh_run_ids(n) == Seq::new(n, |i: int| i as u32),
        fresh_run_ids(n).len() <= MAX_VERSIONS_TO_KEEP,
        n > 0 ==> fresh_run_ids(n).last() == n - 1,
{
    assert(ids_after_deploy(fresh_run_ids(n), n as u32) =~= fresh_run_ids(n + 1));
    if n <= MAX_VERSIONS_TO_KEEP {
        assert(fresh_run_ids(n) =~= Seq::new(n, |i: int| i as u32));
    }
}

/// Retention keeps the numerically largest ids: after a deployment of a
/// fresh id over a strictly increasing history, at most
/// `MAX_VERSIONS_TO_KEEP` ids remain, they are the newest ones, and every
/// id dropped is smaller than every id retained.
pub proof fn lemma_retention_keeps_newest(ids: Seq<u32>, new_id: u32)
    requires
        forall|a: int, b: int| 0 <= a < b < ids.len() ==> ids[a] < ids[b],
        forall|a: int| 0 <= a < ids.len() ==> ids[a] < new_id,
    ensures
        ids_after_deploy(ids, new_id).len() <= MAX_VERSIONS_TO_KEEP,
        ids_after_deploy(ids, new_id).len() == if ids.len() + 1 <= MAX_VERSIONS_TO_KEEP {
            ids.len() + 1
        } else {
            MAX_VERSIONS_TO_KEEP as nat
        },
        ids_after_deploy(ids, new_id).last() == new_id,
        forall|a: int, b: int|
            0 <= a < ids.push(new_id).len() - ids_after_deploy(ids, new_id).len() && 0 <= b
                < ids_after_deploy(ids, new_id).len() ==> ids.push(new_id)[a] < ids_after_deploy(
                ids,
                new_id,
            )[b],
{
    let grown = ids.push(new_id);
    let kept = ids_after_deploy(ids, new_id);
    assert(kept.last() == new_id) by {
        assert(grown.last() == new_id);
    }
    assert forall|a: int, b: int|
        0 <= a < grown.len() - kept.len() && 0 <= b < kept.len() implies grown[a] < kept[b] by {
        let cut = grown.len() - kept.len();
        assert(kept[b] == grown[cut + b]);
        if cut + b < grown.len() - 1 {
            assert(ids[a] < ids[cut + b]);
        } else {
            assert(grown[a] < new_id);
        }
    }
}

/// The ids after `n` deploys to a fresh target, by iterating the
/// per-deploy transition: deploy `k` is issued id `k` and only the newest
/// `MAX_VERSIONS_TO_KEEP` ids survive each step.
pub open spec fn run_ids(n: nat) -> Seq<u32>
    decreases n,
{
    if n == 0 {
        Seq::empty()
    } else {
        ids_after_deploy(run_ids((n - 1) as nat), ((n - 1) as nat) as u32)
    }
}

/// The whole-run law: after `n` deploys to a fresh target the retained ids
/// are exactly the newest `MAX_VERSIONS_TO_KEEP` of `0..n` — for `n`
/// within the retention limit, exactly the strictly increasing ids
/// `0..n`, with the most recent deploy's id `n - 1` the newest.
pub proof fn lemma_fresh_run(n: nat)
    requires
        n <= u32::MAX,
    ensures
        run_ids(n) == fresh_run_ids(n),
        n <= MAX_VERSIONS_TO_KEEP ==> run_ids(n) == Seq::new(n, |i: int| i as u32),
        run_ids(n).len() == if n <= MAX_VERSIONS_TO_KEEP {
            n
        } else {
            MAX_VERSIONS_TO_KEEP as nat
        },
        n > 0 ==> run_ids(n).last() == n - 1,
    decreases n,
{
    if n == 0 {
        assert(run_ids(0) =~= fresh_run_ids(0));
    } else {
        lemma_fresh_run((n - 1) as nat);
        lemma_fresh_run_step((n - 1) as nat);
    }
    if n <= MAX_VERSIONS_TO_KEEP {
        assert(fresh_run_ids(n) =~= Seq::new(n, |i: int| i as u32));
    }
}

} // verus!
