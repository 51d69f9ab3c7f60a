//! Update planning and execution order.
//!
//! The orchestration compares each installed record's version with the
//! version the resolver chose, by exact equality: mismatches are queued as
//! updates in record order (so in name order, the records being ordered by
//! name), matches are reported as already up to date. The queue is then
//! worked through one attempt at a time; the first failure ends the run.

use vstd::prelude::*;

use crate::listing::{sorted_unique, Crate};
use crate::resolve::{resolve_all, LockPkgView, ResolveSpec, ResolvedVersion};
use crate::text::{copy_range, eq_bytes, lex_lt};

verus! {

/// A queued update: the package and the exact version to install.
#[derive(Debug, Clone, PartialEq, Eq)]
pub struct PlannedUpdate {
    pub name: Vec<u8>,
    pub version: Vec<u8>,
}

/// Mathematical form of a queued update.
pub struct UpdateView {
    pub name: Seq<u8>,
    pub version: Seq<u8>,
}

impl View for PlannedUpdate {
    type V = UpdateView;

    open spec fn view(&self) -> UpdateView {
        UpdateView { name: self.name@, version: self.version@ }
    }
}

/// The views of a sequence of queued updates.
pub open spec fn update_views(s: Seq<PlannedUpdate>) -> Seq<UpdateView> {
    Seq::new(s.len(), |i: int| s[i]@)
}

/// The updates owed when `inst` are the installed records and `res` holds,
/// at each record's position, the version its name resolved to: one update
/// for every record whose installed version differs from the resolved one,
/// in record order.
pub open spec fn updates_spec(inst: Seq<Crate>, res: Seq<Seq<u8>>) -> Seq<UpdateView>
    decreases inst.len(),
{
    if inst.len() == 0 {
        Seq::empty()
    } else {
        let rest = updates_spec(inst.skip(1), res.skip(1));
        if inst[0].version@ != res[0] {
            seq![UpdateView { name: inst[0].name@, version: res[0] }] + rest
        } else {
            rest
        }
    }
}

/// The names already at their resolved version, in record order.
pub open spec fn up_to_date_spec(inst: Seq<Crate>, res: Seq<Seq<u8>>) -> Seq<Seq<u8>>
    decreases inst.len(),
{
    if inst.len() == 0 {
        Seq::empty()
    } else {
        let rest = up_to_date_spec(inst.skip(1), res.skip(1));
        if inst[0].version@ == res[0] {
            seq![inst[0].name@] + rest
        } else {
            rest
        }
    }
}

/// The versions carried by a sequence of resolved records.
pub open spec fn resolved_version_seq(s: Seq<ResolvedVersion>) -> Seq<Seq<u8>> {
    Seq::new(s.len(), |i: int| s[i]@.version)
}

/// The orchestration's plan: what to update and what to leave.
pub struct Plan {
    pub updates: Vec<PlannedUpdate>,
    pub up_to_date: Vec<Vec<u8>>,
}

/// Diffs the installed records against the resolved versions: queues an
/// update for every record whose installed version differs from the
/// resolved one, and reports the rest as up to date, in record order.
pub fn plan_updates(installed: &Vec<Crate>, resolved: &Vec<ResolvedVersion>) -> (r: Plan)
    requires
        resolved@.len() == installed@.len(),
        forall|i: int|
            0 <= i < installed@.len() ==> (#[trigger] resolved@[i])@.name == installed@[i].name@,
    ensures
        update_views(r.updates@) == updates_spec(installed@, resolved_version_seq(resolved@)),
        r.up_to_date@.len() == up_to_date_spec(
            installed@,
            resolved_version_seq(resolved@),
        ).len(),
        forall|i: int|
            0 <= i < r.up_to_date@.len() ==> (#[trigger] r.up_to_date@[i])@ == up_to_date_spec(
                installed@,
                resolved_version_seq(resolved@),
            )[i],
{
    let ghost inst = installed@;
    let ghost res = resolved_version_seq(resolved@);
    let mut updates: Vec<PlannedUpdate> = Vec::new();
    let mut up_to_date: Vec<Vec<u8>> = Vec::new();
    let ghost mut uv = Seq::<UpdateView>::empty();
    let ghost mut dv = Seq::<Seq<u8>>::empty();
    let mut i: usize = 0;
    proof {
        assert(inst.skip(0) =~= inst);
        assert(res.skip(0) =~= res);
        assert(uv + updates_spec(inst, res) =~= updates_spec(inst, res));
        assert(dv + up_to_date_spec(inst, res) =~= up_to_date_spec(inst, res));
        assert(update_views(updates@) =~= uv);
    }
    while i < installed.len()
        invariant
            0 <= i <= inst.len(),
            inst == installed@,
            res == resolved_version_seq(resolved@),
            res.len() == inst.len(),
            forall|t: int| 0 <= t < inst.len() ==> (#[trigger] resolved@[t])@.name == inst[t].name@,
            update_views(updates@) == uv,
            up_to_date@.len() == dv.len(),
            forall|t: int| 0 <= t < dv.len() ==> (#[trigger] up_to_date@[t])@ == dv[t],
            uv + updates_spec(inst.skip(i as int), res.skip(i as int)) == updates_spec(inst, res),
            dv + up_to_date_spec(inst.skip(i as int), res.skip(i as int)) == up_to_date_spec(
                inst,
                res,
            ),
        decreases inst.len() - i,
    {
        proof {
            assert(inst.skip(i as int)[0] == inst[i as int]);
            assert(res.skip(i as int)[0] == res[i as int]);
            assert(inst.skip(i as int).skip(1) =~= inst.skip(i + 1));
            assert(res.skip(i as int).skip(1) =~= res.skip(i + 1));
        }
        let c = &installed[i];
        let rv = &resolved[i];
        let ghost uv_old = uv;
        let ghost dv_old = dv;
        if eq_bytes(c.version.as_slice(), rv.version.as_slice()) {
            assert(inst[i as int].version@ == res[i as int]);
            up_to_date.push(copy_range(c.name.as_slice(), 0, c.name.len()));
            proof {
                assert(inst[i as int].name@.subrange(0, inst[i as int].name@.len() as int)
                    =~= inst[i as int].name@);
                dv = dv.push(inst[i as int].name@);
                assert(dv =~= dv_old + seq![inst[i as int].name@]);
                assert(dv_old + (seq![inst[i as int].name@] + up_to_date_spec(
                    inst.skip(i + 1),
                    res.skip(i + 1),
                )) =~= dv + up_to_date_spec(inst.skip(i + 1), res.skip(i + 1)));
                assert(uv + updates_spec(inst.skip(i + 1), res.skip(i + 1)) == updates_spec(
                    inst,
                    res,
                ));
            }
        } else {
            assert(inst[i as int].version@ != res[i as int]);
            let name = copy_range(c.name.as_slice(), 0, c.name.len());
            let version = copy_range(rv.version.as_slice(), 0, rv.version.len());
            proof {
                assert(inst[i as int].name@.subrange(0, inst[i as int].name@.len() as int)
                    =~= inst[i as int].name@);
                assert(res[i as int].subrange(0, res[i as int].len() as int) =~= res[i as int]);
            }
            updates.push(PlannedUpdate { name, version });
            proof {
                uv = uv.push(UpdateView { name: inst[i as int].name@, version: res[i as int] });
                assert(update_views(updates@) =~= uv);
                assert(uv =~= uv_old + seq![
                    UpdateView { name: inst[i as int].name@, version: res[i as int] },
                ]);
                assert(uv_old + (seq![
                    UpdateView { name: inst[i as int].name@, version: res[i as int] },
                ] + updates_spec(inst.skip(i + 1), res.skip(i + 1))) =~= uv + updates_spec(
                    inst.skip(i + 1),
                    res.skip(i + 1),
                ));
                assert(dv + up_to_date_spec(inst.skip(i + 1), res.skip(i + 1)) == up_to_date_spec(
                    inst,
                    res,
                ));
            }
        }
        i = i + 1;
    }
    proof {
        assert(inst.skip(i as int) =~= Seq::<Crate>::empty());
        assert(res.skip(i as int) =~= Seq::<Seq<u8>>::empty());
        assert(uv + Seq::<UpdateView>::empty() =~= uv);
        assert(dv + Seq::<Seq<u8>>::empty() =~= dv);
    }
    Plan { updates, up_to_date }
}

/// Whether queued updates stand in strictly ascending name order.
pub open spec fn updates_sorted(s: Seq<UpdateView>) -> bool {
    forall|i: int, j: int| #![trigger s[i], s[j]] 0 <= i < j < s.len() ==> lex_lt(s[i].name, s[j].name)
}

/// Every queued update takes its name from an installed record.
proof fn lemma_updates_names(inst: Seq<Crate>, res: Seq<Seq<u8>>)
    ensures
        forall|k: int|
            0 <= k < updates_spec(inst, res).len() ==> exists|t: int|
                0 <= t < inst.len() && (#[trigger] updates_spec(inst, res)[k]).name
                    == inst[t].name@,
    decreases inst.len(),
{
    if inst.len() > 0 {
        lemma_updates_names(inst.skip(1), res.skip(1));
        let rest = updates_spec(inst.skip(1), res.skip(1));
        assert forall|k: int| 0 <= k < updates_spec(inst, res).len() implies exists|t: int|
            0 <= t < inst.len() && (#[trigger] updates_spec(inst, res)[k]).name
                == inst[t].name@ by {
            let s = updates_spec(inst, res);
            if inst[0].version@ != res[0] {
                if k == 0 {
                    assert(s[0].name == inst[0].name@);
                } else {
                    assert(s[k] == rest[k - 1]);
                    let t = choose|t: int|
                        0 <= t < inst.skip(1).len() && rest[k - 1].name == inst.skip(1)[t].name@;
                    assert(s[k].name == inst[t + 1].name@);
                }
            } else {
                assert(s[k] == rest[k]);
                let t = choose|t: int|
                    0 <= t < inst.skip(1).len() && rest[k].name == inst.skip(1)[t].name@;
                assert(s[k].name == inst[t + 1].name@);
            }
        }
    }
}

/// Law: with the installed records in strictly ascending name order, the
/// update queue comes out in strictly ascending name order too —
/// deterministic, readable execution order.
pub proof fn lemma_plan_is_sorted(inst: Seq<Crate>, res: Seq<Seq<u8>>)
    requires
        sorted_unique(inst),
    ensures
        updates_sorted(updates_spec(inst, res)),
    decreases inst.len(),
{
    if inst.len() > 0 {
        assert forall|i: int, j: int|
            #![trigger inst.skip(1)[i], inst.skip(1)[j]]
            0 <= i < j < inst.skip(1).len() implies lex_lt(
            inst.skip(1)[i].name@,
            inst.skip(1)[j].name@,
        ) by {
            assert(inst.skip(1)[i] == inst[i + 1]);
            assert(inst.skip(1)[j] == inst[j + 1]);
        }
        lemma_plan_is_sorted(inst.skip(1), res.skip(1));
        lemma_updates_names(inst.skip(1), res.skip(1));
        let rest = updates_spec(inst.skip(1), res.skip(1));
        let s = updates_spec(inst, res);
        if inst[0].version@ != res[0] {
            assert forall|i: int, j: int|
                #![trigger s[i], s[j]]
                0 <= i < j < s.len() implies lex_lt(s[i].name, s[j].name) by {
                if i == 0 {
                    assert(s[j] == rest[j - 1]);
                    let t = choose|t: int|
                        0 <= t < inst.skip(1).len() && rest[j - 1].name == inst.skip(1)[t].name@;
                    assert(s[j].name == inst[t + 1].name@);
                    assert(lex_lt(inst[0].name@, inst[t + 1].name@));
                } else {
                    assert(s[i] == rest[i - 1] && s[j] == rest[j - 1]);
                }
            }
        }
    }
}

/// A run over the update queue: the updates in order, how many have been
/// done, and whether an attempt has failed.
pub struct UpdateRun {
    pub queue: Vec<PlannedUpdate>,
    pub next: usize,
    pub failed: bool,
}

impl UpdateRun {
    /// The run's bookkeeping stays within the queue.
    pub open spec fn wf(self) -> bool {
        self.next <= self.queue@.len()
    }

    /// Whether an update is still owed: none is after a failure, and none
    /// once the queue is done.
    pub open spec fn pending(self) -> bool {
        !self.failed && self.next < self.queue@.len()
    }

    /// Starts a run over the queue.
    pub fn new(queue: Vec<PlannedUpdate>) -> (r: UpdateRun)
        ensures
            r.queue == queue,
            r.next == 0,
            !r.failed,
            r.wf(),
    {
        UpdateRun { queue, next: 0, failed: false }
    }

    /// The update to attempt now, if one is owed.
    pub fn next_update(&self) -> (r: Option<&PlannedUpdate>)
        ensures
            match r {
                Some(u) => self.pending() && *u == self.queue@[self.next as int],
                None => !self.pending(),
            },
    {
        if !self.failed && self.next < self.queue.len() {
            Some(&self.queue[self.next])
        } else {
            None
        }
    }

    /// Records the attempt's outcome: success moves on to the next queued
    /// update, failure ends the run. No method ever clears `failed`, so a
    /// failed run offers no further update.
    pub fn record(&mut self, success: bool)
        requires
            old(self).pending(),
        ensures
            final(self).queue == old(self).queue,
            success ==> final(self).next == old(self).next + 1 && !final(self).failed,
            !success ==> final(self).failed && final(self).next == old(self).next,
            final(self).wf(),
    {
        if success {
            let n = self.queue.len();
            assert(self.next < n);
            self.next = self.next + 1;
        } else {
            self.failed = true;
        }
    }
}

/// Law: once an attempt has failed, no further queued update is offered,
/// whatever still stands in the queue.
pub proof fn lemma_failed_run_offers_nothing(r: UpdateRun)
    requires
        r.failed,
    ensures
        !r.pending(),
{
}

/// Law: with no installed packages, resolution yields the empty mapping and
/// the plan queues no update, whatever the lock entries hold.
pub proof fn lemma_no_packages_no_updates(entries: Seq<LockPkgView>)
    ensures
        resolve_all(entries, Seq::<Seq<u8>>::empty()) == (ResolveSpec::Done {
            versions: Seq::<Seq<u8>>::empty(),
            ambiguous: Seq::<Seq<u8>>::empty(),
        }),
        updates_spec(Seq::<Crate>::empty(), Seq::<Seq<u8>>::empty()) == Seq::<UpdateView>::empty(),
{
}

} // verus!