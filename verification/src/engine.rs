//! The reconciliation engine: the authoritative map from service name to
//! tracked entity, plus the tick algorithm that diffs it against freshly
//! probed statuses.
//!
//! A tick has two passes. The reclaim pass removes every tracked service
//! that is absent from this tick's probe results, releasing its slot back
//! to the pool. The update pass then walks the probe results in order:
//! unknown names are tracked anew (allocating a slot if one is free), and
//! every service whose status changed yields exactly one actuation
//! request. The reclaim pass completes first, so a slot freed by a
//! departing service may be handed to a new service in the same tick.
//!
//! A transient probe failure is indistinguishable from a stopped service
//! here: the prober simply omits the name from the probe results, and the
//! engine treats the name as disappeared and reclaims its slot. The name
//! is tracked afresh, starting from `Unknown`, when it next responds.

use vstd::prelude::*;
use crate::pool::SlotPool;
use crate::status::Status;

verus! {

/// One tracked service: its name, the status most recently recorded for
/// it, and the indicator slot it holds, if the pool had one free when it
/// was first observed.
pub struct App {
    pub name: String,
    pub last_status: Status,
    pub led_num: Option<i8>,
}

/// Mathematical image of an `App`: the name as a character sequence.
#[verifier::ext_equal]
pub ghost struct AppV {
    pub name: Seq<char>,
    pub last_status: Status,
    pub led_num: Option<i8>,
}

impl View for App {
    type V = AppV;

    open spec fn view(&self) -> AppV {
        AppV { name: self.name@, last_status: self.last_status, led_num: self.led_num }
    }
}

impl App {
    /// Builds a tracked-service record from its parts.
    pub fn new(name: String, last_status: Status, led_num: Option<i8>) -> (a: App)
        ensures
            a@ == (AppV { name: name@, last_status, led_num }),
    {
        App { name, last_status, led_num }
    }
}

/// One actuation request: notify the remote device that the named service
/// moved to `status`. The outbound call carries the slot identifier, so it
/// is only performed when `led_num` is present (and the device is
/// configured); a transition of a slotless service still counts as an
/// attempt but produces no call.
pub struct Actuation {
    pub name: String,
    pub led_num: Option<i8>,
    pub status: Status,
}

/// Mathematical image of an `Actuation`.
#[verifier::ext_equal]
pub ghost struct ActV {
    pub name: Seq<char>,
    pub led_num: Option<i8>,
    pub status: Status,
}

impl View for Actuation {
    type V = ActV;

    open spec fn view(&self) -> ActV {
        ActV { name: self.name@, led_num: self.led_num, status: self.status }
    }
}

/// Views of a sequence of tracked services.
pub open spec fn apps_v(apps: Seq<App>) -> Seq<AppV> {
    apps.map_values(|a: App| a@)
}

/// Views of a sequence of actuation requests.
pub open spec fn acts_v(acts: Seq<Actuation>) -> Seq<ActV> {
    acts.map_values(|a: Actuation| a@)
}

/// Views of this tick's probe results: (service name, classified status).
pub open spec fn probes_v(probes: Seq<(String, Status)>) -> Seq<(Seq<char>, Status)> {
    probes.map_values(|p: (String, Status)| (p.0@, p.1))
}

/// The probe results mention `name`.
pub open spec fn probes_contain(probes: Seq<(Seq<char>, Status)>, name: Seq<char>) -> bool {
    exists|k: int| 0 <= k < probes.len() && probes[k].0 == name
}

/// Reclaim pass, on the tracked services: keeps exactly the services whose
/// names still appear in the probe results, in order.
pub open spec fn reclaim_apps(apps: Seq<AppV>, probes: Seq<(Seq<char>, Status)>) -> Seq<AppV>
    decreases apps.len(),
{
    if apps.len() == 0 {
        Seq::empty()
    } else {
        let prev = reclaim_apps(apps.drop_last(), probes);
        if probes_contain(probes, apps.last().name) {
            prev.push(apps.last())
        } else {
            prev
        }
    }
}

/// Reclaim pass, on the pool: the slots of the departed services, in the
/// order they are released.
pub open spec fn reclaim_leds(apps: Seq<AppV>, probes: Seq<(Seq<char>, Status)>) -> Seq<i8>
    decreases apps.len(),
{
    if apps.len() == 0 {
        Seq::empty()
    } else {
        let prev = reclaim_leds(apps.drop_last(), probes);
        if probes_contain(probes, apps.last().name) {
            prev
        } else {
            match apps.last().led_num {
                Some(led) => prev.push(led),
                None => prev,
            }
        }
    }
}

/// Index of the first tracked service named `name`, or `apps.len()` when
/// none is.
pub open spec fn find_app(apps: Seq<AppV>, name: Seq<char>) -> int
    decreases apps.len(),
{
    if apps.len() == 0 {
        0
    } else {
        let prev = find_app(apps.drop_last(), name);
        if prev < apps.len() - 1 {
            prev
        } else if apps.last().name == name {
            apps.len() - 1
        } else {
            apps.len() as int
        }
    }
}

/// `name` is currently tracked.
pub open spec fn tracked_has(apps: Seq<AppV>, name: Seq<char>) -> bool {
    find_app(apps, name) < apps.len()
}

/// The status last recorded for `name`: its entry's `last_status` when
/// tracked, `Unknown` otherwise (a new service starts from `Unknown`).
pub open spec fn recorded_status(apps: Seq<AppV>, name: Seq<char>) -> Status {
    if tracked_has(apps, name) {
        apps[find_app(apps, name)].last_status
    } else {
        Status::Unknown
    }
}

/// `find_app` finds the first matching index, and `apps.len()` only when
/// no entry matches.
pub proof fn lemma_find_app(apps: Seq<AppV>, name: Seq<char>)
    ensures
        0 <= find_app(apps, name) <= apps.len(),
        find_app(apps, name) < apps.len() ==> apps[find_app(apps, name)].name == name,
        forall|k: int| 0 <= k < find_app(apps, name) ==> apps[k].name != name,
    decreases apps.len(),
{
    if apps.len() > 0 {
        lemma_find_app(apps.drop_last(), name);
        assert forall|k: int| 0 <= k < find_app(apps, name) implies apps[k].name != name by {
            if k < apps.len() - 1 {
                assert(apps.drop_last()[k] == apps[k]);
            }
        }
    }
}

/// Engine state as the tick model sees it: tracked services, free slots,
/// actuation requests emitted so far this tick.
#[verifier::ext_equal]
pub ghost struct TickState {
    pub apps: Seq<AppV>,
    pub pool: Seq<i8>,
    pub acts: Seq<ActV>,
}

/// Update pass, one probe result. An untracked name is tracked anew with a
/// slot from the back of the pool (or none). A status different from the
/// recorded one — `Unknown` for a new service — emits one actuation
/// request and records the new status; an unchanged status changes
/// nothing.
pub open spec fn tick_step(st: TickState, probe: (Seq<char>, Status)) -> TickState {
    let name = probe.0;
    let status = probe.1;
    let j = find_app(st.apps, name);
    if j < st.apps.len() {
        let a = st.apps[j];
        if a.last_status != status {
            TickState {
                apps: st.apps.update(
                    j,
                    AppV { name: a.name, last_status: status, led_num: a.led_num },
                ),
                pool: st.pool,
                acts: st.acts.push(ActV { name, led_num: a.led_num, status }),
            }
        } else {
            st
        }
    } else {
        let led = if st.pool.len() > 0 {
            Some(st.pool.last())
        } else {
            None
        };
        let pool2 = if st.pool.len() > 0 {
            st.pool.drop_last()
        } else {
            st.pool
        };
        if status != Status::Unknown {
            TickState {
                apps: st.apps.push(AppV { name, last_status: status, led_num: led }),
                pool: pool2,
                acts: st.acts.push(ActV { name, led_num: led, status }),
            }
        } else {
            TickState {
                apps: st.apps.push(AppV { name, last_status: Status::Unknown, led_num: led }),
                pool: pool2,
                acts: st.acts,
            }
        }
    }
}

/// Update pass over the probe results, in order.
pub open spec fn update_pass(st: TickState, probes: Seq<(Seq<char>, Status)>) -> TickState
    decreases probes.len(),
{
    if probes.len() == 0 {
        st
    } else {
        tick_step(update_pass(st, probes.drop_last()), probes.last())
    }
}

/// One whole tick: reclaim pass first — departed services dropped, their
/// slots appended to the pool — then the update pass over the probe
/// results, starting with no actuation requests.
pub open spec fn tick_spec(
    apps: Seq<AppV>,
    pool: Seq<i8>,
    probes: Seq<(Seq<char>, Status)>,
) -> TickState {
    update_pass(
        TickState {
            apps: reclaim_apps(apps, probes),
            pool: pool + reclaim_leds(apps, probes),
            acts: Seq::empty(),
        },
        probes,
    )
}

/// How many tracked services hold a slot.
pub open spec fn num_assigned(apps: Seq<AppV>) -> int
    decreases apps.len(),
{
    if apps.len() == 0 {
        0
    } else {
        num_assigned(apps.drop_last()) + if apps.last().led_num is Some {
            1int
        } else {
            0int
        }
    }
}

/// Tracking one more service raises the assigned count by one exactly
/// when the newcomer holds a slot.
pub proof fn lemma_num_assigned_push(apps: Seq<AppV>, a: AppV)
    ensures
        num_assigned(apps.push(a)) == num_assigned(apps) + if a.led_num is Some {
            1int
        } else {
            0int
        },
{
    assert(apps.push(a).drop_last() =~= apps);
}

/// Replacing a service with one holding the same slot field leaves the
/// assigned count unchanged.
pub proof fn lemma_num_assigned_update(apps: Seq<AppV>, j: int, a: AppV)
    requires
        0 <= j < apps.len(),
        apps[j].led_num == a.led_num,
    ensures
        num_assigned(apps.update(j, a)) == num_assigned(apps),
    decreases apps.len(),
{
    if j == apps.len() - 1 {
        assert(apps.update(j, a).drop_last() =~= apps.drop_last());
    } else {
        assert(apps.update(j, a).drop_last() =~= apps.drop_last().update(j, a));
        lemma_num_assigned_update(apps.drop_last(), j, a);
    }
}

/// The assigned count distributes over concatenation.
pub proof fn lemma_num_assigned_add(s: Seq<AppV>, t: Seq<AppV>)
    ensures
        num_assigned(s + t) == num_assigned(s) + num_assigned(t),
    decreases t.len(),
{
    if t.len() == 0 {
        assert(s + t =~= s);
    } else {
        assert((s + t).drop_last() =~= s + t.drop_last());
        assert((s + t).last() == t.last());
        lemma_num_assigned_add(s, t.drop_last());
    }
}

/// Well-formed engine state over capacity `cap`:
/// - tracked names are pairwise distinct;
/// - every assigned slot is in `1..=cap` and not simultaneously free;
/// - no slot is assigned to two services;
/// - free slots are pairwise distinct and in `1..=cap`;
/// - free plus assigned slots account for the whole capacity.
pub open spec fn state_wf(apps: Seq<AppV>, pool: Seq<i8>, cap: int) -> bool {
    &&& forall|i: int, j: int|
        0 <= i < j < apps.len() ==> #[trigger] apps[i].name != #[trigger] apps[j].name
    &&& forall|i: int|
        0 <= i < apps.len() ==> match #[trigger] apps[i].led_num {
            Some(led) => 1 <= led <= cap && !pool.contains(led),
            None => true,
        }
    &&& forall|i: int, j: int|
        0 <= i < j < apps.len() && #[trigger] apps[i].led_num is Some
            && #[trigger] apps[j].led_num is Some ==> apps[i].led_num != apps[j].led_num
    &&& pool.no_duplicates()
    &&& forall|k: int| 0 <= k < pool.len() ==> 1 <= #[trigger] pool[k] <= cap
    &&& pool.len() + num_assigned(apps) == cap
    &&& 0 <= cap <= i8::MAX
}

/// Dropping the first not-yet-reclaimed service and releasing its slot
/// preserves well-formedness; the slot is in range and was not already
/// free.
proof fn lemma_wf_reclaim_release(kept: Seq<AppV>, rest: Seq<AppV>, pool: Seq<i8>, cap: int)
    requires
        state_wf(kept + rest, pool, cap),
        rest.len() > 0,
        rest.first().led_num is Some,
    ensures
        1 <= rest.first().led_num->0 <= cap,
        !pool.contains(rest.first().led_num->0),
        state_wf(kept + rest.drop_first(), pool.push(rest.first().led_num->0), cap),
{
    let full = kept + rest;
    let m = kept.len() as int;
    let led = rest.first().led_num->0;
    let full2 = kept + rest.drop_first();
    let pool2 = pool.push(led);
    assert(full[m] == rest.first());
    // every element of the shrunk sequence stands in the original
    assert(forall|i: int|
        0 <= i < full2.len() ==> full2[i] == full[if i < m {
            i
        } else {
            i + 1
        }]);
    assert forall|i: int| 0 <= i < full2.len() implies match #[trigger] full2[i].led_num {
        Some(l) => 1 <= l <= cap && !pool2.contains(l),
        None => true,
    } by {
        let i0 = if i < m {
            i
        } else {
            i + 1
        };
        assert(full2[i] == full[i0]);
        if full2[i].led_num is Some {
            let l = full2[i].led_num->0;
            assert(!pool.contains(l));
            // the freed slot is not this one: two services never share
            if i0 < m {
                assert(full[i0].led_num != full[m].led_num);
            } else {
                assert(full[m].led_num != full[i0].led_num);
            }
            assert forall|k: int| 0 <= k < pool2.len() implies pool2[k] != l by {
                if k < pool.len() {
                    assert(pool2[k] == pool[k]);
                    assert(!pool.contains(l));
                }
            }
            if pool2.contains(l) {
                let k = choose|k: int| 0 <= k < pool2.len() && pool2[k] == l;
                assert(false);
            }
        }
    }
    assert forall|a: int, b: int| 0 <= a < b < pool2.len() implies pool2[a] != pool2[b] by {
        if b == pool2.len() - 1 {
            assert(pool2[a] == pool[a]);
            assert(!pool.contains(led));
        }
    }
    assert(rest =~= seq![rest.first()] + rest.drop_first());
    lemma_num_assigned_add(kept, rest);
    lemma_num_assigned_add(seq![rest.first()], rest.drop_first());
    lemma_num_assigned_add(kept, rest.drop_first());
    assert(num_assigned(seq![rest.first()]) == 1) by {
        assert(seq![rest.first()].drop_last() =~= Seq::<AppV>::empty());
        assert(num_assigned(Seq::<AppV>::empty()) == 0);
        assert(seq![rest.first()].last() == rest.first());
    }
}

/// Dropping the first not-yet-reclaimed service that holds no slot
/// preserves well-formedness.
proof fn lemma_wf_reclaim_drop(kept: Seq<AppV>, rest: Seq<AppV>, pool: Seq<i8>, cap: int)
    requires
        state_wf(kept + rest, pool, cap),
        rest.len() > 0,
        rest.first().led_num is None,
    ensures
        state_wf(kept + rest.drop_first(), pool, cap),
{
    let full = kept + rest;
    let m = kept.len() as int;
    let full2 = kept + rest.drop_first();
    assert(forall|i: int|
        0 <= i < full2.len() ==> full2[i] == full[if i < m {
            i
        } else {
            i + 1
        }]);
    assert(rest =~= seq![rest.first()] + rest.drop_first());
    lemma_num_assigned_add(kept, rest);
    lemma_num_assigned_add(seq![rest.first()], rest.drop_first());
    lemma_num_assigned_add(kept, rest.drop_first());
    assert(num_assigned(seq![rest.first()]) == 0) by {
        assert(seq![rest.first()].drop_last() =~= Seq::<AppV>::empty());
        assert(num_assigned(Seq::<AppV>::empty()) == 0);
        assert(seq![rest.first()].last() == rest.first());
    }
}

/// One update-pass step preserves well-formedness.
proof fn lemma_tick_step_wf(st: TickState, probe: (Seq<char>, Status), cap: int)
    requires
        state_wf(st.apps, st.pool, cap),
    ensures
        ({
            let r = tick_step(st, probe);
            state_wf(r.apps, r.pool, cap)
        }),
{
    let name = probe.0;
    let status = probe.1;
    let j = find_app(st.apps, name);
    let r = tick_step(st, probe);
    lemma_find_app(st.apps, name);
    if j < st.apps.len() {
        if st.apps[j].last_status != status {
            lemma_num_assigned_update(
                st.apps,
                j,
                AppV { name: st.apps[j].name, last_status: status, led_num: st.apps[j].led_num },
            );
        }
    } else {
        // `name` is tracked by nobody: every entry's name differs
        if st.pool.len() > 0 {
            let led = st.pool.last();
            let a = r.apps.last();
            assert(a.led_num == Some(led));
            assert(1 <= led <= cap);
            assert(!st.pool.drop_last().contains(led)) by {
                if st.pool.drop_last().contains(led) {
                    let k = choose|k: int|
                        0 <= k < st.pool.drop_last().len() && st.pool.drop_last()[k] == led;
                    assert(st.pool[k] == st.pool[st.pool.len() - 1]);
                }
            }
            assert forall|i: int| 0 <= i < r.apps.len() implies match #[trigger] r.apps[i].led_num {
                Some(l) => 1 <= l <= cap && !r.pool.contains(l),
                None => true,
            } by {
                if r.apps[i].led_num is Some {
                    let l = r.apps[i].led_num->0;
                    if i < st.apps.len() {
                        assert(r.apps[i] == st.apps[i]);
                        assert(!st.pool.contains(l));
                        if r.pool.contains(l) {
                            let k = choose|k: int| 0 <= k < r.pool.len() && r.pool[k] == l;
                            assert(st.pool[k] == l);
                        }
                    }
                }
            }
            assert forall|i: int, k: int|
                0 <= i < k < r.apps.len() && #[trigger] r.apps[i].led_num is Some
                    && #[trigger] r.apps[k].led_num is Some implies r.apps[i].led_num
                != r.apps[k].led_num by {
                if k == r.apps.len() - 1 {
                    assert(r.apps[i] == st.apps[i]);
                    assert(!st.pool.contains(r.apps[i].led_num->0));
                    assert(st.pool.contains(led));
                }
            }
            lemma_num_assigned_push(st.apps, a);
        } else {
            let a = r.apps.last();
            assert(a.led_num is None);
            assert(forall|i: int|
                0 <= i < st.apps.len() ==> #[trigger] r.apps[i] == st.apps[i]);
            lemma_num_assigned_push(st.apps, a);
        }
    }
}

/// Whether this tick's probe results mention `name`.
fn probe_list_contains(probes: &Vec<(String, Status)>, name: &String) -> (b: bool)
    ensures
        b == probes_contain(probes_v(probes@), name@),
{
    let mut k: usize = 0;
    while k < probes.len()
        invariant
            k <= probes@.len(),
            forall|m: int| 0 <= m < k ==> #[trigger] probes_v(probes@)[m].0 != name@,
        decreases probes@.len() - k,
    {
        if probes[k].0 == *name {
            proof {
                assert(probes_v(probes@)[k as int].0 == name@);
            }
            return true;
        }
        k += 1;
    }
    proof {
        if probes_contain(probes_v(probes@), name@) {
            let m = choose|m: int|
                0 <= m < probes_v(probes@).len() && probes_v(probes@)[m].0 == name@;
            assert(false);
        }
    }
    false
}

/// Index of the first tracked service named `name`, or `apps.len()` when
/// none matches.
fn find_index(apps: &Vec<App>, name: &String) -> (r: usize)
    ensures
        r as int == find_app(apps_v(apps@), name@),
{
    let mut k: usize = 0;
    while k < apps.len()
        invariant
            k <= apps@.len(),
            forall|m: int| 0 <= m < k ==> #[trigger] apps_v(apps@)[m].name != name@,
        decreases apps@.len() - k,
    {
        if apps[k].name == *name {
            proof {
                lemma_find_app(apps_v(apps@), name@);
                let f = find_app(apps_v(apps@), name@);
                assert(apps_v(apps@)[k as int].name == name@);
                if f < k as int {
                    assert(apps_v(apps@)[f].name == name@);
                }
            }
            return k;
        }
        k += 1;
    }
    proof {
        lemma_find_app(apps_v(apps@), name@);
    }
    apps.len()
}

/// The reconciliation engine: the tracked services and the slot pool. It
/// alone mutates either.
pub struct Engine {
    apps: Vec<App>,
    pool: SlotPool,
}

impl Engine {
    /// The tracked services, in tracking order.
    pub closed spec fn apps_view(&self) -> Seq<AppV> {
        apps_v(self.apps@)
    }

    /// The free slots.
    pub closed spec fn pool_view(&self) -> Seq<i8> {
        self.pool@
    }

    /// The slot capacity fixed at construction.
    pub closed spec fn capacity(&self) -> int {
        self.pool.spec_capacity()
    }

    /// The engine's invariant. `Engine::new` establishes it and `tick`
    /// preserves it.
    pub open spec fn wf(&self) -> bool {
        state_wf(self.apps_view(), self.pool_view(), self.capacity())
    }

    /// The engine invariant subsumes the pool's own — free slots distinct
    /// and in range — whatever the tracked services are.
    proof fn lemma_pool_wf(&self, apps: Seq<AppV>)
        requires
            state_wf(apps, self.pool_view(), self.capacity()),
        ensures
            self.pool.wf(),
    {
    }

    /// Builds an engine with no tracked services and every slot
    /// `1..=capacity` free.
    pub fn new(capacity: i8) -> (e: Engine)
        requires
            0 <= capacity,
        ensures
            e.wf(),
            e.capacity() == capacity as int,
            e.apps_view() == Seq::<AppV>::empty(),
            e.pool_view().len() == capacity as int,
            forall|k: int| 0 <= k < capacity as int ==> #[trigger] e.pool_view()[k] == k + 1,
    {
        let pool = SlotPool::new(capacity);
        let e = Engine { apps: Vec::new(), pool };
        proof {
            assert(e.apps_view() =~= Seq::<AppV>::empty());
            assert(num_assigned(e.apps_view()) == 0);
        }
        e
    }

    /// Runs one reconciliation tick against this tick's probe results and
    /// returns the actuation requests it produced, exactly as `tick_spec`
    /// states: departed services are dropped and their slots freed first,
    /// then every probed name is tracked (newcomers get a free slot if one
    /// remains) and every status transition — the first classification of
    /// a new service included — yields exactly one request.
    pub fn tick(&mut self, probes: Vec<(String, Status)>) -> (acts: Vec<Actuation>)
        requires
            old(self).wf(),
        ensures
            final(self).wf(),
            final(self).capacity() == old(self).capacity(),
            ({
                let r = tick_spec(old(self).apps_view(), old(self).pool_view(), probes_v(probes@));
                &&& final(self).apps_view() == r.apps
                &&& final(self).pool_view() == r.pool
                &&& acts_v(acts@) == r.acts
            }),
    {
        let ghost pv = probes_v(probes@);
        let ghost apps0 = self.apps_view();
        let ghost pool0 = self.pool_view();
        let ghost cap = self.capacity();

        // Reclaim pass: drop departed services, free their slots.
        let mut rest: Vec<App> = Vec::new();
        core::mem::swap(&mut rest, &mut self.apps);
        proof {
            assert(apps_v(rest@) =~= apps0);
            assert(apps_v(rest@) =~= apps0.skip(0));
            assert(apps0.take(0) =~= Seq::<AppV>::empty());
            assert(self.apps_view() =~= Seq::<AppV>::empty());
            assert(self.apps_view() =~= reclaim_apps(apps0.take(0), pv));
            assert(self.pool_view() =~= pool0 + reclaim_leds(apps0.take(0), pv));
            assert(self.apps_view() + apps_v(rest@) =~= apps0);
        }
        while rest.len() > 0
            invariant
                pv == probes_v(probes@),
                cap == self.capacity(),
                rest@.len() <= apps0.len(),
                apps_v(rest@) == apps0.skip(apps0.len() - rest@.len()),
                self.apps_view() == reclaim_apps(apps0.take(apps0.len() - rest@.len()), pv),
                self.pool_view() == pool0 + reclaim_leds(apps0.take(apps0.len() - rest@.len()), pv),
                state_wf(self.apps_view() + apps_v(rest@), self.pool_view(), cap),
            decreases rest@.len(),
        {
            let ghost k = apps0.len() - rest@.len();
            let ghost kept = self.apps_view();
            let ghost restv = apps_v(rest@);
            let ghost pool_now = self.pool_view();
            let a = rest.remove(0);
            proof {
                assert(apps_v(rest@) =~= restv.drop_first());
                assert(a@ == restv.first());
                assert(restv.first() == apps0[k as int]);
                assert(apps0.take(k + 1).drop_last() =~= apps0.take(k as int));
                assert(apps0.take(k + 1).last() == apps0[k as int]);
                assert(apps_v(rest@) =~= apps0.skip(k + 1));
            }
            let present = probe_list_contains(&probes, &a.name);
            if present {
                self.apps.push(a);
                proof {
                    assert(self.apps_view() =~= kept.push(apps0[k as int]));
                    assert(self.apps_view() == reclaim_apps(apps0.take(k + 1), pv));
                    assert(self.apps_view() + apps_v(rest@) =~= kept + restv);
                }
            } else {
                match a.led_num {
                    Some(led) => {
                        proof {
                            lemma_wf_reclaim_release(kept, restv, pool_now, cap);
                            self.lemma_pool_wf(kept + restv);
                        }
                        self.pool.release(led);
                        proof {
                            assert(reclaim_leds(apps0.take(k + 1), pv) == reclaim_leds(
                                apps0.take(k as int),
                                pv,
                            ).push(led));
                            assert(self.pool_view() =~= pool0 + reclaim_leds(
                                apps0.take(k + 1),
                                pv,
                            ));
                            assert(self.apps_view() == reclaim_apps(apps0.take(k + 1), pv));
                        }
                    },
                    None => {
                        proof {
                            lemma_wf_reclaim_drop(kept, restv, pool_now, cap);
                            assert(self.apps_view() == reclaim_apps(apps0.take(k + 1), pv));
                            assert(reclaim_leds(apps0.take(k + 1), pv) == reclaim_leds(
                                apps0.take(k as int),
                                pv,
                            ));
                        }
                    },
                }
            }
        }
        let ghost st0 = TickState {
            apps: reclaim_apps(apps0, pv),
            pool: pool0 + reclaim_leds(apps0, pv),
            acts: Seq::empty(),
        };
        proof {
            assert(apps0.take(apps0.len() as int) =~= apps0);
            assert(self.apps_view() + apps_v(rest@) =~= self.apps_view());
            assert(update_pass(st0, pv.take(0)) == st0);
            assert(pv.take(0) =~= Seq::<(Seq<char>, Status)>::empty());
        }

        // Update pass: track every probed service, emit one actuation
        // request per status transition.
        let mut acts: Vec<Actuation> = Vec::new();
        proof {
            assert(acts_v(acts@) =~= Seq::<ActV>::empty());
        }
        let mut i: usize = 0;
        while i < probes.len()
            invariant
                pv == probes_v(probes@),
                pv.len() == probes@.len(),
                cap == self.capacity(),
                i <= probes@.len(),
                self.apps_view() == update_pass(st0, pv.take(i as int)).apps,
                self.pool_view() == update_pass(st0, pv.take(i as int)).pool,
                acts_v(acts@) == update_pass(st0, pv.take(i as int)).acts,
                state_wf(self.apps_view(), self.pool_view(), cap),
            decreases probes@.len() - i,
        {
            let ghost sti = update_pass(st0, pv.take(i as int));
            let ghost p = pv[i as int];
            let ghost acts_in = acts_v(acts@);
            proof {
                assert(pv.take(i + 1).drop_last() =~= pv.take(i as int));
                assert(pv.take(i + 1).last() == pv[i as int]);
                lemma_tick_step_wf(sti, p, cap);
                assert(p.0 == probes@[i as int].0@);
            }
            let status = probes[i].1;
            let found = find_index(&self.apps, &probes[i].0);
            if found < self.apps.len() {
                let j = found;
                proof {
                    lemma_find_app(sti.apps, p.0);
                }
                if self.apps[j].last_status != status {
                    let led_now = self.apps[j].led_num;
                    acts.push(
                        Actuation { name: probes[i].0.clone(), led_num: led_now, status },
                    );
                    let entry = &mut self.apps[j];
                    entry.last_status = status;
                    proof {
                        let target = AppV {
                            name: sti.apps[j as int].name,
                            last_status: status,
                            led_num: sti.apps[j as int].led_num,
                        };
                        assert(self.apps_view() =~= sti.apps.update(j as int, target));
                        assert(acts_v(acts@) =~= sti.acts.push(
                            ActV { name: p.0, led_num: sti.apps[j as int].led_num, status },
                        ));
                        assert(self.apps_view() == update_pass(st0, pv.take(i + 1)).apps);
                    }
                } else {
                    proof {
                        assert(update_pass(st0, pv.take(i + 1)) == sti);
                    }
                }
            } else {
                proof {
                    self.lemma_pool_wf(self.apps_view());
                }
                let led = self.pool.allocate();
                let entry = App::new(probes[i].0.clone(), Status::Unknown, led);
                self.apps.push(entry);
                let j = self.apps.len() - 1;
                proof {
                    assert(self.apps_view() =~= sti.apps.push(
                        AppV { name: p.0, last_status: Status::Unknown, led_num: led },
                    ));
                }
                if self.apps[j].last_status != status {
                    acts.push(Actuation { name: probes[i].0.clone(), led_num: led, status });
                    let entry2 = &mut self.apps[j];
                    entry2.last_status = status;
                    proof {
                        assert(self.apps_view() =~= sti.apps.push(
                            AppV { name: p.0, last_status: status, led_num: led },
                        ));
                        assert(acts_v(acts@) =~= sti.acts.push(
                            ActV { name: p.0, led_num: led, status },
                        ));
                        assert(self.apps_view() == update_pass(st0, pv.take(i + 1)).apps);
                    }
                } else {
                    proof {
                        assert(status == Status::Unknown);
                        assert(self.apps_view() == update_pass(st0, pv.take(i + 1)).apps);
                    }
                }
            }
            i += 1;
        }
        proof {
            assert(pv.take(probes@.len() as int) =~= pv);
        }
        acts
    }

    /// How many services are currently tracked.
    pub fn tracked_count(&self) -> (n: usize)
        ensures
            n as int == self.apps_view().len(),
    {
        self.apps.len()
    }

    /// The tracked service at position `i`, in tracking order.
    pub fn tracked_app(&self, i: usize) -> (a: &App)
        requires
            i < self.apps_view().len(),
        ensures
            a@ == self.apps_view()[i as int],
    {
        &self.apps[i]
    }

    /// How many slots are currently free.
    pub fn free_slots(&self) -> (n: usize)
        ensures
            n as int == self.pool_view().len(),
    {
        self.pool.available_count()
    }

    /// Whether the given slot identifier is currently free.
    pub fn slot_is_free(&self, slot: i8) -> (b: bool)
        ensures
            b == self.pool_view().contains(slot),
    {
        self.pool.is_available(slot)
    }
}

/// Each service name appears at most once in the probe results. The
/// prober asks once per configured name, so this holds of every real
/// tick.
pub open spec fn distinct_names(probes: Seq<(Seq<char>, Status)>) -> bool {
    forall|a: int, b: int|
        0 <= a < b < probes.len() ==> (#[trigger] probes[a].0) != (#[trigger] probes[b].0)
}

/// Two sequences whose entries carry the same names agree on `find_app`.
proof fn lemma_find_app_same_names(s1: Seq<AppV>, s2: Seq<AppV>, n: Seq<char>)
    requires
        s1.len() == s2.len(),
        forall|i: int| 0 <= i < s1.len() ==> (#[trigger] s1[i]).name == (#[trigger] s2[i]).name,
    ensures
        find_app(s1, n) == find_app(s2, n),
    decreases s1.len(),
{
    if s1.len() > 0 {
        assert forall|i: int|
            0 <= i < s1.drop_last().len() implies (#[trigger] s1.drop_last()[i]).name
            == (#[trigger] s2.drop_last()[i]).name by {
            assert(s1.drop_last()[i] == s1[i]);
            assert(s2.drop_last()[i] == s2[i]);
        }
        lemma_find_app_same_names(s1.drop_last(), s2.drop_last(), n);
    }
}

/// `find_app` after tracking one more service: an already-tracked name
/// keeps its index, the newcomer's name lands at the end, any other name
/// stays untracked.
proof fn lemma_find_app_push(apps: Seq<AppV>, a: AppV, n: Seq<char>)
    ensures
        find_app(apps.push(a), n) == if tracked_has(apps, n) {
            find_app(apps, n)
        } else if a.name == n {
            apps.len() as int
        } else {
            apps.len() + 1int
        },
{
    assert(apps.push(a).drop_last() =~= apps);
    lemma_find_app(apps, n);
}

/// The reclaim pass keeps only services whose names are probed.
proof fn lemma_reclaim_all_probed(apps: Seq<AppV>, probes: Seq<(Seq<char>, Status)>)
    ensures
        forall|i: int|
            0 <= i < reclaim_apps(apps, probes).len() ==> probes_contain(
                probes,
                (#[trigger] reclaim_apps(apps, probes)[i]).name,
            ),
    decreases apps.len(),
{
    if apps.len() > 0 {
        lemma_reclaim_all_probed(apps.drop_last(), probes);
    }
}

/// When every tracked name is probed, the reclaim pass changes nothing
/// and frees nothing.
proof fn lemma_reclaim_identity(apps: Seq<AppV>, probes: Seq<(Seq<char>, Status)>)
    requires
        forall|i: int|
            0 <= i < apps.len() ==> probes_contain(probes, (#[trigger] apps[i]).name),
    ensures
        reclaim_apps(apps, probes) == apps,
        reclaim_leds(apps, probes) == Seq::<i8>::empty(),
    decreases apps.len(),
{
    if apps.len() == 0 {
        assert(reclaim_apps(apps, probes) =~= apps);
    } else {
        assert forall|i: int|
            0 <= i < apps.drop_last().len() implies probes_contain(
            probes,
            (#[trigger] apps.drop_last()[i]).name,
        ) by {
            assert(apps.drop_last()[i] == apps[i]);
        }
        lemma_reclaim_identity(apps.drop_last(), probes);
        assert(apps[apps.len() - 1] == apps.last());
        assert(reclaim_apps(apps, probes) =~= apps.drop_last().push(apps.last()));
        assert(apps.drop_last().push(apps.last()) =~= apps);
    }
}

/// The reclaim pass preserves the tracking state of every probed name,
/// and tracks no unprobed name.
proof fn lemma_reclaim_tracked(apps: Seq<AppV>, probes: Seq<(Seq<char>, Status)>, n: Seq<char>)
    ensures
        ({
            let rc = reclaim_apps(apps, probes);
            if probes_contain(probes, n) {
                &&& tracked_has(rc, n) == tracked_has(apps, n)
                &&& tracked_has(apps, n) ==> rc[find_app(rc, n)] == apps[find_app(apps, n)]
            } else {
                !tracked_has(rc, n)
            }
        }),
    decreases apps.len(),
{
    let rc = reclaim_apps(apps, probes);
    if apps.len() > 0 {
        let prefix = apps.drop_last();
        let rcp = reclaim_apps(prefix, probes);
        lemma_reclaim_tracked(prefix, probes, n);
        lemma_find_app(prefix, n);
        lemma_find_app(apps, n);
        lemma_find_app(rcp, n);
        lemma_find_app(rc, n);
        if probes_contain(probes, apps.last().name) {
            assert(rc == rcp.push(apps.last()));
            lemma_find_app_push(rcp, apps.last(), n);
            if probes_contain(probes, n) {
                if tracked_has(prefix, n) {
                    assert(find_app(apps, n) == find_app(prefix, n));
                    assert(apps[find_app(apps, n)] == prefix[find_app(prefix, n)]);
                    assert(rc[find_app(rc, n)] == rcp[find_app(rcp, n)]);
                } else {
                    if apps.last().name == n {
                        assert(find_app(apps, n) == apps.len() - 1);
                        assert(find_app(rc, n) == rcp.len() as int);
                        assert(rc[rcp.len() as int] == apps.last());
                    } else {
                        assert(!tracked_has(apps, n));
                        assert(!tracked_has(rc, n));
                    }
                }
            }
        } else {
            assert(rc == rcp);
            if probes_contain(probes, n) {
                assert(apps.last().name != n);
                if tracked_has(prefix, n) {
                    assert(find_app(apps, n) == find_app(prefix, n));
                    assert(apps[find_app(apps, n)] == prefix[find_app(prefix, n)]);
                } else {
                    assert(!tracked_has(apps, n));
                }
            }
        }
    }
}

/// A slot of a tracked-but-unprobed service is among the slots the
/// reclaim pass frees.
proof fn lemma_reclaim_leds_contains(
    apps: Seq<AppV>,
    probes: Seq<(Seq<char>, Status)>,
    i: int,
    led: i8,
)
    requires
        0 <= i < apps.len(),
        apps[i].led_num == Some(led),
        !probes_contain(probes, apps[i].name),
    ensures
        reclaim_leds(apps, probes).contains(led),
    decreases apps.len(),
{
    if i == apps.len() - 1 {
        assert(apps.last() == apps[i]);
        let prev = reclaim_leds(apps.drop_last(), probes);
        assert(reclaim_leds(apps, probes) == prev.push(led));
        assert(prev.push(led)[prev.len() as int] == led);
    } else {
        assert(apps.drop_last()[i] == apps[i]);
        lemma_reclaim_leds_contains(apps.drop_last(), probes, i, led);
        let prev = reclaim_leds(apps.drop_last(), probes);
        let m = choose|m: int| 0 <= m < prev.len() && prev[m] == led;
        assert(reclaim_leds(apps, probes)[m] == led);
    }
}

/// The update pass never loses a slot: one that is free or assigned
/// before the pass is free or assigned after it.
proof fn lemma_update_slot_conserved(st: TickState, probes: Seq<(Seq<char>, Status)>, led: i8)
    requires
        st.pool.contains(led) || exists|j: int|
            0 <= j < st.apps.len() && (#[trigger] st.apps[j]).led_num == Some(led),
    ensures
        ({
            let r = update_pass(st, probes);
            r.pool.contains(led) || exists|j: int|
                0 <= j < r.apps.len() && (#[trigger] r.apps[j]).led_num == Some(led)
        }),
    decreases probes.len(),
{
    if probes.len() > 0 {
        lemma_update_slot_conserved(st, probes.drop_last(), led);
        let mid = update_pass(st, probes.drop_last());
        let r = tick_step(mid, probes.last());
        let name = probes.last().0;
        let status = probes.last().1;
        let j = find_app(mid.apps, name);
        lemma_find_app(mid.apps, name);
        if j < mid.apps.len() {
            if mid.apps[j].last_status != status {
                if mid.pool.contains(led) {
                } else {
                    let w = choose|w: int|
                        0 <= w < mid.apps.len() && (#[trigger] mid.apps[w]).led_num == Some(led);
                    assert(r.apps[w].led_num == Some(led));
                }
            }
        } else {
            if mid.pool.contains(led) {
                if mid.pool.len() > 0 && led == mid.pool.last() {
                    assert(r.apps[mid.apps.len() as int].led_num == Some(led));
                } else {
                    let w = choose|w: int| 0 <= w < mid.pool.len() && mid.pool[w] == led;
                    assert(w < mid.pool.len() - 1 || led == mid.pool.last());
                    if mid.pool.len() > 0 {
                        assert(mid.pool.drop_last()[w] == led);
                    }
                }
            } else {
                let w = choose|w: int|
                    0 <= w < mid.apps.len() && (#[trigger] mid.apps[w]).led_num == Some(led);
                assert(r.apps[w].led_num == Some(led));
            }
        }
    }
}

/// One update-pass step leaves every other name's tracking state alone.
proof fn lemma_tick_step_other_names(st: TickState, p: (Seq<char>, Status), n: Seq<char>)
    requires
        n != p.0,
    ensures
        tracked_has(tick_step(st, p).apps, n) == tracked_has(st.apps, n),
        recorded_status(tick_step(st, p).apps, n) == recorded_status(st.apps, n),
{
    let j = find_app(st.apps, p.0);
    lemma_find_app(st.apps, p.0);
    lemma_find_app(st.apps, n);
    let r = tick_step(st, p);
    if j < st.apps.len() {
        if st.apps[j].last_status != p.1 {
            assert forall|i: int|
                0 <= i < st.apps.len() implies (#[trigger] st.apps[i]).name
                == (#[trigger] r.apps[i]).name by {}
            lemma_find_app_same_names(st.apps, r.apps, n);
            if tracked_has(st.apps, n) {
                let f = find_app(st.apps, n);
                assert(st.apps[f].name == n);
                assert(st.apps[j].name == p.0);
                assert(r.apps[f] == st.apps[f]);
            }
        }
    } else {
        let a = r.apps.last();
        assert(r.apps == st.apps.push(a));
        assert(a.name == p.0);
        lemma_find_app_push(st.apps, a, n);
        if tracked_has(st.apps, n) {
            let f = find_app(st.apps, n);
            assert(r.apps[f] == st.apps[f]);
        }
    }
}

/// One update-pass step records the probed status for the probed name,
/// and appends exactly one actuation request when and only when that
/// status is a transition.
proof fn lemma_tick_step_this_name(st: TickState, p: (Seq<char>, Status))
    ensures
        tracked_has(tick_step(st, p).apps, p.0),
        recorded_status(tick_step(st, p).apps, p.0) == p.1,
        forall|m: int|
            0 <= m < st.acts.len() ==> #[trigger] tick_step(st, p).acts[m] == st.acts[m],
        if p.1 != recorded_status(st.apps, p.0) {
            tick_step(st, p).acts.len() == st.acts.len() + 1 && tick_step(st, p).acts.last().name
                == p.0 && tick_step(st, p).acts.last().status == p.1
        } else {
            tick_step(st, p).acts == st.acts
        },
{
    let j = find_app(st.apps, p.0);
    lemma_find_app(st.apps, p.0);
    let r = tick_step(st, p);
    if j < st.apps.len() {
        if st.apps[j].last_status != p.1 {
            assert forall|i: int|
                0 <= i < st.apps.len() implies (#[trigger] st.apps[i]).name
                == (#[trigger] r.apps[i]).name by {}
            lemma_find_app_same_names(st.apps, r.apps, p.0);
            assert(r.apps[j].last_status == p.1);
        }
    } else {
        let a = r.apps.last();
        assert(r.apps == st.apps.push(a));
        lemma_find_app_push(st.apps, a, p.0);
        assert(find_app(r.apps, p.0) == st.apps.len() as int);
        assert(r.apps[st.apps.len() as int] == a);
    }
}

/// What the update pass does to one name's tracking record, when each
/// name is probed at most once: a probed name ends tracked with its
/// probed status recorded; an unprobed name keeps its state; a name ends
/// tracked only if it was tracked before or was probed.
proof fn lemma_update_pass_name(st: TickState, probes: Seq<(Seq<char>, Status)>, n: Seq<char>)
    requires
        distinct_names(probes),
    ensures
        ({
            let r = update_pass(st, probes);
            &&& !probes_contain(probes, n) ==> tracked_has(r.apps, n) == tracked_has(st.apps, n)
                && recorded_status(r.apps, n) == recorded_status(st.apps, n)
            &&& probes_contain(probes, n) ==> tracked_has(r.apps, n)
            &&& forall|k: int|
                0 <= k < probes.len() && (#[trigger] probes[k]).0 == n ==> recorded_status(
                    r.apps,
                    n,
                ) == probes[k].1
            &&& tracked_has(r.apps, n) ==> tracked_has(st.apps, n) || probes_contain(probes, n)
        }),
    decreases probes.len(),
{
    let r = update_pass(st, probes);
    if probes.len() > 0 {
        let q = probes.drop_last();
        let p = probes.last();
        assert forall|a: int, b: int| 0 <= a < b < q.len() implies (#[trigger] q[a]).0 != (
        #[trigger] q[b]).0 by {
            assert(q[a] == probes[a]);
            assert(q[b] == probes[b]);
        }
        lemma_update_pass_name(st, q, n);
        let mid = update_pass(st, q);
        assert(r == tick_step(mid, p));
        assert forall|w: int| 0 <= w < q.len() implies (#[trigger] q[w]) == probes[w] by {}
        assert(p == probes[probes.len() - 1]);
        if n != p.0 {
            lemma_tick_step_other_names(mid, p, n);
            assert(probes_contain(q, n) == probes_contain(probes, n)) by {
                if probes_contain(q, n) {
                    let w = choose|w: int| 0 <= w < q.len() && q[w].0 == n;
                    assert(probes[w].0 == n);
                }
                if probes_contain(probes, n) {
                    let w = choose|w: int| 0 <= w < probes.len() && probes[w].0 == n;
                    assert(w < q.len());
                    assert(q[w].0 == n);
                }
            }
        } else {
            lemma_tick_step_this_name(mid, p);
            assert(probes_contain(probes, n)) by {
                assert(probes[probes.len() - 1].0 == n);
            }
            assert forall|k: int|
                0 <= k < probes.len() && (#[trigger] probes[k]).0 == n implies recorded_status(
                r.apps,
                n,
            ) == probes[k].1 by {
                if k < probes.len() - 1 {
                    assert(probes[k].0 != probes[probes.len() - 1].0);
                }
            }
        }
    }
}

/// The update pass only appends actuation requests, each for a distinct
/// probed service and carrying that service's probed status.
#[verifier::spinoff_prover]
proof fn lemma_update_pass_acts_basic(st: TickState, probes: Seq<(Seq<char>, Status)>)
    requires
        distinct_names(probes),
    ensures
        ({
            let r = update_pass(st, probes);
            &&& st.acts.len() <= r.acts.len()
            &&& forall|m: int| 0 <= m < st.acts.len() ==> #[trigger] r.acts[m] == st.acts[m]
            &&& forall|m: int|
                st.acts.len() <= m < r.acts.len() ==> exists|k: int|
                    0 <= k < probes.len() && (#[trigger] r.acts[m]).name == probes[k].0
                        && r.acts[m].status == probes[k].1
            &&& forall|m1: int, m2: int|
                st.acts.len() <= m1 < m2 < r.acts.len() ==> (#[trigger] r.acts[m1]).name != (
                #[trigger] r.acts[m2]).name
        }),
    decreases probes.len(),
{
    let r = update_pass(st, probes);
    if probes.len() > 0 {
        let q = probes.drop_last();
        let p = probes.last();
        assert forall|a: int, b: int| 0 <= a < b < q.len() implies (#[trigger] q[a]).0 != (
        #[trigger] q[b]).0 by {
            assert(q[a] == probes[a]);
            assert(q[b] == probes[b]);
        }
        lemma_update_pass_acts_basic(st, q);
        let mid = update_pass(st, q);
        assert(r == tick_step(mid, p));
        lemma_tick_step_this_name(mid, p);
        assert(p == probes[probes.len() - 1]);
        assert(!probes_contain(q, p.0)) by {
            if probes_contain(q, p.0) {
                let w = choose|w: int| 0 <= w < q.len() && q[w].0 == p.0;
                assert(probes[w].0 == probes[probes.len() - 1].0);
            }
        }
        assert forall|m: int|
            st.acts.len() <= m < r.acts.len() implies exists|k: int|
            0 <= k < probes.len() && (#[trigger] r.acts[m]).name == probes[k].0 && r.acts[m].status
                == probes[k].1 by {
            if m < mid.acts.len() {
                let k = choose|k: int|
                    0 <= k < q.len() && (#[trigger] mid.acts[m]).name == q[k].0
                        && mid.acts[m].status == q[k].1;
                assert(r.acts[m] == mid.acts[m]);
                assert(q[k] == probes[k]);
                assert(r.acts[m].name == probes[k].0 && r.acts[m].status == probes[k].1);
            } else {
                assert(r.acts[m] == r.acts.last());
                assert(r.acts[m].name == probes[probes.len() - 1].0);
            }
        }
        assert forall|m1: int, m2: int|
            st.acts.len() <= m1 < m2 < r.acts.len() implies (#[trigger] r.acts[m1]).name != (
        #[trigger] r.acts[m2]).name by {
            if m2 >= mid.acts.len() {
                // m2 is the newly appended request; m1's name came from q
                assert(r.acts[m2].name == p.0);
                let k = choose|k: int|
                    0 <= k < q.len() && (#[trigger] mid.acts[m1]).name == q[k].0
                        && mid.acts[m1].status == q[k].1;
                assert(probes_contain(q, mid.acts[m1].name));
            }
        }
    }
}

/// The update pass appends an actuation request for a probed service if
/// and only if its probed status differs from its recorded status.
#[verifier::spinoff_prover]
proof fn lemma_update_pass_act_iff(st: TickState, probes: Seq<(Seq<char>, Status)>, k: int)
    requires
        distinct_names(probes),
        0 <= k < probes.len(),
    ensures
        ({
            let r = update_pass(st, probes);
            probes[k].1 != recorded_status(st.apps, probes[k].0) <==> exists|m: int|
                st.acts.len() <= m < r.acts.len() && (#[trigger] r.acts[m]).name == probes[k].0
        }),
    decreases probes.len(),
{
    let r = update_pass(st, probes);
    let q = probes.drop_last();
    let p = probes.last();
    assert forall|a: int, b: int| 0 <= a < b < q.len() implies (#[trigger] q[a]).0 != (
    #[trigger] q[b]).0 by {
        assert(q[a] == probes[a]);
        assert(q[b] == probes[b]);
    }
    let mid = update_pass(st, q);
    assert(r == tick_step(mid, p));
    assert(p == probes[probes.len() - 1]);
    assert(!probes_contain(q, p.0)) by {
        if probes_contain(q, p.0) {
            let w = choose|w: int| 0 <= w < q.len() && q[w].0 == p.0;
            assert(probes[w].0 == probes[probes.len() - 1].0);
        }
    }
    lemma_update_pass_acts_basic(st, q);
    lemma_tick_step_this_name(mid, p);
    if k < probes.len() - 1 {
        lemma_update_pass_act_iff(st, q, k);
        assert(q[k] == probes[k]);
        assert(probes[k].0 != p.0);
        if probes[k].1 != recorded_status(st.apps, probes[k].0) {
            let m = choose|m: int|
                st.acts.len() <= m < mid.acts.len() && (#[trigger] mid.acts[m]).name == q[k].0;
            assert(r.acts[m] == mid.acts[m]);
            assert(r.acts[m].name == probes[k].0);
        } else {
            if exists|m: int|
                st.acts.len() <= m < r.acts.len() && (#[trigger] r.acts[m]).name == probes[k].0 {
                let m = choose|m: int|
                    st.acts.len() <= m < r.acts.len() && (#[trigger] r.acts[m]).name
                        == probes[k].0;
                if m < mid.acts.len() {
                    assert(mid.acts[m].name == probes[k].0);
                } else {
                    assert(r.acts[m].name == p.0);
                }
                assert(false);
            }
        }
    } else {
        lemma_update_pass_name(st, q, p.0);
        assert(recorded_status(mid.apps, p.0) == recorded_status(st.apps, p.0));
        if p.1 != recorded_status(st.apps, p.0) {
            assert(r.acts[r.acts.len() - 1].name == p.0);
        } else {
            if exists|m: int|
                st.acts.len() <= m < r.acts.len() && (#[trigger] r.acts[m]).name == p.0 {
                let m = choose|m: int|
                    st.acts.len() <= m < r.acts.len() && (#[trigger] r.acts[m]).name == p.0;
                assert(mid.acts[m].name == p.0);
                let w = choose|w: int|
                    0 <= w < q.len() && (#[trigger] mid.acts[m]).name == q[w].0
                        && mid.acts[m].status == q[w].1;
                assert(probes_contain(q, p.0));
                assert(false);
            }
        }
    }
}

/// When every probed name is already tracked with its probed status, the
/// update pass changes nothing.
proof fn lemma_update_pass_stable(st: TickState, probes: Seq<(Seq<char>, Status)>)
    requires
        forall|k: int|
            0 <= k < probes.len() ==> tracked_has(st.apps, (#[trigger] probes[k]).0)
                && recorded_status(st.apps, probes[k].0) == probes[k].1,
    ensures
        update_pass(st, probes) == st,
    decreases probes.len(),
{
    if probes.len() > 0 {
        let q = probes.drop_last();
        assert forall|k: int|
            0 <= k < q.len() implies tracked_has(st.apps, (#[trigger] q[k]).0) && recorded_status(
            st.apps,
            q[k].0,
        ) == q[k].1 by {
            assert(q[k] == probes[k]);
        }
        lemma_update_pass_stable(st, q);
        let p = probes.last();
        assert(p == probes[probes.len() - 1]);
        lemma_find_app(st.apps, p.0);
        assert(tick_step(st, p) == st);
    }
}

/// Law: with every configured service probed at most once per tick, a
/// tick emits an actuation request for a probed service if and only if
/// its classified status differs from the status last recorded for it —
/// `Unknown`, for a service observed for the first time. At most one
/// request per service; every request names a probed service and carries
/// its classified status.
#[verifier::rlimit(50)]
#[verifier::spinoff_prover]
pub proof fn lemma_actuation_iff_transition(
    apps: Seq<AppV>,
    pool: Seq<i8>,
    cap: int,
    probes: Seq<(Seq<char>, Status)>,
)
    requires
        state_wf(apps, pool, cap),
        distinct_names(probes),
    ensures
        ({
            let r = tick_spec(apps, pool, probes);
            &&& forall|k: int|
                0 <= k < probes.len() ==> ((#[trigger] probes[k]).1 != recorded_status(
                    apps,
                    probes[k].0,
                ) <==> exists|m: int|
                    0 <= m < r.acts.len() && (#[trigger] r.acts[m]).name == probes[k].0)
            &&& forall|m: int|
                0 <= m < r.acts.len() ==> exists|k: int|
                    0 <= k < probes.len() && (#[trigger] r.acts[m]).name == probes[k].0
                        && r.acts[m].status == probes[k].1
            &&& forall|m1: int, m2: int|
                0 <= m1 < m2 < r.acts.len() ==> (#[trigger] r.acts[m1]).name != (
                #[trigger] r.acts[m2]).name
        }),
{
    let st0 = TickState {
        apps: reclaim_apps(apps, probes),
        pool: pool + reclaim_leds(apps, probes),
        acts: Seq::empty(),
    };
    let r = update_pass(st0, probes);
    lemma_update_pass_acts_basic(st0, probes);
    assert forall|k: int|
        0 <= k < probes.len() implies ((#[trigger] probes[k]).1 != recorded_status(
        apps,
        probes[k].0,
    ) <==> exists|m: int|
        0 <= m < r.acts.len() && (#[trigger] r.acts[m]).name == probes[k].0) by {
        lemma_update_pass_act_iff(st0, probes, k);
        lemma_reclaim_tracked(apps, probes, probes[k].0);
        assert(probes_contain(probes, probes[k].0));
        assert(recorded_status(st0.apps, probes[k].0) == recorded_status(apps, probes[k].0));
    }
}

/// Law (idempotence): a tick probed with the very results of the tick
/// before it changes neither the tracked services nor the pool, and
/// emits no actuation request.
pub proof fn lemma_tick_idempotent(
    apps: Seq<AppV>,
    pool: Seq<i8>,
    cap: int,
    probes: Seq<(Seq<char>, Status)>,
)
    requires
        state_wf(apps, pool, cap),
        distinct_names(probes),
    ensures
        ({
            let r1 = tick_spec(apps, pool, probes);
            let r2 = tick_spec(r1.apps, r1.pool, probes);
            &&& r2.apps == r1.apps
            &&& r2.pool == r1.pool
            &&& r2.acts == Seq::<ActV>::empty()
        }),
{
    let st0 = TickState {
        apps: reclaim_apps(apps, probes),
        pool: pool + reclaim_leds(apps, probes),
        acts: Seq::empty(),
    };
    let r1 = update_pass(st0, probes);
    // every service tracked after the first tick was probed
    lemma_reclaim_all_probed(apps, probes);
    assert forall|i: int|
        0 <= i < r1.apps.len() implies probes_contain(probes, (#[trigger] r1.apps[i]).name) by {
        let n = r1.apps[i].name;
        lemma_find_app(r1.apps, n);
        assert(tracked_has(r1.apps, n)) by {
            if find_app(r1.apps, n) == r1.apps.len() {
                assert(r1.apps[i].name != n);
            }
        }
        lemma_update_pass_name(st0, probes, n);
        if tracked_has(st0.apps, n) {
            lemma_find_app(st0.apps, n);
            let f = find_app(st0.apps, n);
            assert(st0.apps[f].name == n);
            assert(probes_contain(probes, st0.apps[f].name));
        }
    }
    lemma_reclaim_identity(r1.apps, probes);
    let st1 = TickState {
        apps: reclaim_apps(r1.apps, probes),
        pool: r1.pool + reclaim_leds(r1.apps, probes),
        acts: Seq::empty(),
    };
    let st1b = TickState { apps: r1.apps, pool: r1.pool, acts: Seq::empty() };
    assert(st1.pool =~= r1.pool);
    assert(st1 =~= st1b);
    assert forall|k: int|
        0 <= k < probes.len() implies tracked_has(st1b.apps, (#[trigger] probes[k]).0)
        && recorded_status(st1b.apps, probes[k].0) == probes[k].1 by {
        lemma_update_pass_name(st0, probes, probes[k].0);
        assert(probes_contain(probes, probes[k].0));
    }
    lemma_update_pass_stable(st1b, probes);
}

/// Law: however many ticks have run, the number of assigned slots never
/// exceeds the pool capacity, and no slot identifier is held by two
/// tracked services at once. `Engine::new` establishes `state_wf` and
/// `Engine::tick` preserves it, so this holds of every reachable engine
/// state.
pub proof fn lemma_slots_within_capacity(apps: Seq<AppV>, pool: Seq<i8>, cap: int)
    requires
        state_wf(apps, pool, cap),
    ensures
        num_assigned(apps) <= cap,
        forall|i: int, j: int|
            0 <= i < j < apps.len() && (#[trigger] apps[i]).led_num is Some
                && (#[trigger] apps[j]).led_num is Some ==> apps[i].led_num != apps[j].led_num,
{
}

/// Law: when a tracked service disappears from the probe results, its
/// slot is freed before the update pass of the same tick runs — it sits
/// in the pool the pass allocates newcomers' slots from — and after the
/// tick it is still in circulation: free, or assigned to some (possibly
/// new) service.
pub proof fn lemma_vanished_slot_recycled(
    apps: Seq<AppV>,
    pool: Seq<i8>,
    cap: int,
    probes: Seq<(Seq<char>, Status)>,
    i: int,
    led: i8,
)
    requires
        state_wf(apps, pool, cap),
        0 <= i < apps.len(),
        apps[i].led_num == Some(led),
        !probes_contain(probes, apps[i].name),
    ensures
        (pool + reclaim_leds(apps, probes)).contains(led),
        ({
            let r = tick_spec(apps, pool, probes);
            r.pool.contains(led) || exists|j: int|
                0 <= j < r.apps.len() && (#[trigger] r.apps[j]).led_num == Some(led)
        }),
{
    lemma_reclaim_leds_contains(apps, probes, i, led);
    let freed = reclaim_leds(apps, probes);
    let w = choose|w: int| 0 <= w < freed.len() && freed[w] == led;
    assert((pool + freed)[pool.len() + w] == led);
    let st0 = TickState {
        apps: reclaim_apps(apps, probes),
        pool: pool + freed,
        acts: Seq::empty(),
    };
    lemma_update_slot_conserved(st0, probes, led);
}

} // verus!
