//! The state-diff engine.
//!
//! [`DeviceStates`] is the connection map: a registry of every device ever
//! observed, each with a "currently connected" flag. A poll hands the engine
//! a snapshot of the identifiers seen right now; [`DeviceStates::update`]
//! computes the ordered sequence of transition events and mutates the map in
//! place. Disconnect events always come first, then connect and discovery
//! events in snapshot order. [`DeviceStates::format`] renders the map as the
//! metrics exposition text.

use vstd::prelude::*;
use vstd::string::StringExecFns;

verus! {

/// One classified change of a device's connection state between two
/// consecutive snapshots.
#[derive(Clone, Copy, PartialEq, Eq, Structural, Debug)]
pub enum Update {
    New,
    Disconnected,
    Connected,
}

/// The word the polling loop logs for a transition.
pub open spec fn label_spec(u: Update) -> Seq<char> {
    match u {
        Update::New => "discovered"@,
        Update::Disconnected => "disconnected"@,
        Update::Connected => "connected"@,
    }
}

impl Update {
    /// The word the polling loop logs for this transition.
    pub fn label(&self) -> (s: &'static str)
        ensures
            s@ == label_spec(*self),
    {
        match self {
            Update::New => "discovered",
            Update::Disconnected => "disconnected",
            Update::Connected => "connected",
        }
    }
}

/// The identifiers of a raw snapshot, as sequences of characters.
pub open spec fn snapshot_view(snap: Seq<String>) -> Seq<Seq<char>> {
    snap.map_values(|s: String| s@)
}

/// The produced event list, as pairs of identifier characters and kind.
pub open spec fn events_view(ev: Seq<(String, Update)>) -> Seq<(Seq<char>, Update)> {
    ev.map_values(|p: (String, Update)| (p.0@, p.1))
}

/// The connection map holds each device at most once.
pub open spec fn wf_map(m: Seq<(Seq<char>, bool)>) -> bool {
    forall|i: int, j: int| 0 <= i < j < m.len() ==> m[i].0 != m[j].0
}

/// Whether the map holds an entry for device `k`.
pub open spec fn map_has(m: Seq<(Seq<char>, bool)>, k: Seq<char>) -> bool {
    exists|i: int| 0 <= i < m.len() && m[i].0 == k
}

/// The position of device `k` in the map (meaningful when `map_has`).
pub open spec fn index_of(m: Seq<(Seq<char>, bool)>, k: Seq<char>) -> int {
    choose|i: int| 0 <= i < m.len() && m[i].0 == k
}

/// The connected flag of device `k` (meaningful when `map_has`).
pub open spec fn flag_of(m: Seq<(Seq<char>, bool)>, k: Seq<char>) -> bool {
    m[index_of(m, k)].1
}

/// The map after the disconnect phase: every connected device that is absent
/// from the snapshot has its flag lowered; nothing else changes.
pub open spec fn disconnect_map(m: Seq<(Seq<char>, bool)>, snap: Seq<Seq<char>>) -> Seq<
    (Seq<char>, bool),
> {
    m.map_values(
        |e: (Seq<char>, bool)|
            if e.1 && !snap.contains(e.0) {
                (e.0, false)
            } else {
                e
            },
    )
}

/// The events of the disconnect phase, in map order.
pub open spec fn disconnect_events(m: Seq<(Seq<char>, bool)>, snap: Seq<Seq<char>>) -> Seq<
    (Seq<char>, Update),
>
    decreases m.len(),
{
    if m.len() == 0 {
        Seq::empty()
    } else {
        let rest = disconnect_events(m.drop_first(), snap);
        if m[0].1 && !snap.contains(m[0].0) {
            seq![(m[0].0, Update::Disconnected)] + rest
        } else {
            rest
        }
    }
}

/// The map with device `k`'s flag raised.
pub open spec fn set_connected(m: Seq<(Seq<char>, bool)>, k: Seq<char>) -> Seq<
    (Seq<char>, bool),
> {
    m.map_values(
        |e: (Seq<char>, bool)|
            if e.0 == k {
                (e.0, true)
            } else {
                e
            },
    )
}

/// The connect/discover phase: walk the snapshot in order; a known device
/// with a lowered flag is reconnected, an unknown device is inserted as
/// connected and announced as new, an already connected device produces no
/// event. Returns the resulting map and the events of this phase.
pub open spec fn connect_step(m: Seq<(Seq<char>, bool)>, snap: Seq<Seq<char>>) -> (
    Seq<(Seq<char>, bool)>,
    Seq<(Seq<char>, Update)>,
)
    decreases snap.len(),
{
    if snap.len() == 0 {
        (m, Seq::empty())
    } else {
        let k = snap[0];
        if !map_has(m, k) {
            let r = connect_step(m.push((k, true)), snap.drop_first());
            (r.0, seq![(k, Update::New)] + r.1)
        } else if !flag_of(m, k) {
            let r = connect_step(set_connected(m, k), snap.drop_first());
            (r.0, seq![(k, Update::Connected)] + r.1)
        } else {
            connect_step(m, snap.drop_first())
        }
    }
}

/// The connection map after one full poll cycle.
pub open spec fn update_map(m: Seq<(Seq<char>, bool)>, snap: Seq<Seq<char>>) -> Seq<
    (Seq<char>, bool),
> {
    connect_step(disconnect_map(m, snap), snap).0
}

/// The events of one full poll cycle: the disconnect phase first, then the
/// connect/discover phase.
pub open spec fn update_events(m: Seq<(Seq<char>, bool)>, snap: Seq<Seq<char>>) -> Seq<
    (Seq<char>, Update),
> {
    disconnect_events(m, snap) + connect_step(disconnect_map(m, snap), snap).1
}

/// One line of the metrics exposition text.
pub open spec fn metrics_line(mac: Seq<char>, connected: bool) -> Seq<char> {
    "wifi_client{mac=\""@ + mac + "\"} "@ + (if connected {
        "1"@
    } else {
        "0"@
    }) + "\n"@
}

/// The whole metrics exposition text: one line per known device, in map
/// order, with sample value 1 for connected and 0 for disconnected.
pub open spec fn metrics_text(m: Seq<(Seq<char>, bool)>) -> Seq<char>
    decreases m.len(),
{
    if m.len() == 0 {
        Seq::empty()
    } else {
        metrics_line(m[0].0, m[0].1) + metrics_text(m.drop_first())
    }
}

proof fn lemma_connect_step_all_new(m: Seq<(Seq<char>, bool)>, snap: Seq<Seq<char>>)
    requires
        forall|t: int| 0 <= t < snap.len() ==> !map_has(m, #[trigger] snap[t]),
        forall|a: int, b: int| 0 <= a < b < snap.len() ==> snap[a] != snap[b],
    ensures
        connect_step(m, snap).0 == m + snap.map_values(|kk: Seq<char>| (kk, true)),
        connect_step(m, snap).1 == snap.map_values(|kk: Seq<char>| (kk, Update::New)),
    decreases snap.len(),
{
    if snap.len() == 0 {
        assert(m + snap.map_values(|kk: Seq<char>| (kk, true)) =~= m);
        assert(snap.map_values(|kk: Seq<char>| (kk, Update::New)) =~= Seq::<
            (Seq<char>, Update),
        >::empty());
    } else {
        let k = snap[0];
        assert(!map_has(m, k));
        let m2 = m.push((k, true));
        let rest = snap.drop_first();
        assert forall|t: int| 0 <= t < rest.len() implies !map_has(m2, #[trigger] rest[t]) by {
            assert(rest[t] == snap[t + 1]);
            assert(snap[t + 1] != snap[0]);
            assert(!map_has(m, rest[t]));
            assert forall|i: int| 0 <= i < m2.len() implies m2[i].0 != rest[t] by {
                if i < m.len() {
                    if m[i].0 == rest[t] {
                        assert(map_has(m, rest[t]));
                    }
                } else {
                    assert(m2[i] == (k, true));
                }
            }
        }
        assert forall|a: int, b: int| 0 <= a < b < rest.len() implies rest[a] != rest[b] by {
            assert(rest[a] == snap[a + 1]);
            assert(rest[b] == snap[b + 1]);
        }
        lemma_connect_step_all_new(m2, rest);
        assert(m2 + rest.map_values(|kk: Seq<char>| (kk, true)) =~= m + snap.map_values(
            |kk: Seq<char>| (kk, true),
        ));
        assert(seq![(k, Update::New)] + rest.map_values(|kk: Seq<char>| (kk, Update::New))
            =~= snap.map_values(|kk: Seq<char>| (kk, Update::New)));
    }
}

/// First-snapshot law: an empty map fed a snapshot of distinct identifiers
/// reports every one of them as `New`, in snapshot order, and leaves every
/// one of them flagged connected.
pub proof fn lemma_first_snapshot(snap: Seq<Seq<char>>)
    requires
        forall|a: int, b: int| 0 <= a < b < snap.len() ==> snap[a] != snap[b],
    ensures
        update_map(Seq::empty(), snap) == snap.map_values(|kk: Seq<char>| (kk, true)),
        update_events(Seq::empty(), snap) == snap.map_values(|kk: Seq<char>| (kk, Update::New)),
{
    let e = Seq::<(Seq<char>, bool)>::empty();
    assert(disconnect_map(e, snap) =~= e);
    assert(disconnect_events(e, snap) == Seq::<(Seq<char>, Update)>::empty());
    assert forall|t: int| 0 <= t < snap.len() implies !map_has(e, #[trigger] snap[t]) by {
        assert(e.len() == 0);
    }
    lemma_connect_step_all_new(e, snap);
    assert(e + snap.map_values(|kk: Seq<char>| (kk, true)) =~= snap.map_values(
        |kk: Seq<char>| (kk, true),
    ));
    assert(Seq::<(Seq<char>, Update)>::empty() + snap.map_values(
        |kk: Seq<char>| (kk, Update::New),
    ) =~= snap.map_values(|kk: Seq<char>| (kk, Update::New)));
}

proof fn lemma_disconnect_events_empty(m: Seq<(Seq<char>, bool)>, snap: Seq<Seq<char>>)
    requires
        forall|i: int| 0 <= i < m.len() ==> ((#[trigger] m[i]).1 ==> snap.contains(m[i].0)),
    ensures
        disconnect_events(m, snap) == Seq::<(Seq<char>, Update)>::empty(),
    decreases m.len(),
{
    if m.len() > 0 {
        assert(m[0].1 ==> snap.contains(m[0].0));
        assert forall|i: int| 0 <= i < m.drop_first().len() implies ((#[trigger] m.drop_first()[i]).1
            ==> snap.contains(m.drop_first()[i].0)) by {
            assert(m.drop_first()[i] == m[i + 1]);
        }
        lemma_disconnect_events_empty(m.drop_first(), snap);
    }
}

proof fn lemma_connect_step_identity(m: Seq<(Seq<char>, bool)>, snap: Seq<Seq<char>>)
    requires
        forall|t: int|
            0 <= t < snap.len() ==> map_has(m, #[trigger] snap[t]) && flag_of(m, snap[t]),
    ensures
        connect_step(m, snap) == (m, Seq::<(Seq<char>, Update)>::empty()),
    decreases snap.len(),
{
    if snap.len() > 0 {
        assert(map_has(m, snap[0]) && flag_of(m, snap[0]));
        let rest = snap.drop_first();
        assert forall|t: int| 0 <= t < rest.len() implies map_has(m, #[trigger] rest[t])
            && flag_of(m, rest[t]) by {
            assert(rest[t] == snap[t + 1]);
        }
        lemma_connect_step_identity(m, rest);
    }
}

proof fn lemma_connect_step_wf(m: Seq<(Seq<char>, bool)>, snap: Seq<Seq<char>>)
    requires
        wf_map(m),
    ensures
        wf_map(connect_step(m, snap).0),
    decreases snap.len(),
{
    if snap.len() > 0 {
        let k = snap[0];
        if !map_has(m, k) {
            let m2 = m.push((k, true));
            assert forall|a: int, b: int| 0 <= a < b < m2.len() implies m2[a].0 != m2[b].0 by {
                if b == m.len() {
                    if m[a].0 == k {
                        assert(map_has(m, k));
                    }
                }
            }
            lemma_connect_step_wf(m2, snap.drop_first());
        } else if !flag_of(m, k) {
            let m2 = set_connected(m, k);
            assert forall|a: int, b: int| 0 <= a < b < m2.len() implies m2[a].0 != m2[b].0 by {
                assert(m2[a].0 == m[a].0);
                assert(m2[b].0 == m[b].0);
            }
            lemma_connect_step_wf(m2, snap.drop_first());
        } else {
            lemma_connect_step_wf(m, snap.drop_first());
        }
    }
}

proof fn lemma_connect_step_preserves_connected(
    m: Seq<(Seq<char>, bool)>,
    snap: Seq<Seq<char>>,
    k: Seq<char>,
)
    requires
        wf_map(m),
        map_has(m, k),
        flag_of(m, k),
    ensures
        map_has(connect_step(m, snap).0, k),
        flag_of(connect_step(m, snap).0, k),
    decreases snap.len(),
{
    if snap.len() > 0 {
        let k0 = snap[0];
        let i = index_of(m, k);
        assert(0 <= i < m.len() && m[i].0 == k);
        if !map_has(m, k0) {
            let m2 = m.push((k0, true));
            assert forall|a: int, b: int| 0 <= a < b < m2.len() implies m2[a].0 != m2[b].0 by {
                if b == m.len() {
                    if m[a].0 == k0 {
                        assert(map_has(m, k0));
                    }
                }
            }
            assert(m2[i] == m[i]);
            lemma_index_of(m2, k, i);
            lemma_connect_step_preserves_connected(m2, snap.drop_first(), k);
        } else if !flag_of(m, k0) {
            let m2 = set_connected(m, k0);
            assert forall|a: int, b: int| 0 <= a < b < m2.len() implies m2[a].0 != m2[b].0 by {
                assert(m2[a].0 == m[a].0);
                assert(m2[b].0 == m[b].0);
            }
            assert(m2[i].0 == k && m2[i].1);
            lemma_index_of(m2, k, i);
            lemma_connect_step_preserves_connected(m2, snap.drop_first(), k);
        } else {
            lemma_connect_step_preserves_connected(m, snap.drop_first(), k);
        }
    }
}

proof fn lemma_connect_step_connects_snap(m: Seq<(Seq<char>, bool)>, snap: Seq<Seq<char>>)
    requires
        wf_map(m),
    ensures
        forall|t: int|
            0 <= t < snap.len() ==> map_has(connect_step(m, snap).0, #[trigger] snap[t])
                && flag_of(connect_step(m, snap).0, snap[t]),
    decreases snap.len(),
{
    if snap.len() > 0 {
        let k0 = snap[0];
        let rest = snap.drop_first();
        if !map_has(m, k0) {
            let m2 = m.push((k0, true));
            assert forall|a: int, b: int| 0 <= a < b < m2.len() implies m2[a].0 != m2[b].0 by {
                if b == m.len() {
                    if m[a].0 == k0 {
                        assert(map_has(m, k0));
                    }
                }
            }
            lemma_index_of(m2, k0, m.len() as int);
            lemma_connect_step_preserves_connected(m2, rest, k0);
            lemma_connect_step_connects_snap(m2, rest);
            assert forall|t: int| 0 <= t < snap.len() implies map_has(
                connect_step(m, snap).0,
                #[trigger] snap[t],
            ) && flag_of(connect_step(m, snap).0, snap[t]) by {
                if t > 0 {
                    assert(snap[t] == rest[t - 1]);
                }
            }
        } else if !flag_of(m, k0) {
            let m2 = set_connected(m, k0);
            assert forall|a: int, b: int| 0 <= a < b < m2.len() implies m2[a].0 != m2[b].0 by {
                assert(m2[a].0 == m[a].0);
                assert(m2[b].0 == m[b].0);
            }
            let i0 = index_of(m, k0);
            assert(0 <= i0 < m.len() && m[i0].0 == k0);
            assert(m2[i0].0 == k0 && m2[i0].1);
            lemma_index_of(m2, k0, i0);
            lemma_connect_step_preserves_connected(m2, rest, k0);
            lemma_connect_step_connects_snap(m2, rest);
            assert forall|t: int| 0 <= t < snap.len() implies map_has(
                connect_step(m, snap).0,
                #[trigger] snap[t],
            ) && flag_of(connect_step(m, snap).0, snap[t]) by {
                if t > 0 {
                    assert(snap[t] == rest[t - 1]);
                }
            }
        } else {
            lemma_connect_step_preserves_connected(m, rest, k0);
            lemma_connect_step_connects_snap(m, rest);
            assert forall|t: int| 0 <= t < snap.len() implies map_has(
                connect_step(m, snap).0,
                #[trigger] snap[t],
            ) && flag_of(connect_step(m, snap).0, snap[t]) by {
                if t > 0 {
                    assert(snap[t] == rest[t - 1]);
                }
            }
        }
    }
}

proof fn lemma_connect_step_true_keys(
    m: Seq<(Seq<char>, bool)>,
    snap: Seq<Seq<char>>,
    full: Seq<Seq<char>>,
)
    requires
        forall|i: int| 0 <= i < m.len() ==> ((#[trigger] m[i]).1 ==> full.contains(m[i].0)),
        forall|t: int| 0 <= t < snap.len() ==> full.contains(#[trigger] snap[t]),
    ensures
        forall|i: int|
            0 <= i < connect_step(m, snap).0.len() ==> ((#[trigger] connect_step(m, snap).0[i]).1
                ==> full.contains(connect_step(m, snap).0[i].0)),
    decreases snap.len(),
{
    if snap.len() > 0 {
        let k0 = snap[0];
        let rest = snap.drop_first();
        assert(full.contains(k0));
        assert forall|t: int| 0 <= t < rest.len() implies full.contains(#[trigger] rest[t]) by {
            assert(rest[t] == snap[t + 1]);
        }
        if !map_has(m, k0) {
            let m2 = m.push((k0, true));
            assert forall|i: int| 0 <= i < m2.len() implies ((#[trigger] m2[i]).1 ==> full.contains(
                m2[i].0,
            )) by {
                if i < m.len() {
                    assert(m2[i] == m[i]);
                } else {
                    assert(m2[i] == (k0, true));
                }
            }
            lemma_connect_step_true_keys(m2, rest, full);
            assert(connect_step(m, snap).0 == connect_step(m2, rest).0);
        } else if !flag_of(m, k0) {
            let m2 = set_connected(m, k0);
            assert forall|i: int| 0 <= i < m2.len() implies ((#[trigger] m2[i]).1 ==> full.contains(
                m2[i].0,
            )) by {
                if m[i].0 == k0 {
                    assert(m2[i] == (k0, true));
                } else {
                    assert(m2[i] == m[i]);
                }
            }
            lemma_connect_step_true_keys(m2, rest, full);
            assert(connect_step(m, snap).0 == connect_step(m2, rest).0);
        } else {
            lemma_connect_step_true_keys(m, rest, full);
            assert(connect_step(m, snap).0 == connect_step(m, rest).0);
        }
    } else {
        assert(connect_step(m, snap).0 == m);
    }
}

/// Idempotence law: feeding the same snapshot twice in a row yields no
/// events on the second poll, and the map does not change again.
pub proof fn lemma_repoll_idempotent(m: Seq<(Seq<char>, bool)>, snap: Seq<Seq<char>>)
    requires
        wf_map(m),
    ensures
        update_events(update_map(m, snap), snap) == Seq::<(Seq<char>, Update)>::empty(),
        update_map(update_map(m, snap), snap) == update_map(m, snap),
{
    let m1 = disconnect_map(m, snap);
    assert forall|a: int, b: int| 0 <= a < b < m1.len() implies m1[a].0 != m1[b].0 by {
        assert(m1[a].0 == m[a].0);
        assert(m1[b].0 == m[b].0);
    }
    let m2 = update_map(m, snap);
    lemma_connect_step_wf(m1, snap);
    assert forall|i: int| 0 <= i < m1.len() implies ((#[trigger] m1[i]).1 ==> snap.contains(
        m1[i].0,
    )) by {
        if m[i].1 && !snap.contains(m[i].0) {
            assert(m1[i] == (m[i].0, false));
        } else {
            assert(m1[i] == m[i]);
        }
    }
    lemma_connect_step_true_keys(m1, snap, snap);
    lemma_connect_step_connects_snap(m1, snap);
    lemma_disconnect_events_empty(m2, snap);
    assert(disconnect_map(m2, snap) =~= m2) by {
        assert forall|i: int| 0 <= i < m2.len() implies disconnect_map(m2, snap)[i] == m2[i] by {
            assert(m2[i].1 ==> snap.contains(m2[i].0));
        }
    }
    lemma_connect_step_identity(m2, snap);
    assert(Seq::<(Seq<char>, Update)>::empty() + Seq::<(Seq<char>, Update)>::empty() =~= Seq::<
        (Seq<char>, Update),
    >::empty());
}

proof fn lemma_disconnect_events_all_disconnect(m: Seq<(Seq<char>, bool)>, snap: Seq<Seq<char>>)
    ensures
        forall|i: int|
            0 <= i < disconnect_events(m, snap).len() ==> (#[trigger] disconnect_events(
                m,
                snap,
            )[i]).1 == Update::Disconnected,
    decreases m.len(),
{
    if m.len() > 0 {
        lemma_disconnect_events_all_disconnect(m.drop_first(), snap);
        let d = disconnect_events(m, snap);
        let rest = disconnect_events(m.drop_first(), snap);
        if m[0].1 && !snap.contains(m[0].0) {
            assert forall|i: int| 0 <= i < d.len() implies (#[trigger] d[i]).1
                == Update::Disconnected by {
                if i == 0 {
                    assert(d[0] == (m[0].0, Update::Disconnected));
                } else {
                    assert(d[i] == rest[i - 1]);
                }
            }
        }
    }
}

proof fn lemma_connect_step_no_disconnect(m: Seq<(Seq<char>, bool)>, snap: Seq<Seq<char>>)
    ensures
        forall|i: int|
            0 <= i < connect_step(m, snap).1.len() ==> (#[trigger] connect_step(m, snap).1[i]).1
                != Update::Disconnected,
    decreases snap.len(),
{
    if snap.len() > 0 {
        let k = snap[0];
        let c = connect_step(m, snap).1;
        if !map_has(m, k) {
            let rest = connect_step(m.push((k, true)), snap.drop_first()).1;
            lemma_connect_step_no_disconnect(m.push((k, true)), snap.drop_first());
            assert forall|i: int| 0 <= i < c.len() implies (#[trigger] c[i]).1
                != Update::Disconnected by {
                if i == 0 {
                    assert(c[0] == (k, Update::New));
                } else {
                    assert(c[i] == rest[i - 1]);
                }
            }
        } else if !flag_of(m, k) {
            let rest = connect_step(set_connected(m, k), snap.drop_first()).1;
            lemma_connect_step_no_disconnect(set_connected(m, k), snap.drop_first());
            assert forall|i: int| 0 <= i < c.len() implies (#[trigger] c[i]).1
                != Update::Disconnected by {
                if i == 0 {
                    assert(c[0] == (k, Update::Connected));
                } else {
                    assert(c[i] == rest[i - 1]);
                }
            }
        } else {
            lemma_connect_step_no_disconnect(m, snap.drop_first());
        }
    }
}

/// Ordering law: within the event sequence of one poll cycle, every
/// disconnect event precedes every connect and discovery event.
pub proof fn lemma_disconnects_precede(m: Seq<(Seq<char>, bool)>, snap: Seq<Seq<char>>)
    ensures
        forall|i: int, j: int|
            0 <= i < j < update_events(m, snap).len() && (#[trigger] update_events(m, snap)[j]).1
                == Update::Disconnected ==> (#[trigger] update_events(m, snap)[i]).1
                == Update::Disconnected,
{
    let d = disconnect_events(m, snap);
    let c = connect_step(disconnect_map(m, snap), snap).1;
    lemma_disconnect_events_all_disconnect(m, snap);
    lemma_connect_step_no_disconnect(disconnect_map(m, snap), snap);
    assert forall|i: int, j: int|
        0 <= i < j < update_events(m, snap).len() && (#[trigger] update_events(m, snap)[j]).1
            == Update::Disconnected implies (#[trigger] update_events(m, snap)[i]).1
        == Update::Disconnected by {
        let ev = update_events(m, snap);
        if j >= d.len() {
            assert(ev[j] == c[j - d.len()]);
        }
        assert(j < d.len());
        assert(ev[i] == d[i]);
    }
}

proof fn lemma_connect_step_keeps_keys(
    m: Seq<(Seq<char>, bool)>,
    snap: Seq<Seq<char>>,
    k: Seq<char>,
)
    requires
        map_has(m, k),
    ensures
        map_has(connect_step(m, snap).0, k),
    decreases snap.len(),
{
    if snap.len() > 0 {
        let k0 = snap[0];
        let i = choose|i: int| 0 <= i < m.len() && m[i].0 == k;
        if !map_has(m, k0) {
            let m2 = m.push((k0, true));
            assert(m2[i] == m[i]);
            assert(map_has(m2, k));
            lemma_connect_step_keeps_keys(m2, snap.drop_first(), k);
        } else if !flag_of(m, k0) {
            let m2 = set_connected(m, k0);
            assert(m2[i].0 == k);
            assert(map_has(m2, k));
            lemma_connect_step_keeps_keys(m2, snap.drop_first(), k);
        } else {
            lemma_connect_step_keeps_keys(m, snap.drop_first(), k);
        }
    }
}

proof fn lemma_connect_step_prefix(m: Seq<(Seq<char>, bool)>, snap: Seq<Seq<char>>)
    ensures
        connect_step(m, snap).0.len() >= m.len(),
        forall|i: int| 0 <= i < m.len() ==> (#[trigger] connect_step(m, snap).0[i]).0 == m[i].0,
    decreases snap.len(),
{
    if snap.len() > 0 {
        let k0 = snap[0];
        let rest = snap.drop_first();
        if !map_has(m, k0) {
            let m2 = m.push((k0, true));
            lemma_connect_step_prefix(m2, rest);
            assert forall|i: int| 0 <= i < m.len() implies (#[trigger] connect_step(
                m,
                snap,
            ).0[i]).0 == m[i].0 by {
                assert(connect_step(m, snap).0[i].0 == m2[i].0);
            }
        } else if !flag_of(m, k0) {
            let m2 = set_connected(m, k0);
            lemma_connect_step_prefix(m2, rest);
            assert forall|i: int| 0 <= i < m.len() implies (#[trigger] connect_step(
                m,
                snap,
            ).0[i]).0 == m[i].0 by {
                assert(connect_step(m, snap).0[i].0 == m2[i].0);
                assert(m2[i].0 == m[i].0);
            }
        } else {
            lemma_connect_step_prefix(m, rest);
        }
    }
}

/// Registry law: a poll cycle never removes an entry — every known device
/// keeps its position and identifier, only flags toggle and new devices are
/// appended; in particular a device once in the map is in the map after any
/// poll cycle.
pub proof fn lemma_registry_monotone(
    m: Seq<(Seq<char>, bool)>,
    snap: Seq<Seq<char>>,
    k: Seq<char>,
)
    requires
        map_has(m, k),
    ensures
        map_has(update_map(m, snap), k),
        update_map(m, snap).len() >= m.len(),
        forall|i: int| 0 <= i < m.len() ==> (#[trigger] update_map(m, snap)[i]).0 == m[i].0,
{
    let m1 = disconnect_map(m, snap);
    let i = choose|i: int| 0 <= i < m.len() && m[i].0 == k;
    assert(m1[i].0 == k);
    assert(map_has(m1, k));
    lemma_connect_step_keeps_keys(m1, snap, k);
    lemma_connect_step_prefix(m1, snap);
    assert forall|j: int| 0 <= j < m.len() implies (#[trigger] update_map(m, snap)[j]).0
        == m[j].0 by {
        assert(update_map(m, snap)[j].0 == m1[j].0);
        assert(m1[j].0 == m[j].0);
    }
}

/// The connection map: device identifier to connected flag. A device, once
/// observed, is never removed; only its flag toggles.
pub struct DeviceStates {
    devices: Vec<(String, bool)>,
}

/// The abstract connection map held by a vector of entries.
spec fn map_view(devices: Seq<(String, bool)>) -> Seq<(Seq<char>, bool)> {
    devices.map_values(|e: (String, bool)| (e.0@, e.1))
}

impl View for DeviceStates {
    type V = Seq<(Seq<char>, bool)>;

    closed spec fn view(&self) -> Seq<(Seq<char>, bool)> {
        map_view(self.devices@)
    }
}

impl Default for DeviceStates {
    /// The empty map, before the first poll.
    fn default() -> (s: Self)
        ensures
            s@ == Seq::<(Seq<char>, bool)>::empty(),
    {
        let s = DeviceStates { devices: Vec::new() };
        proof {
            assert(s@ =~= Seq::<(Seq<char>, bool)>::empty());
        }
        s
    }
}

/// Whether some identifier of `v` has the characters `k`.
fn contains_string(v: &Vec<String>, k: &String) -> (r: bool)
    ensures
        r == snapshot_view(v@).contains(k@),
{
    let n = v.len();
    let mut i: usize = 0;
    while i < n
        invariant
            i <= n,
            n == v@.len(),
            forall|j: int| 0 <= j < i ==> v@[j]@ != k@,
        decreases n - i,
    {
        if v[i].eq(k) {
            proof {
                assert(snapshot_view(v@)[i as int] == k@);
            }
            return true;
        }
        i = i + 1;
    }
    proof {
        assert forall|j: int| 0 <= j < snapshot_view(v@).len() implies snapshot_view(v@)[j]
            != k@ by {
            assert(snapshot_view(v@)[j] == v@[j]@);
        }
    }
    false
}

/// The position of device `k` in the registry, if it is known.
fn find_device(devices: &Vec<(String, bool)>, k: &String) -> (r: Option<usize>)
    ensures
        match r {
            Some(i) => i < devices@.len() && devices@[i as int].0@ == k@,
            None => forall|j: int| 0 <= j < devices@.len() ==> devices@[j].0@ != k@,
        },
{
    let n = devices.len();
    let mut i: usize = 0;
    while i < n
        invariant
            i <= n,
            n == devices@.len(),
            forall|j: int| 0 <= j < i ==> devices@[j].0@ != k@,
        decreases n - i,
    {
        if devices[i].0.eq(k) {
            return Some(i);
        }
        i = i + 1;
    }
    None
}

/// In a well-formed map an entry's position is the position `index_of`
/// picks, so its flag is what `flag_of` says.
proof fn lemma_index_of(m: Seq<(Seq<char>, bool)>, k: Seq<char>, i: int)
    requires
        wf_map(m),
        0 <= i < m.len(),
        m[i].0 == k,
    ensures
        map_has(m, k),
        index_of(m, k) == i,
        flag_of(m, k) == m[i].1,
{
    assert(map_has(m, k));
    let j = index_of(m, k);
    assert(0 <= j < m.len() && m[j].0 == k);
    if j < i {
        assert(m[j].0 != m[i].0);
    } else if i < j {
        assert(m[i].0 != m[j].0);
    }
}

impl DeviceStates {
    #[verifier::type_invariant]
    spec fn inv(self) -> bool {
        wf_map(self@)
    }

    /// Feed one snapshot to the diff engine: lower the flag of every
    /// connected device that the snapshot misses, raise the flag of every
    /// snapshot device known with a lowered flag, insert unknown snapshot
    /// devices as connected, and return the transition events in order —
    /// disconnects first, then connects and discoveries in snapshot order.
    /// A snapshot that matches the connected set exactly returns no events;
    /// duplicates within one snapshot produce one event at most.
    pub fn update(&mut self, new: Vec<String>) -> (updated: Vec<(String, Update)>)
        ensures
            final(self)@ == update_map(old(self)@, snapshot_view(new@)),
            events_view(updated@) == update_events(old(self)@, snapshot_view(new@)),
    {
        proof {
            use_type_invariant(&*self);
        }
        let ghost m0 = self@;
        let ghost snap = snapshot_view(new@);
        let mut updated: Vec<(String, Update)> = Vec::new();
        let mut devices: Vec<(String, bool)> = Vec::new();
        core::mem::swap(&mut devices, &mut self.devices);
        proof {
            assert(map_view(devices@) == m0);
            assert(self@ =~= Seq::<(Seq<char>, bool)>::empty());
            assert(m0.skip(0) =~= m0);
            assert(events_view(updated@) =~= Seq::<(Seq<char>, Update)>::empty());
            assert(Seq::<(Seq<char>, Update)>::empty() + disconnect_events(m0, snap)
                =~= disconnect_events(m0, snap));
        }

        // Disconnect phase.
        let n = devices.len();
        let mut i: usize = 0;
        while i < n
            invariant
                i <= n,
                n == devices@.len(),
                map_view(devices@).len() == m0.len(),
                snap == snapshot_view(new@),
                wf_map(map_view(devices@)),
                forall|j: int| 0 <= j < i ==> map_view(devices@)[j] == disconnect_map(m0, snap)[j],
                forall|j: int| i <= j < m0.len() ==> map_view(devices@)[j] == m0[j],
                disconnect_events(m0, snap) == events_view(updated@) + disconnect_events(
                    m0.skip(i as int),
                    snap,
                ),
            decreases n - i,
        {
            proof {
                assert(map_view(devices@)[i as int] == m0[i as int]);
                assert(m0.skip(i as int)[0] == m0[i as int]);
                assert(m0.skip(i as int).drop_first() =~= m0.skip(i as int + 1));
            }
            let ghost pre = map_view(devices@);
            let ghost ev_pre = events_view(updated@);
            if devices[i].1 {
                let mac = devices[i].0.clone();
                if !contains_string(&new, &mac) {
                    devices[i] = (mac.clone(), false);
                    updated.push((mac, Update::Disconnected));
                    proof {
                        assert(map_view(devices@) =~= pre.update(
                            i as int,
                            (m0[i as int].0, false),
                        ));
                        assert(wf_map(map_view(devices@))) by {
                            assert(forall|j: int|
                                0 <= j < pre.len() ==> map_view(devices@)[j].0 == pre[j].0);
                        }
                        assert(events_view(updated@) =~= ev_pre + seq![
                            (m0[i as int].0, Update::Disconnected),
                        ]);
                        assert(disconnect_events(m0.skip(i as int), snap) == seq![
                            (m0[i as int].0, Update::Disconnected),
                        ] + disconnect_events(m0.skip(i as int + 1), snap));
                        assert(events_view(updated@) + disconnect_events(
                            m0.skip(i as int + 1),
                            snap,
                        ) =~= ev_pre + disconnect_events(m0.skip(i as int), snap));
                        assert(map_view(devices@)[i as int] == disconnect_map(m0, snap)[i as int]);
                    }
                }
            }
            proof {
                assert(map_view(devices@)[i as int] == disconnect_map(m0, snap)[i as int]);
            }
            i = i + 1;
        }
        proof {
            assert(map_view(devices@) =~= disconnect_map(m0, snap));
            assert(m0.skip(n as int) =~= Seq::<(Seq<char>, bool)>::empty());
            assert(events_view(updated@) + disconnect_events(m0.skip(n as int), snap)
                =~= events_view(updated@));
        }
        let ghost m1 = map_view(devices@);
        let ghost d_events = events_view(updated@);

        // Connect/discover phase.
        let ghost mut ev2: Seq<(Seq<char>, Update)> = Seq::empty();
        proof {
            assert(d_events + ev2 =~= d_events);
            assert(snap.skip(0) =~= snap);
            assert(ev2 + connect_step(m1, snap).1 =~= connect_step(m1, snap).1);
        }
        let nn = new.len();
        let mut idx: usize = 0;
        while idx < nn
            invariant
                idx <= nn,
                nn == new@.len(),
                snap == snapshot_view(new@),
                wf_map(map_view(devices@)),
                events_view(updated@) == d_events + ev2,
                connect_step(m1, snap).0 == connect_step(
                    map_view(devices@),
                    snap.skip(idx as int),
                ).0,
                connect_step(m1, snap).1 == ev2 + connect_step(
                    map_view(devices@),
                    snap.skip(idx as int),
                ).1,
            decreases nn - idx,
        {
            let ghost pre = map_view(devices@);
            let ghost k = new@[idx as int]@;
            proof {
                assert(snap.skip(idx as int)[0] == snap[idx as int]);
                assert(snap[idx as int] == k);
                assert(snap.skip(idx as int).drop_first() =~= snap.skip(idx as int + 1));
            }
            let mac = new[idx].clone();
            match find_device(&devices, &mac) {
                Some(pos) => {
                    proof {
                        assert(pre[pos as int].0 == k);
                        lemma_index_of(pre, k, pos as int);
                    }
                    if !devices[pos].1 {
                        let key = devices[pos].0.clone();
                        devices[pos] = (key, true);
                        updated.push((mac, Update::Connected));
                        proof {
                            let ghost ev2_old = ev2;
                            assert(map_view(devices@) =~= pre.update(pos as int, (k, true)));
                            assert forall|j: int| 0 <= j < pre.len() implies map_view(devices@)[j]
                                == set_connected(pre, k)[j] by {
                                if j != pos {
                                    assert(pre[j].0 != pre[pos as int].0);
                                }
                            }
                            assert(map_view(devices@) =~= set_connected(pre, k));
                            assert(wf_map(map_view(devices@))) by {
                                assert(forall|j: int|
                                    0 <= j < pre.len() ==> map_view(devices@)[j].0 == pre[j].0);
                            }
                            let ghost rest = connect_step(
                                map_view(devices@),
                                snap.skip(idx as int + 1),
                            ).1;
                            ev2 = ev2 + seq![(k, Update::Connected)];
                            assert(events_view(updated@) =~= (d_events + ev2_old).push(
                                (k, Update::Connected),
                            ));
                            assert(events_view(updated@) =~= d_events + ev2);
                            assert(connect_step(pre, snap.skip(idx as int)).1 == seq![
                                (k, Update::Connected),
                            ] + rest);
                            assert(ev2_old + (seq![(k, Update::Connected)] + rest) =~= ev2
                                + rest);
                        }
                    } else {
                        proof {
                            assert(flag_of(pre, k));
                            assert(connect_step(pre, snap.skip(idx as int)) == connect_step(
                                pre,
                                snap.skip(idx as int + 1),
                            ));
                        }
                    }
                },
                None => {
                    proof {
                        assert(!map_has(pre, k)) by {
                            assert forall|j: int| 0 <= j < pre.len() implies pre[j].0 != k by {
                                assert(pre[j].0 == devices@[j].0@);
                            }
                        }
                    }
                    devices.push((mac.clone(), true));
                    updated.push((mac, Update::New));
                    proof {
                        let ghost ev2_old = ev2;
                        assert(map_view(devices@) =~= pre.push((k, true)));
                        assert(wf_map(map_view(devices@))) by {
                            assert forall|a: int, b: int|
                                0 <= a < b < map_view(devices@).len() implies map_view(
                                devices@,
                            )[a].0 != map_view(devices@)[b].0 by {
                                if b == pre.len() {
                                    assert(map_view(devices@)[a].0 == pre[a].0);
                                    assert(!map_has(pre, k));
                                    assert(pre[a].0 != k);
                                }
                            }
                        }
                        let ghost rest = connect_step(
                            map_view(devices@),
                            snap.skip(idx as int + 1),
                        ).1;
                        ev2 = ev2 + seq![(k, Update::New)];
                        assert(events_view(updated@) =~= (d_events + ev2_old).push(
                            (k, Update::New),
                        ));
                        assert(events_view(updated@) =~= d_events + ev2);
                        assert(connect_step(pre, snap.skip(idx as int)).1 == seq![
                            (k, Update::New),
                        ] + rest);
                        assert(ev2_old + (seq![(k, Update::New)] + rest) =~= ev2 + rest);
                    }
                },
            }
            idx = idx + 1;
        }
        proof {
            assert(snap.skip(nn as int) =~= Seq::<Seq<char>>::empty());
            assert(connect_step(map_view(devices@), snap.skip(nn as int)).0 == map_view(devices@));
            assert(connect_step(map_view(devices@), snap.skip(nn as int)).1 == Seq::<
                (Seq<char>, Update),
            >::empty());
            assert(ev2 + Seq::<(Seq<char>, Update)>::empty() =~= ev2);
            assert(map_view(devices@) == update_map(m0, snap));
            assert(events_view(updated@) =~= update_events(m0, snap));
        }
        core::mem::swap(&mut devices, &mut self.devices);
        updated
    }

    /// Render the metrics exposition text: one `wifi_client` line per known
    /// device with its connected flag as the sample value.
    pub fn format(&self) -> (out: String)
        ensures
            out@ == metrics_text(self@),
    {
        let mut out = String::new();
        proof {
            assert(self@.skip(0) =~= self@);
            assert(Seq::<char>::empty() + metrics_text(self@) =~= metrics_text(self@));
        }
        let n = self.devices.len();
        let mut i: usize = 0;
        while i < n
            invariant
                i <= n,
                n == self.devices@.len(),
                metrics_text(self@) == out@ + metrics_text(self@.skip(i as int)),
            decreases n - i,
        {
            proof {
                assert(self@.skip(i as int)[0] == self@[i as int]);
                assert(self@.skip(i as int).drop_first() =~= self@.skip(i as int + 1));
            }
            let ghost pre = out@;
            out.append("wifi_client{mac=\"");
            out.append(self.devices[i].0.as_str());
            out.append("\"} ");
            if self.devices[i].1 {
                out.append("1");
            } else {
                out.append("0");
            }
            out.append("\n");
            proof {
                assert(out@ =~= pre + metrics_line(self@[i as int].0, self@[i as int].1));
                assert(pre + metrics_text(self@.skip(i as int)) =~= (pre + metrics_line(
                    self@[i as int].0,
                    self@[i as int].1,
                )) + metrics_text(self@.skip(i as int + 1)));
            }
            i = i + 1;
        }
        proof {
            assert(self@.skip(n as int) =~= Seq::<(Seq<char>, bool)>::empty());
            assert(out@ + metrics_text(self@.skip(n as int)) =~= out@);
        }
        out
    }
}

} // verus!
