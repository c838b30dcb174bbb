use vstd::prelude::*;

use crate::client_types::{ClientId, QoS};
use crate::topic::{filter_matches, hash_level, no_wildcard_levels, plus_level, TopicFilter, TopicName, HASH_BYTE, PLUS_BYTE};

verus! {

/// A subscriber as a match reports it: the client and its granted QoS.
#[derive(Clone, Copy, Debug, PartialEq, Eq, Structural)]
pub struct SubScriber {
    pub client_id: ClientId,
    pub qos: QoS,
}

/// What one subscription record holds, abstractly: the direct subscribers in
/// insertion order (one entry per client), and the shared groups in creation
/// order, each a name and its members in insertion order.
pub struct RecordView {
    pub subs: Seq<SubScriber>,
    pub groups: Seq<(Seq<u8>, Seq<SubScriber>)>,
}

/// The record of a node no filter was ever attached to.
pub open spec fn empty_rv() -> RecordView {
    RecordView { subs: Seq::empty(), groups: Seq::empty() }
}

/// Some entry of `subs` belongs to `cid`.
pub open spec fn subs_has_client(subs: Seq<SubScriber>, cid: ClientId) -> bool {
    exists|k: int| 0 <= k < subs.len() && subs[k].client_id == cid
}

/// Update the entry of `cid` in place, or append one.
pub open spec fn upsert_sub(subs: Seq<SubScriber>, cid: ClientId, qos: QoS) -> Seq<SubScriber>
    decreases subs.len(),
{
    if subs.len() == 0 {
        seq![SubScriber { client_id: cid, qos }]
    } else if subs[0].client_id == cid {
        seq![SubScriber { client_id: cid, qos }] + subs.drop_first()
    } else {
        seq![subs[0]] + upsert_sub(subs.drop_first(), cid, qos)
    }
}

/// Drop the first entry of `cid`, if any.
pub open spec fn remove_sub(subs: Seq<SubScriber>, cid: ClientId) -> Seq<SubScriber>
    decreases subs.len(),
{
    if subs.len() == 0 {
        subs
    } else if subs[0].client_id == cid {
        subs.drop_first()
    } else {
        seq![subs[0]] + remove_sub(subs.drop_first(), cid)
    }
}

/// Some group is named `name`.
pub open spec fn groups_has(gs: Seq<(Seq<u8>, Seq<SubScriber>)>, name: Seq<u8>) -> bool {
    exists|k: int| 0 <= k < gs.len() && gs[k].0 == name
}

/// The group named `name` has an entry for `cid`.
pub open spec fn shared_has(
    gs: Seq<(Seq<u8>, Seq<SubScriber>)>,
    name: Seq<u8>,
    cid: ClientId,
) -> bool {
    exists|k: int| 0 <= k < gs.len() && gs[k].0 == name && subs_has_client(gs[k].1, cid)
}

/// Upsert `cid` into the group named `name`, creating the group at the end
/// if it does not exist yet.
pub open spec fn add_shared(
    gs: Seq<(Seq<u8>, Seq<SubScriber>)>,
    name: Seq<u8>,
    cid: ClientId,
    qos: QoS,
) -> Seq<(Seq<u8>, Seq<SubScriber>)>
    decreases gs.len(),
{
    if gs.len() == 0 {
        seq![(name, seq![SubScriber { client_id: cid, qos }])]
    } else if gs[0].0 == name {
        seq![(gs[0].0, upsert_sub(gs[0].1, cid, qos))] + gs.drop_first()
    } else {
        seq![gs[0]] + add_shared(gs.drop_first(), name, cid, qos)
    }
}

/// Drop the first entry of `cid` from the group named `name`, if both exist.
/// A group that becomes empty stays, and contributes nothing to matches.
pub open spec fn remove_shared(
    gs: Seq<(Seq<u8>, Seq<SubScriber>)>,
    name: Seq<u8>,
    cid: ClientId,
) -> Seq<(Seq<u8>, Seq<SubScriber>)>
    decreases gs.len(),
{
    if gs.len() == 0 {
        gs
    } else if gs[0].0 == name {
        seq![(gs[0].0, remove_sub(gs[0].1, cid))] + gs.drop_first()
    } else {
        seq![gs[0]] + remove_shared(gs.drop_first(), name, cid)
    }
}

/// What attaching one subscription does to a record.
pub open spec fn rv_add(
    rv: RecordView,
    group: Option<Seq<u8>>,
    cid: ClientId,
    qos: QoS,
) -> RecordView {
    match group {
        None => RecordView { subs: upsert_sub(rv.subs, cid, qos), groups: rv.groups },
        Some(g) => RecordView { subs: rv.subs, groups: add_shared(rv.groups, g, cid, qos) },
    }
}

/// Whether attaching would create a new entry (rather than update one).
pub open spec fn rv_add_is_new(rv: RecordView, group: Option<Seq<u8>>, cid: ClientId) -> bool {
    match group {
        None => !subs_has_client(rv.subs, cid),
        Some(g) => !shared_has(rv.groups, g, cid),
    }
}

/// What detaching one subscription does to a record.
pub open spec fn rv_remove(rv: RecordView, group: Option<Seq<u8>>, cid: ClientId) -> RecordView {
    match group {
        None => RecordView { subs: remove_sub(rv.subs, cid), groups: rv.groups },
        Some(g) => RecordView { subs: rv.subs, groups: remove_shared(rv.groups, g, cid) },
    }
}

/// Whether detaching actually drops an entry.
pub open spec fn rv_remove_hits(rv: RecordView, group: Option<Seq<u8>>, cid: ClientId) -> bool {
    match group {
        None => subs_has_client(rv.subs, cid),
        Some(g) => shared_has(rv.groups, g, cid),
    }
}

/// Each client has at most one entry.
pub open spec fn subs_unique(subs: Seq<SubScriber>) -> bool {
    forall|a: int, b: int|
        0 <= a < b < subs.len() ==> (#[trigger] subs[a]).client_id != (#[trigger] subs[b]).client_id
}

/// Group names are unique and each group lists each client at most once.
pub open spec fn groups_wf(gs: Seq<(Seq<u8>, Seq<SubScriber>)>) -> bool {
    &&& forall|a: int, b: int| 0 <= a < b < gs.len() ==> (#[trigger] gs[a]).0 != (#[trigger] gs[b]).0
    &&& forall|k: int| 0 <= k < gs.len() ==> subs_unique((#[trigger] gs[k]).1)
}

/// A well-formed record.
pub open spec fn rv_wf(rv: RecordView) -> bool {
    subs_unique(rv.subs) && groups_wf(rv.groups)
}

/// How many subscription entries a record holds in total.
pub open spec fn groups_members_total(gs: Seq<(Seq<u8>, Seq<SubScriber>)>) -> nat
    decreases gs.len(),
{
    if gs.len() == 0 {
        0nat
    } else {
        gs[0].1.len() + groups_members_total(gs.drop_first())
    }
}

pub open spec fn rv_total(rv: RecordView) -> nat {
    rv.subs.len() + groups_members_total(rv.groups)
}

// ---------------------------------------------------------------------------
// Properties of the view-level record operations.
// ---------------------------------------------------------------------------

/// Upserting keeps entries unique, keeps every other client's entry, leaves
/// exactly one entry for `cid`, and grows the record only when `cid` was new.
pub proof fn lemma_upsert_sub_props(subs: Seq<SubScriber>, cid: ClientId, qos: QoS)
    requires
        subs_unique(subs),
    ensures
        subs_unique(upsert_sub(subs, cid, qos)),
        upsert_sub(subs, cid, qos).len() == subs.len() + (if subs_has_client(subs, cid) {
            0int
        } else {
            1int
        }),
        forall|s: SubScriber|
            #[trigger] upsert_sub(subs, cid, qos).contains(s) <==> (s == SubScriber {
                client_id: cid,
                qos,
            } || (subs.contains(s) && s.client_id != cid)),
    decreases subs.len(),
{
    let r = upsert_sub(subs, cid, qos);
    if subs.len() == 0 {
        assert forall|s: SubScriber| #[trigger] r.contains(s) implies (s == SubScriber {
            client_id: cid,
            qos,
        } || (subs.contains(s) && s.client_id != cid)) by {
            assert(r[0] == SubScriber { client_id: cid, qos });
        }
        assert(r.contains(SubScriber { client_id: cid, qos })) by {
            assert(r[0] == SubScriber { client_id: cid, qos });
        }
    } else if subs[0].client_id == cid {
        let rest = subs.drop_first();
        assert(subs_has_client(subs, cid)) by {
            assert(subs[0].client_id == cid);
        }
        assert(r == seq![SubScriber { client_id: cid, qos }] + rest);
        assert forall|s: SubScriber| #[trigger] r.contains(s) implies (s == SubScriber {
            client_id: cid,
            qos,
        } || (subs.contains(s) && s.client_id != cid)) by {
            let k = choose|k: int| 0 <= k < r.len() && r[k] == s;
            if k > 0 {
                assert(s == subs[k]);
                assert(subs[0].client_id != subs[k].client_id);
            }
        }
        assert forall|s: SubScriber|
            (s == SubScriber { client_id: cid, qos } || (subs.contains(s) && s.client_id
                != cid)) implies #[trigger] r.contains(s) by {
            if s == (SubScriber { client_id: cid, qos }) {
                assert(r[0] == s);
            } else {
                let k = choose|k: int| 0 <= k < subs.len() && subs[k] == s;
                assert(k > 0);
                assert(r[k] == subs[k]);
            }
        }
        assert(subs_unique(r)) by {
            assert forall|a: int, b: int| 0 <= a < b < r.len() implies (#[trigger] r[a]).client_id
                != (#[trigger] r[b]).client_id by {
                if a == 0 {
                    assert(r[b] == subs[b]);
                    assert(subs[0].client_id != subs[b].client_id);
                } else {
                    assert(r[a] == subs[a] && r[b] == subs[b]);
                }
            }
        }
    } else {
        let rest = subs.drop_first();
        assert(subs_unique(rest)) by {
            assert forall|a: int, b: int|
                0 <= a < b < rest.len() implies (#[trigger] rest[a]).client_id
                != (#[trigger] rest[b]).client_id by {
                assert(rest[a] == subs[a + 1] && rest[b] == subs[b + 1]);
            }
        }
        lemma_upsert_sub_props(rest, cid, qos);
        let rr = upsert_sub(rest, cid, qos);
        assert(r == seq![subs[0]] + rr);
        assert(subs_has_client(subs, cid) == subs_has_client(rest, cid)) by {
            if subs_has_client(subs, cid) {
                let k = choose|k: int| 0 <= k < subs.len() && subs[k].client_id == cid;
                assert(k > 0);
                assert(rest[k - 1].client_id == cid);
            }
            if subs_has_client(rest, cid) {
                let k = choose|k: int| 0 <= k < rest.len() && rest[k].client_id == cid;
                assert(subs[k + 1].client_id == cid);
            }
        }
        assert forall|s: SubScriber| #[trigger] r.contains(s) implies (s == SubScriber {
            client_id: cid,
            qos,
        } || (subs.contains(s) && s.client_id != cid)) by {
            let k = choose|k: int| 0 <= k < r.len() && r[k] == s;
            if k == 0 {
                assert(s == subs[0]);
            } else {
                assert(rr[k - 1] == s);
                assert(rr.contains(s));
                if !(s == SubScriber { client_id: cid, qos }) {
                    assert(rest.contains(s) && s.client_id != cid);
                    let m = choose|m: int| 0 <= m < rest.len() && rest[m] == s;
                    assert(subs[m + 1] == s);
                }
            }
        }
        assert forall|s: SubScriber|
            (s == SubScriber { client_id: cid, qos } || (subs.contains(s) && s.client_id
                != cid)) implies #[trigger] r.contains(s) by {
            if s == (SubScriber { client_id: cid, qos }) {
                assert(rr.contains(s));
                let m = choose|m: int| 0 <= m < rr.len() && rr[m] == s;
                assert(r[m + 1] == s);
            } else {
                let k = choose|k: int| 0 <= k < subs.len() && subs[k] == s;
                if k == 0 {
                    assert(r[0] == s);
                } else {
                    assert(rest[k - 1] == s);
                    assert(rest.contains(s));
                    assert(rr.contains(s));
                    let m = choose|m: int| 0 <= m < rr.len() && rr[m] == s;
                    assert(r[m + 1] == s);
                }
            }
        }
        assert(subs_unique(r)) by {
            assert forall|a: int, b: int| 0 <= a < b < r.len() implies (#[trigger] r[a]).client_id
                != (#[trigger] r[b]).client_id by {
                if a == 0 {
                    assert(r[b] == rr[b - 1]);
                    assert(rr.contains(rr[b - 1]));
                    if rr[b - 1].client_id == subs[0].client_id {
                        if rr[b - 1] == (SubScriber { client_id: cid, qos }) {
                            assert(subs[0].client_id != cid);
                            assert(false);
                        } else {
                            assert(rest.contains(rr[b - 1]));
                            let m = choose|m: int| 0 <= m < rest.len() && rest[m] == rr[b - 1];
                            assert(subs[m + 1] == rr[b - 1]);
                            assert(subs[0].client_id != subs[m + 1].client_id);
                            assert(false);
                        }
                    }
                } else {
                    assert(r[a] == rr[a - 1] && r[b] == rr[b - 1]);
                }
            }
        }
    }
}

/// The members of the first group named `name`; empty if there is none.
pub open spec fn group_members(gs: Seq<(Seq<u8>, Seq<SubScriber>)>, name: Seq<u8>) -> Seq<
    SubScriber,
>
    decreases gs.len(),
{
    if gs.len() == 0 {
        Seq::empty()
    } else if gs[0].0 == name {
        gs[0].1
    } else {
        group_members(gs.drop_first(), name)
    }
}

proof fn lemma_groups_wf_drop(gs: Seq<(Seq<u8>, Seq<SubScriber>)>)
    requires
        groups_wf(gs),
        gs.len() > 0,
    ensures
        groups_wf(gs.drop_first()),
{
    let rest = gs.drop_first();
    assert forall|a: int, b: int| 0 <= a < b < rest.len() implies (#[trigger] rest[a]).0
        != (#[trigger] rest[b]).0 by {
        assert(rest[a] == gs[a + 1] && rest[b] == gs[b + 1]);
    }
    assert forall|k: int| 0 <= k < rest.len() implies subs_unique((#[trigger] rest[k]).1) by {
        assert(rest[k] == gs[k + 1]);
    }
}

/// With unique group names, the existential membership tests agree with the
/// first-match readings.
pub proof fn lemma_groups_lookup(gs: Seq<(Seq<u8>, Seq<SubScriber>)>, name: Seq<u8>)
    requires
        groups_wf(gs),
    ensures
        !groups_has(gs, name) ==> group_members(gs, name) == Seq::<SubScriber>::empty(),
        forall|cid: ClientId|
            #[trigger] shared_has(gs, name, cid) == (groups_has(gs, name) && subs_has_client(
                group_members(gs, name),
                cid,
            )),
    decreases gs.len(),
{
    if gs.len() > 0 {
        lemma_groups_wf_drop(gs);
        lemma_groups_lookup(gs.drop_first(), name);
        let rest = gs.drop_first();
        assert forall|cid: ClientId| #[trigger] shared_has(gs, name, cid) == (groups_has(gs, name)
            && subs_has_client(group_members(gs, name), cid)) by {
            if gs[0].0 == name {
                assert(groups_has(gs, name)) by {
                    assert(gs[0].0 == name);
                }
                assert(group_members(gs, name) == gs[0].1);
                if shared_has(gs, name, cid) {
                    let k = choose|k: int|
                        0 <= k < gs.len() && gs[k].0 == name && subs_has_client(gs[k].1, cid);
                    assert(k == 0) by {
                        if k > 0 {
                            assert(gs[0].0 != gs[k].0);
                        }
                    }
                }
                if subs_has_client(gs[0].1, cid) {
                    assert(shared_has(gs, name, cid)) by {
                        assert(gs[0].0 == name && subs_has_client(gs[0].1, cid));
                    }
                }
            } else {
                assert(group_members(gs, name) == group_members(rest, name));
                if shared_has(gs, name, cid) {
                    let k = choose|k: int|
                        0 <= k < gs.len() && gs[k].0 == name && subs_has_client(gs[k].1, cid);
                    assert(k > 0);
                    assert(rest[k - 1] == gs[k]);
                    assert(shared_has(rest, name, cid)) by {
                        assert(rest[k - 1].0 == name && subs_has_client(rest[k - 1].1, cid));
                    }
                }
                if shared_has(rest, name, cid) {
                    let k = choose|k: int|
                        0 <= k < rest.len() && rest[k].0 == name && subs_has_client(rest[k].1, cid);
                    assert(gs[k + 1] == rest[k]);
                    assert(shared_has(gs, name, cid)) by {
                        assert(gs[k + 1].0 == name && subs_has_client(gs[k + 1].1, cid));
                    }
                }
                if groups_has(gs, name) {
                    let k = choose|k: int| 0 <= k < gs.len() && gs[k].0 == name;
                    assert(k > 0);
                    assert(rest[k - 1] == gs[k]);
                    assert(groups_has(rest, name)) by {
                        assert(rest[k - 1].0 == name);
                    }
                }
                if groups_has(rest, name) {
                    let k = choose|k: int| 0 <= k < rest.len() && rest[k].0 == name;
                    assert(gs[k + 1] == rest[k]);
                    assert(groups_has(gs, name)) by {
                        assert(gs[k + 1].0 == name);
                    }
                }
            }
        }
        if !groups_has(gs, name) {
            assert(gs[0].0 != name) by {
                if gs[0].0 == name {
                    assert(groups_has(gs, name));
                }
            }
            assert(!groups_has(rest, name)) by {
                if groups_has(rest, name) {
                    let k = choose|k: int| 0 <= k < rest.len() && rest[k].0 == name;
                    assert(gs[k + 1] == rest[k]);
                    assert(groups_has(gs, name));
                }
            }
        }
    }
}

/// Adding to a group keeps the groups well-formed, updates exactly the named
/// group (creating it at the end if needed), and grows the total only when
/// the client was not yet in the group.
pub proof fn lemma_add_shared_props(
    gs: Seq<(Seq<u8>, Seq<SubScriber>)>,
    name: Seq<u8>,
    cid: ClientId,
    qos: QoS,
)
    requires
        groups_wf(gs),
    ensures
        groups_wf(add_shared(gs, name, cid, qos)),
        group_members(add_shared(gs, name, cid, qos), name) == upsert_sub(
            group_members(gs, name),
            cid,
            qos,
        ),
        forall|n2: Seq<u8>|
            n2 != name ==> #[trigger] group_members(add_shared(gs, name, cid, qos), n2)
                == group_members(gs, n2),
        forall|n2: Seq<u8>|
            #[trigger] groups_has(add_shared(gs, name, cid, qos), n2) == (groups_has(gs, n2) || n2
                == name),
        groups_members_total(add_shared(gs, name, cid, qos)) == groups_members_total(gs) + (
        if shared_has(gs, name, cid) {
            0int
        } else {
            1int
        }),
    decreases gs.len(),
{
    let r = add_shared(gs, name, cid, qos);
    lemma_groups_lookup(gs, name);
    if gs.len() == 0 {
        assert(r == seq![(name, seq![SubScriber { client_id: cid, qos }])]);
        assert(r.drop_first() =~= Seq::<(Seq<u8>, Seq<SubScriber>)>::empty());
        assert(group_members(r, name) == seq![SubScriber { client_id: cid, qos }]);
        assert(upsert_sub(group_members(gs, name), cid, qos) == seq![
            SubScriber { client_id: cid, qos },
        ]);
        assert forall|n2: Seq<u8>| n2 != name implies #[trigger] group_members(r, n2)
            == group_members(gs, n2) by {
            assert(group_members(r, n2) == group_members(r.drop_first(), n2));
        }
        assert forall|n2: Seq<u8>| #[trigger] groups_has(r, n2) == (groups_has(gs, n2) || n2
            == name) by {
            if groups_has(r, n2) {
                let k = choose|k: int| 0 <= k < r.len() && r[k].0 == n2;
                assert(k == 0);
            }
            if n2 == name {
                assert(r[0].0 == n2);
            }
        }
        assert(groups_members_total(r) == 1) by {
            assert(groups_members_total(r.drop_first()) == 0);
        }
    } else if gs[0].0 == name {
        let rest = gs.drop_first();
        assert(subs_unique(gs[0].1));
        lemma_upsert_sub_props(gs[0].1, cid, qos);
        assert(r == seq![(gs[0].0, upsert_sub(gs[0].1, cid, qos))] + rest);
        assert(r.drop_first() =~= rest);
        assert(r[0].0 == name);
        assert(group_members(r, name) == r[0].1);
        assert(group_members(gs, name) == gs[0].1);
        assert forall|n2: Seq<u8>| n2 != name implies #[trigger] group_members(r, n2)
            == group_members(gs, n2) by {
            assert(group_members(r, n2) == group_members(rest, n2));
            assert(group_members(gs, n2) == group_members(rest, n2));
        }
        assert forall|n2: Seq<u8>| #[trigger] groups_has(r, n2) == (groups_has(gs, n2) || n2
            == name) by {
            if groups_has(r, n2) {
                let k = choose|k: int| 0 <= k < r.len() && r[k].0 == n2;
                if k > 0 {
                    assert(gs[k].0 == n2);
                    assert(groups_has(gs, n2));
                }
            }
            if groups_has(gs, n2) {
                let k = choose|k: int| 0 <= k < gs.len() && gs[k].0 == n2;
                if k > 0 {
                    assert(r[k].0 == n2);
                    assert(groups_has(r, n2));
                }
            }
            if n2 == name {
                assert(r[0].0 == n2);
            }
        }
        assert(groups_wf(r)) by {
            assert forall|a: int, b: int| 0 <= a < b < r.len() implies (#[trigger] r[a]).0
                != (#[trigger] r[b]).0 by {
                assert(r[b].0 == gs[b].0);
                if a > 0 {
                    assert(r[a].0 == gs[a].0);
                } else {
                    assert(r[0].0 == gs[0].0);
                }
            }
            assert forall|k: int| 0 <= k < r.len() implies subs_unique((#[trigger] r[k]).1) by {
                if k > 0 {
                    assert(r[k] == gs[k]);
                }
            }
        }
        assert(groups_members_total(r) == groups_members_total(gs) + (if shared_has(gs, name, cid) {
            0int
        } else {
            1int
        })) by {
            assert(groups_members_total(r) == r[0].1.len() + groups_members_total(rest));
            assert(groups_members_total(gs) == gs[0].1.len() + groups_members_total(rest));
            assert(shared_has(gs, name, cid) == subs_has_client(gs[0].1, cid));
        }
    } else {
        let rest = gs.drop_first();
        lemma_groups_wf_drop(gs);
        lemma_add_shared_props(rest, name, cid, qos);
        lemma_groups_lookup(rest, name);
        let rr = add_shared(rest, name, cid, qos);
        assert(r == seq![gs[0]] + rr);
        assert(r.drop_first() =~= rr);
        assert(r[0] == gs[0]);
        assert(group_members(r, name) == group_members(rr, name));
        assert(group_members(gs, name) == group_members(rest, name));
        assert forall|n2: Seq<u8>| n2 != name implies #[trigger] group_members(r, n2)
            == group_members(gs, n2) by {
            if n2 != gs[0].0 {
                assert(group_members(r, n2) == group_members(rr, n2));
                assert(group_members(gs, n2) == group_members(rest, n2));
            }
        }
        assert forall|n2: Seq<u8>| #[trigger] groups_has(r, n2) == (groups_has(gs, n2) || n2
            == name) by {
            if groups_has(r, n2) {
                let k = choose|k: int| 0 <= k < r.len() && r[k].0 == n2;
                if k == 0 {
                    assert(gs[0].0 == n2);
                    assert(groups_has(gs, n2));
                } else {
                    assert(rr[k - 1].0 == n2);
                    assert(groups_has(rr, n2));
                }
            }
            if groups_has(gs, n2) {
                let k = choose|k: int| 0 <= k < gs.len() && gs[k].0 == n2;
                if k == 0 {
                    assert(r[0].0 == n2);
                    assert(groups_has(r, n2));
                } else {
                    assert(rest[k - 1].0 == n2);
                    assert(groups_has(rest, n2));
                    assert(groups_has(rr, n2));
                    let m = choose|m: int| 0 <= m < rr.len() && rr[m].0 == n2;
                    assert(r[m + 1].0 == n2);
                    assert(groups_has(r, n2));
                }
            }
            if n2 == name {
                assert(groups_has(rr, name));
                let m = choose|m: int| 0 <= m < rr.len() && rr[m].0 == name;
                assert(r[m + 1].0 == name);
                assert(groups_has(r, name));
            }
        }
        assert(groups_wf(r)) by {
            assert forall|a: int, b: int| 0 <= a < b < r.len() implies (#[trigger] r[a]).0
                != (#[trigger] r[b]).0 by {
                if a == 0 {
                    assert(r[b].0 == rr[b - 1].0);
                    assert(groups_has(rr, rr[b - 1].0)) by {
                        assert(rr[b - 1].0 == rr[b - 1].0);
                    }
                    if r[0].0 == rr[b - 1].0 {
                        assert(groups_has(gs, gs[0].0) || gs[0].0 == name);
                        if gs[0].0 == name {
                            assert(false);
                        } else {
                            assert(groups_has(rest, gs[0].0) || gs[0].0 == name) by {
                                assert(groups_has(rr, gs[0].0));
                            }
                            let m = choose|m: int| 0 <= m < rest.len() && rest[m].0 == gs[0].0;
                            assert(gs[m + 1].0 == gs[0].0);
                            assert(false);
                        }
                    }
                } else {
                    assert(r[a].0 == rr[a - 1].0 && r[b].0 == rr[b - 1].0);
                }
            }
            assert forall|k: int| 0 <= k < r.len() implies subs_unique((#[trigger] r[k]).1) by {
                if k > 0 {
                    assert(r[k] == rr[k - 1]);
                }
            }
        }
        assert(shared_has(gs, name, cid) == shared_has(rest, name, cid)) by {
            assert(shared_has(gs, name, cid) == (groups_has(gs, name) && subs_has_client(
                group_members(gs, name),
                cid,
            )));
            assert(shared_has(rest, name, cid) == (groups_has(rest, name) && subs_has_client(
                group_members(rest, name),
                cid,
            )));
            if groups_has(gs, name) {
                let k = choose|k: int| 0 <= k < gs.len() && gs[k].0 == name;
                assert(k > 0);
                assert(rest[k - 1].0 == name);
                assert(groups_has(rest, name));
            }
            if groups_has(rest, name) {
                let k = choose|k: int| 0 <= k < rest.len() && rest[k].0 == name;
                assert(gs[k + 1].0 == name);
                assert(groups_has(gs, name));
            }
        }
        assert(groups_members_total(r) == gs[0].1.len() + groups_members_total(rr));
        assert(groups_members_total(gs) == gs[0].1.len() + groups_members_total(rest));
    }
}

/// Removing from a group keeps the groups well-formed, updates exactly the
/// named group, keeps every group in place, and shrinks the total exactly
/// when the client was in the group.
pub proof fn lemma_remove_shared_props(
    gs: Seq<(Seq<u8>, Seq<SubScriber>)>,
    name: Seq<u8>,
    cid: ClientId,
)
    requires
        groups_wf(gs),
    ensures
        groups_wf(remove_shared(gs, name, cid)),
        group_members(remove_shared(gs, name, cid), name) == remove_sub(
            group_members(gs, name),
            cid,
        ),
        forall|n2: Seq<u8>|
            n2 != name ==> #[trigger] group_members(remove_shared(gs, name, cid), n2)
                == group_members(gs, n2),
        forall|n2: Seq<u8>|
            #[trigger] groups_has(remove_shared(gs, name, cid), n2) == groups_has(gs, n2),
        groups_members_total(remove_shared(gs, name, cid)) == groups_members_total(gs) - (
        if shared_has(gs, name, cid) {
            1int
        } else {
            0int
        }),
    decreases gs.len(),
{
    let r = remove_shared(gs, name, cid);
    lemma_groups_lookup(gs, name);
    if gs.len() == 0 {
        assert(remove_sub(group_members(gs, name), cid) == Seq::<SubScriber>::empty());
    } else if gs[0].0 == name {
        let rest = gs.drop_first();
        assert(subs_unique(gs[0].1));
        lemma_remove_sub_props(gs[0].1, cid);
        assert(r == seq![(gs[0].0, remove_sub(gs[0].1, cid))] + rest);
        assert(r.drop_first() =~= rest);
        assert(r[0].0 == name);
        assert(group_members(r, name) == r[0].1);
        assert forall|n2: Seq<u8>| n2 != name implies #[trigger] group_members(r, n2)
            == group_members(gs, n2) by {
            assert(group_members(r, n2) == group_members(rest, n2));
            assert(group_members(gs, n2) == group_members(rest, n2));
        }
        assert forall|n2: Seq<u8>| #[trigger] groups_has(r, n2) == groups_has(gs, n2) by {
            if groups_has(r, n2) {
                let k = choose|k: int| 0 <= k < r.len() && r[k].0 == n2;
                assert(gs[k].0 == n2);
            }
            if groups_has(gs, n2) {
                let k = choose|k: int| 0 <= k < gs.len() && gs[k].0 == n2;
                assert(r[k].0 == n2);
            }
        }
        assert(groups_wf(r)) by {
            assert forall|a: int, b: int| 0 <= a < b < r.len() implies (#[trigger] r[a]).0
                != (#[trigger] r[b]).0 by {
                assert(r[a].0 == gs[a].0 && r[b].0 == gs[b].0);
            }
            assert forall|k: int| 0 <= k < r.len() implies subs_unique((#[trigger] r[k]).1) by {
                if k > 0 {
                    assert(r[k] == gs[k]);
                }
            }
        }
        assert(groups_members_total(r) == groups_members_total(gs) - (if shared_has(gs, name, cid) {
            1int
        } else {
            0int
        })) by {
            assert(groups_members_total(r) == r[0].1.len() + groups_members_total(rest));
            assert(groups_members_total(gs) == gs[0].1.len() + groups_members_total(rest));
            assert(shared_has(gs, name, cid) == subs_has_client(gs[0].1, cid));
        }
    } else {
        let rest = gs.drop_first();
        lemma_groups_wf_drop(gs);
        lemma_remove_shared_props(rest, name, cid);
        lemma_groups_lookup(rest, name);
        let rr = remove_shared(rest, name, cid);
        assert(r == seq![gs[0]] + rr);
        assert(r.drop_first() =~= rr);
        assert(r[0] == gs[0]);
        assert(group_members(r, name) == group_members(rr, name));
        assert(group_members(gs, name) == group_members(rest, name));
        assert forall|n2: Seq<u8>| n2 != name implies #[trigger] group_members(r, n2)
            == group_members(gs, n2) by {
            if n2 != gs[0].0 {
                assert(group_members(r, n2) == group_members(rr, n2));
                assert(group_members(gs, n2) == group_members(rest, n2));
            }
        }
        assert forall|n2: Seq<u8>| #[trigger] groups_has(r, n2) == groups_has(gs, n2) by {
            if groups_has(r, n2) {
                let k = choose|k: int| 0 <= k < r.len() && r[k].0 == n2;
                if k == 0 {
                    assert(gs[0].0 == n2);
                } else {
                    assert(rr[k - 1].0 == n2);
                    assert(groups_has(rr, n2));
                    assert(groups_has(rest, n2));
                    let m = choose|m: int| 0 <= m < rest.len() && rest[m].0 == n2;
                    assert(gs[m + 1].0 == n2);
                }
            }
            if groups_has(gs, n2) {
                let k = choose|k: int| 0 <= k < gs.len() && gs[k].0 == n2;
                if k == 0 {
                    assert(r[0].0 == n2);
                } else {
                    assert(rest[k - 1].0 == n2);
                    assert(groups_has(rest, n2));
                    assert(groups_has(rr, n2));
                    let m = choose|m: int| 0 <= m < rr.len() && rr[m].0 == n2;
                    assert(r[m + 1].0 == n2);
                }
            }
        }
        assert(groups_wf(r)) by {
            assert forall|a: int, b: int| 0 <= a < b < r.len() implies (#[trigger] r[a]).0
                != (#[trigger] r[b]).0 by {
                if a == 0 {
                    assert(r[b].0 == rr[b - 1].0);
                    assert(groups_has(rr, rr[b - 1].0)) by {
                        assert(rr[b - 1].0 == rr[b - 1].0);
                    }
                    if r[0].0 == rr[b - 1].0 {
                        assert(groups_has(rest, gs[0].0));
                        let m = choose|m: int| 0 <= m < rest.len() && rest[m].0 == gs[0].0;
                        assert(gs[m + 1].0 == gs[0].0);
                        assert(false);
                    }
                } else {
                    assert(r[a].0 == rr[a - 1].0 && r[b].0 == rr[b - 1].0);
                }
            }
            assert forall|k: int| 0 <= k < r.len() implies subs_unique((#[trigger] r[k]).1) by {
                if k > 0 {
                    assert(r[k] == rr[k - 1]);
                }
            }
        }
        assert(shared_has(gs, name, cid) == shared_has(rest, name, cid)) by {
            if groups_has(gs, name) {
                let k = choose|k: int| 0 <= k < gs.len() && gs[k].0 == name;
                assert(k > 0);
                assert(rest[k - 1].0 == name);
                assert(groups_has(rest, name));
            }
            if groups_has(rest, name) {
                let k = choose|k: int| 0 <= k < rest.len() && rest[k].0 == name;
                assert(gs[k + 1].0 == name);
                assert(groups_has(gs, name));
            }
        }
        assert(groups_members_total(r) == gs[0].1.len() + groups_members_total(rr));
        assert(groups_members_total(gs) == gs[0].1.len() + groups_members_total(rest));
    }
}

/// Removing keeps entries unique, keeps every other client's entry, leaves
/// no entry for `cid`, and shrinks the record exactly when `cid` was there.
pub proof fn lemma_remove_sub_props(subs: Seq<SubScriber>, cid: ClientId)
    requires
        subs_unique(subs),
    ensures
        subs_unique(remove_sub(subs, cid)),
        remove_sub(subs, cid).len() == subs.len() - (if subs_has_client(subs, cid) {
            1int
        } else {
            0int
        }),
        forall|s: SubScriber|
            #[trigger] remove_sub(subs, cid).contains(s) <==> (subs.contains(s) && s.client_id
                != cid),
    decreases subs.len(),
{
    let r = remove_sub(subs, cid);
    if subs.len() == 0 {
    } else if subs[0].client_id == cid {
        let rest = subs.drop_first();
        assert(subs_has_client(subs, cid)) by {
            assert(subs[0].client_id == cid);
        }
        assert(r == rest);
        assert forall|s: SubScriber| #[trigger] r.contains(s) implies (subs.contains(s)
            && s.client_id != cid) by {
            let k = choose|k: int| 0 <= k < rest.len() && rest[k] == s;
            assert(subs[k + 1] == s);
            assert(subs[0].client_id != subs[k + 1].client_id);
        }
        assert forall|s: SubScriber|
            (subs.contains(s) && s.client_id != cid) implies #[trigger] r.contains(s) by {
            let k = choose|k: int| 0 <= k < subs.len() && subs[k] == s;
            assert(k > 0);
            assert(rest[k - 1] == s);
        }
        assert(subs_unique(r)) by {
            assert forall|a: int, b: int| 0 <= a < b < r.len() implies (#[trigger] r[a]).client_id
                != (#[trigger] r[b]).client_id by {
                assert(r[a] == subs[a + 1] && r[b] == subs[b + 1]);
            }
        }
    } else {
        let rest = subs.drop_first();
        assert(subs_unique(rest)) by {
            assert forall|a: int, b: int|
                0 <= a < b < rest.len() implies (#[trigger] rest[a]).client_id
                != (#[trigger] rest[b]).client_id by {
                assert(rest[a] == subs[a + 1] && rest[b] == subs[b + 1]);
            }
        }
        lemma_remove_sub_props(rest, cid);
        let rr = remove_sub(rest, cid);
        assert(r == seq![subs[0]] + rr);
        assert(subs_has_client(subs, cid) == subs_has_client(rest, cid)) by {
            if subs_has_client(subs, cid) {
                let k = choose|k: int| 0 <= k < subs.len() && subs[k].client_id == cid;
                assert(k > 0);
                assert(rest[k - 1].client_id == cid);
            }
            if subs_has_client(rest, cid) {
                let k = choose|k: int| 0 <= k < rest.len() && rest[k].client_id == cid;
                assert(subs[k + 1].client_id == cid);
            }
        }
        assert forall|s: SubScriber| #[trigger] r.contains(s) implies (subs.contains(s)
            && s.client_id != cid) by {
            let k = choose|k: int| 0 <= k < r.len() && r[k] == s;
            if k == 0 {
                assert(s == subs[0]);
            } else {
                assert(rr[k - 1] == s);
                assert(rr.contains(s));
                let m = choose|m: int| 0 <= m < rest.len() && rest[m] == s;
                assert(subs[m + 1] == s);
            }
        }
        assert forall|s: SubScriber|
            (subs.contains(s) && s.client_id != cid) implies #[trigger] r.contains(s) by {
            let k = choose|k: int| 0 <= k < subs.len() && subs[k] == s;
            if k == 0 {
                assert(r[0] == s);
            } else {
                assert(rest[k - 1] == s);
                assert(rest.contains(s));
                assert(rr.contains(s));
                let m = choose|m: int| 0 <= m < rr.len() && rr[m] == s;
                assert(r[m + 1] == s);
            }
        }
        assert(subs_unique(r)) by {
            assert forall|a: int, b: int| 0 <= a < b < r.len() implies (#[trigger] r[a]).client_id
                != (#[trigger] r[b]).client_id by {
                if a == 0 {
                    assert(r[b] == rr[b - 1]);
                    assert(rr.contains(rr[b - 1]));
                    if rr[b - 1].client_id == subs[0].client_id {
                        assert(rest.contains(rr[b - 1]));
                        let m = choose|m: int| 0 <= m < rest.len() && rest[m] == rr[b - 1];
                        assert(subs[m + 1] == rr[b - 1]);
                        assert(false);
                    }
                } else {
                    assert(r[a] == rr[a - 1] && r[b] == rr[b - 1]);
                }
            }
        }
    }
}

// ---------------------------------------------------------------------------
// First-match characterisations used by the executable operations.
// ---------------------------------------------------------------------------

proof fn lemma_upsert_sub_at(s: Seq<SubScriber>, i: int, cid: ClientId, qos: QoS)
    requires
        0 <= i < s.len(),
        s[i].client_id == cid,
        forall|k: int| 0 <= k < i ==> (#[trigger] s[k]).client_id != cid,
    ensures
        upsert_sub(s, cid, qos) == s.update(i, SubScriber { client_id: cid, qos }),
    decreases i,
{
    if i == 0 {
        assert(upsert_sub(s, cid, qos) =~= s.update(0, SubScriber { client_id: cid, qos }));
    } else {
        let rest = s.drop_first();
        assert(rest[i - 1].client_id == cid);
        assert forall|k: int| 0 <= k < i - 1 implies (#[trigger] rest[k]).client_id != cid by {
            assert(rest[k] == s[k + 1]);
        }
        lemma_upsert_sub_at(rest, i - 1, cid, qos);
        assert(upsert_sub(s, cid, qos) =~= s.update(i, SubScriber { client_id: cid, qos }));
    }
}

proof fn lemma_upsert_sub_missing(s: Seq<SubScriber>, cid: ClientId, qos: QoS)
    requires
        forall|k: int| 0 <= k < s.len() ==> (#[trigger] s[k]).client_id != cid,
    ensures
        upsert_sub(s, cid, qos) == s.push(SubScriber { client_id: cid, qos }),
    decreases s.len(),
{
    if s.len() == 0 {
        assert(upsert_sub(s, cid, qos) =~= s.push(SubScriber { client_id: cid, qos }));
    } else {
        let rest = s.drop_first();
        assert forall|k: int| 0 <= k < rest.len() implies (#[trigger] rest[k]).client_id != cid by {
            assert(rest[k] == s[k + 1]);
        }
        lemma_upsert_sub_missing(rest, cid, qos);
        assert(upsert_sub(s, cid, qos) =~= s.push(SubScriber { client_id: cid, qos }));
    }
}

proof fn lemma_remove_sub_at(s: Seq<SubScriber>, i: int, cid: ClientId)
    requires
        0 <= i < s.len(),
        s[i].client_id == cid,
        forall|k: int| 0 <= k < i ==> (#[trigger] s[k]).client_id != cid,
    ensures
        remove_sub(s, cid) == s.remove(i),
    decreases i,
{
    if i == 0 {
        assert(remove_sub(s, cid) =~= s.remove(0));
    } else {
        let rest = s.drop_first();
        assert(rest[i - 1].client_id == cid);
        assert forall|k: int| 0 <= k < i - 1 implies (#[trigger] rest[k]).client_id != cid by {
            assert(rest[k] == s[k + 1]);
        }
        lemma_remove_sub_at(rest, i - 1, cid);
        assert(remove_sub(s, cid) =~= s.remove(i));
    }
}

proof fn lemma_remove_sub_missing(s: Seq<SubScriber>, cid: ClientId)
    requires
        forall|k: int| 0 <= k < s.len() ==> (#[trigger] s[k]).client_id != cid,
    ensures
        remove_sub(s, cid) == s,
    decreases s.len(),
{
    if s.len() > 0 {
        let rest = s.drop_first();
        assert forall|k: int| 0 <= k < rest.len() implies (#[trigger] rest[k]).client_id != cid by {
            assert(rest[k] == s[k + 1]);
        }
        lemma_remove_sub_missing(rest, cid);
        assert(remove_sub(s, cid) =~= s);
    }
}

proof fn lemma_group_members_at(gs: Seq<(Seq<u8>, Seq<SubScriber>)>, j: int, name: Seq<u8>)
    requires
        0 <= j < gs.len(),
        gs[j].0 == name,
        forall|k: int| 0 <= k < j ==> (#[trigger] gs[k]).0 != name,
    ensures
        group_members(gs, name) == gs[j].1,
        groups_has(gs, name),
    decreases j,
{
    if j == 0 {
    } else {
        let rest = gs.drop_first();
        assert(rest[j - 1] == gs[j]);
        assert forall|k: int| 0 <= k < j - 1 implies (#[trigger] rest[k]).0 != name by {
            assert(rest[k] == gs[k + 1]);
        }
        lemma_group_members_at(rest, j - 1, name);
    }
    assert(gs[j].0 == name);
}

proof fn lemma_group_members_missing(gs: Seq<(Seq<u8>, Seq<SubScriber>)>, name: Seq<u8>)
    requires
        forall|k: int| 0 <= k < gs.len() ==> (#[trigger] gs[k]).0 != name,
    ensures
        !groups_has(gs, name),
        group_members(gs, name) == Seq::<SubScriber>::empty(),
    decreases gs.len(),
{
    if gs.len() > 0 {
        let rest = gs.drop_first();
        assert forall|k: int| 0 <= k < rest.len() implies (#[trigger] rest[k]).0 != name by {
            assert(rest[k] == gs[k + 1]);
        }
        lemma_group_members_missing(rest, name);
    }
}

proof fn lemma_add_shared_at(
    gs: Seq<(Seq<u8>, Seq<SubScriber>)>,
    j: int,
    name: Seq<u8>,
    cid: ClientId,
    qos: QoS,
)
    requires
        0 <= j < gs.len(),
        gs[j].0 == name,
        forall|k: int| 0 <= k < j ==> (#[trigger] gs[k]).0 != name,
    ensures
        add_shared(gs, name, cid, qos) == gs.update(j, (name, upsert_sub(gs[j].1, cid, qos))),
    decreases j,
{
    if j == 0 {
        assert(add_shared(gs, name, cid, qos) =~= gs.update(
            0,
            (name, upsert_sub(gs[0].1, cid, qos)),
        ));
    } else {
        let rest = gs.drop_first();
        assert(rest[j - 1] == gs[j]);
        assert forall|k: int| 0 <= k < j - 1 implies (#[trigger] rest[k]).0 != name by {
            assert(rest[k] == gs[k + 1]);
        }
        lemma_add_shared_at(rest, j - 1, name, cid, qos);
        assert(add_shared(gs, name, cid, qos) =~= gs.update(
            j,
            (name, upsert_sub(gs[j].1, cid, qos)),
        ));
    }
}

proof fn lemma_add_shared_missing(
    gs: Seq<(Seq<u8>, Seq<SubScriber>)>,
    name: Seq<u8>,
    cid: ClientId,
    qos: QoS,
)
    requires
        forall|k: int| 0 <= k < gs.len() ==> (#[trigger] gs[k]).0 != name,
    ensures
        add_shared(gs, name, cid, qos) == gs.push((name, seq![SubScriber { client_id: cid, qos }])),
    decreases gs.len(),
{
    if gs.len() == 0 {
        assert(add_shared(gs, name, cid, qos) =~= gs.push(
            (name, seq![SubScriber { client_id: cid, qos }]),
        ));
    } else {
        let rest = gs.drop_first();
        assert forall|k: int| 0 <= k < rest.len() implies (#[trigger] rest[k]).0 != name by {
            assert(rest[k] == gs[k + 1]);
        }
        lemma_add_shared_missing(rest, name, cid, qos);
        assert(add_shared(gs, name, cid, qos) =~= gs.push(
            (name, seq![SubScriber { client_id: cid, qos }]),
        ));
    }
}

proof fn lemma_remove_shared_at(
    gs: Seq<(Seq<u8>, Seq<SubScriber>)>,
    j: int,
    name: Seq<u8>,
    cid: ClientId,
)
    requires
        0 <= j < gs.len(),
        gs[j].0 == name,
        forall|k: int| 0 <= k < j ==> (#[trigger] gs[k]).0 != name,
    ensures
        remove_shared(gs, name, cid) == gs.update(j, (name, remove_sub(gs[j].1, cid))),
    decreases j,
{
    if j == 0 {
        assert(remove_shared(gs, name, cid) =~= gs.update(0, (name, remove_sub(gs[0].1, cid))));
    } else {
        let rest = gs.drop_first();
        assert(rest[j - 1] == gs[j]);
        assert forall|k: int| 0 <= k < j - 1 implies (#[trigger] rest[k]).0 != name by {
            assert(rest[k] == gs[k + 1]);
        }
        lemma_remove_shared_at(rest, j - 1, name, cid);
        assert(remove_shared(gs, name, cid) =~= gs.update(j, (name, remove_sub(gs[j].1, cid))));
    }
}

proof fn lemma_remove_shared_missing(gs: Seq<(Seq<u8>, Seq<SubScriber>)>, name: Seq<u8>, cid: ClientId)
    requires
        forall|k: int| 0 <= k < gs.len() ==> (#[trigger] gs[k]).0 != name,
    ensures
        remove_shared(gs, name, cid) == gs,
    decreases gs.len(),
{
    if gs.len() > 0 {
        let rest = gs.drop_first();
        assert forall|k: int| 0 <= k < rest.len() implies (#[trigger] rest[k]).0 != name by {
            assert(rest[k] == gs[k + 1]);
        }
        lemma_remove_shared_missing(rest, name, cid);
        assert(remove_shared(gs, name, cid) =~= gs);
    }
}

// ---------------------------------------------------------------------------
// The random pick a shared group contributes to one match.
// ---------------------------------------------------------------------------

/// One valid outcome of the per-group random choices: exactly one member
/// from each non-empty group, in group order; empty groups contribute
/// nothing.
pub open spec fn valid_picks(gs: Seq<(Seq<u8>, Seq<SubScriber>)>, picks: Seq<SubScriber>) -> bool
    decreases gs.len(),
{
    if gs.len() == 0 {
        picks.len() == 0
    } else if gs[0].1.len() == 0 {
        valid_picks(gs.drop_first(), picks)
    } else {
        picks.len() >= 1 && gs[0].1.contains(picks[0]) && valid_picks(
            gs.drop_first(),
            picks.drop_first(),
        )
    }
}

proof fn lemma_valid_picks_push_empty(
    gs: Seq<(Seq<u8>, Seq<SubScriber>)>,
    picks: Seq<SubScriber>,
    g: (Seq<u8>, Seq<SubScriber>),
)
    requires
        valid_picks(gs, picks),
        g.1.len() == 0,
    ensures
        valid_picks(gs.push(g), picks),
    decreases gs.len(),
{
    if gs.len() == 0 {
        assert(gs.push(g)[0] == g);
        assert(gs.push(g).drop_first() =~= Seq::<(Seq<u8>, Seq<SubScriber>)>::empty());
        assert(valid_picks(gs.push(g).drop_first(), picks));
    } else {
        assert(gs.push(g)[0] == gs[0]);
        assert(gs.push(g).drop_first() =~= gs.drop_first().push(g));
        if gs[0].1.len() == 0 {
            lemma_valid_picks_push_empty(gs.drop_first(), picks, g);
            assert(valid_picks(gs.push(g).drop_first(), picks));
        } else {
            lemma_valid_picks_push_empty(gs.drop_first(), picks.drop_first(), g);
            assert(valid_picks(gs.push(g).drop_first(), picks.drop_first()));
        }
    }
}

proof fn lemma_valid_picks_push_pick(
    gs: Seq<(Seq<u8>, Seq<SubScriber>)>,
    picks: Seq<SubScriber>,
    g: (Seq<u8>, Seq<SubScriber>),
    s: SubScriber,
)
    requires
        valid_picks(gs, picks),
        g.1.contains(s),
    ensures
        valid_picks(gs.push(g), picks.push(s)),
    decreases gs.len(),
{
    if gs.len() == 0 {
        assert(picks.len() == 0);
        assert(gs.push(g)[0] == g);
        assert(picks.push(s)[0] == s);
        assert(gs.push(g).drop_first() =~= Seq::<(Seq<u8>, Seq<SubScriber>)>::empty());
        assert(picks.push(s).drop_first() =~= Seq::<SubScriber>::empty());
        assert(valid_picks(gs.push(g).drop_first(), picks.push(s).drop_first()));
    } else {
        assert(gs.push(g)[0] == gs[0]);
        assert(gs.push(g).drop_first() =~= gs.drop_first().push(g));
        if gs[0].1.len() == 0 {
            lemma_valid_picks_push_pick(gs.drop_first(), picks, g, s);
            assert(valid_picks(gs.push(g).drop_first(), picks.push(s)));
        } else {
            assert(picks.push(s)[0] == picks[0]);
            assert(picks.push(s).drop_first() =~= picks.drop_first().push(s));
            lemma_valid_picks_push_pick(gs.drop_first(), picks.drop_first(), g, s);
            assert(valid_picks(gs.push(g).drop_first(), picks.push(s).drop_first()));
        }
    }
}

// ---------------------------------------------------------------------------
// Executable record structures.
// ---------------------------------------------------------------------------

/// Relies on `rand::random`: an arbitrary value each call; nothing is
/// promised of it, so callers state what holds of every outcome.
#[verifier::external_body]
fn random_u64() -> u64 {
    rand::random::<u64>()
}

/// Compare two byte strings.
fn bytes_eq(a: &[u8], b: &[u8]) -> (r: bool)
    ensures
        r == (a@ == b@),
{
    if a.len() != b.len() {
        proof {
            assert(a@ != b@);
        }
        return false;
    }
    let n = a.len();
    let mut i: usize = 0;
    while i < n
        invariant
            n == a@.len() == b@.len(),
            i <= n,
            forall|k: int| 0 <= k < i ==> a@[k] == b@[k],
        decreases n - i,
    {
        if a[i] != b[i] {
            proof {
                assert(a@ != b@);
            }
            return false;
        }
        i += 1;
    }
    proof {
        assert(a@ =~= b@);
    }
    true
}

/// Upsert `(client_id, qos)` into an entry list; reports whether a new entry
/// was created.
fn upsert_into(v: &mut Vec<SubScriber>, client_id: ClientId, qos: QoS) -> (added: bool)
    ensures
        final(v)@ == upsert_sub(old(v)@, client_id, qos),
        added == !subs_has_client(old(v)@, client_id),
{
    let n = v.len();
    let mut i: usize = 0;
    while i < n
        invariant
            n == v@.len(),
            i <= n,
            *v == *old(v),
            forall|k: int| 0 <= k < i ==> (#[trigger] v@[k]).client_id != client_id,
        decreases n - i,
    {
        if v[i].client_id == client_id {
            let ghost s0 = v@;
            v.remove(i);
            v.insert(i, SubScriber { client_id, qos });
            proof {
                lemma_upsert_sub_at(s0, i as int, client_id, qos);
                assert(v@ =~= s0.update(i as int, SubScriber { client_id, qos }));
                assert(subs_has_client(s0, client_id)) by {
                    assert(s0[i as int].client_id == client_id);
                }
            }
            return false;
        }
        i += 1;
    }
    v.push(SubScriber { client_id, qos });
    proof {
        lemma_upsert_sub_missing(old(v)@, client_id, qos);
    }
    true
}

/// Drop the first entry of `client_id`, if any; reports whether one left.
fn remove_from(v: &mut Vec<SubScriber>, client_id: ClientId) -> (removed: bool)
    ensures
        final(v)@ == remove_sub(old(v)@, client_id),
        removed == subs_has_client(old(v)@, client_id),
{
    let n = v.len();
    let mut i: usize = 0;
    while i < n
        invariant
            n == v@.len(),
            i <= n,
            *v == *old(v),
            forall|k: int| 0 <= k < i ==> (#[trigger] v@[k]).client_id != client_id,
        decreases n - i,
    {
        if v[i].client_id == client_id {
            let ghost s0 = v@;
            v.remove(i);
            proof {
                lemma_remove_sub_at(s0, i as int, client_id);
                assert(subs_has_client(s0, client_id)) by {
                    assert(s0[i as int].client_id == client_id);
                }
            }
            return true;
        }
        i += 1;
    }
    proof {
        lemma_remove_sub_missing(v@, client_id);
    }
    false
}

/// One shared-subscription group: its name and its members in insertion
/// order. A match hands the message to one randomly chosen member.
#[derive(Debug)]
pub(crate) struct ClientGroup {
    pub(crate) group_id: Vec<u8>,
    pub(crate) clients: Vec<SubScriber>,
}

pub(crate) open spec fn group_view(g: ClientGroup) -> (Seq<u8>, Seq<SubScriber>) {
    (g.group_id@, g.clients@)
}

impl ClientGroup {
    fn new(group_id: Vec<u8>, subscriber: SubScriber) -> (g: ClientGroup)
        ensures
            group_view(g) == (group_id@, seq![subscriber]),
    {
        let mut clients: Vec<SubScriber> = Vec::new();
        clients.push(subscriber);
        ClientGroup { group_id, clients }
    }

    /// The member a (not necessarily random) draw `id` selects.
    fn get_client_by_number(&self, id: u64) -> (s: SubScriber)
        requires
            self.clients@.len() > 0,
        ensures
            s == self.clients@[(id as int) % (self.clients@.len() as int)],
            self.clients@.contains(s),
    {
        let len = self.clients.len();
        let idx = (id % (len as u64)) as usize;
        let s = self.clients[idx];
        proof {
            assert(self.clients@.contains(s)) by {
                assert(self.clients@[idx as int] == s);
            }
        }
        s
    }

    /// A uniformly random member of the group.
    fn get_next_client(&self) -> (s: SubScriber)
        requires
            self.clients@.len() > 0,
        ensures
            self.clients@.contains(s),
    {
        self.get_client_by_number(random_u64())
    }

    fn add_subscriber(&mut self, subscriber: SubScriber) -> (added: bool)
        ensures
            final(self).group_id == old(self).group_id,
            final(self).clients@ == upsert_sub(
                old(self).clients@,
                subscriber.client_id,
                subscriber.qos,
            ),
            added == !subs_has_client(old(self).clients@, subscriber.client_id),
    {
        upsert_into(&mut self.clients, subscriber.client_id, subscriber.qos)
    }

    fn remove_subscriber(&mut self, client_id: ClientId) -> (removed: bool)
        ensures
            final(self).group_id == old(self).group_id,
            final(self).clients@ == remove_sub(old(self).clients@, client_id),
            removed == subs_has_client(old(self).clients@, client_id),
    {
        remove_from(&mut self.clients, client_id)
    }
}

/// Everything subscribed at one trie node slot: direct client subscriptions
/// and the shared groups.
#[derive(Debug)]
pub(crate) struct SubscriptionInfo {
    pub(crate) client_subscriptions: Vec<SubScriber>,
    pub(crate) shared_subscriptions: Vec<ClientGroup>,
}

pub(crate) open spec fn groups_view(gs: Seq<ClientGroup>) -> Seq<(Seq<u8>, Seq<SubScriber>)> {
    Seq::new(gs.len(), |i: int| group_view(gs[i]))
}

pub(crate) open spec fn record_view(r: SubscriptionInfo) -> RecordView {
    RecordView { subs: r.client_subscriptions@, groups: groups_view(r.shared_subscriptions@) }
}

impl SubscriptionInfo {
    fn new_empty() -> (r: Self)
        ensures
            record_view(r) == empty_rv(),
    {
        let r = SubscriptionInfo {
            client_subscriptions: Vec::new(),
            shared_subscriptions: Vec::new(),
        };
        proof {
            assert(record_view(r).subs =~= empty_rv().subs);
            assert(record_view(r).groups =~= empty_rv().groups);
        }
        r
    }

    fn add_client_subscription(&mut self, client_id: ClientId, qos: QoS) -> (added: bool)
        ensures
            record_view(*final(self)) == rv_add(record_view(*old(self)), None, client_id, qos),
            added == rv_add_is_new(record_view(*old(self)), None, client_id),
    {
        let added = upsert_into(&mut self.client_subscriptions, client_id, qos);
        proof {
            assert(record_view(*self).groups =~= record_view(*old(self)).groups);
        }
        added
    }

    fn remove_client_subscription(&mut self, client_id: ClientId) -> (removed: bool)
        ensures
            record_view(*final(self)) == rv_remove(record_view(*old(self)), None, client_id),
            removed == rv_remove_hits(record_view(*old(self)), None, client_id),
    {
        let removed = remove_from(&mut self.client_subscriptions, client_id);
        proof {
            assert(record_view(*self).groups =~= record_view(*old(self)).groups);
        }
        removed
    }

    fn add_shared_subscription(
        &mut self,
        client_id: ClientId,
        qos: QoS,
        shared_group: Vec<u8>,
    ) -> (added: bool)
        requires
            rv_wf(record_view(*old(self))),
        ensures
            record_view(*final(self)) == rv_add(
                record_view(*old(self)),
                Some(shared_group@),
                client_id,
                qos,
            ),
            added == rv_add_is_new(record_view(*old(self)), Some(shared_group@), client_id),
    {
        let ghost gsv0 = record_view(*old(self)).groups;
        let n = self.shared_subscriptions.len();
        let mut j: usize = 0;
        while j < n
            invariant
                n == self.shared_subscriptions@.len(),
                j <= n,
                *self == *old(self),
                gsv0 == record_view(*self).groups,
                groups_wf(gsv0),
                forall|k: int| 0 <= k < j ==> (#[trigger] gsv0[k]).0 != shared_group@,
            decreases n - j,
        {
            let hit = bytes_eq(
                self.shared_subscriptions[j].group_id.as_slice(),
                shared_group.as_slice(),
            );
            proof {
                assert(gsv0[j as int] == group_view(self.shared_subscriptions@[j as int]));
            }
            if hit {
                let mut g = self.shared_subscriptions.remove(j);
                let added = g.add_subscriber(SubScriber { client_id, qos });
                let ghost gnew = g;
                self.shared_subscriptions.insert(j, g);
                proof {
                    let gs1 = self.shared_subscriptions@;
                    assert(gs1 =~= old(self).shared_subscriptions@.update(j as int, gnew));
                    lemma_add_shared_at(gsv0, j as int, shared_group@, client_id, qos);
                    assert(record_view(*self).groups =~= gsv0.update(
                        j as int,
                        (shared_group@, upsert_sub(gsv0[j as int].1, client_id, qos)),
                    ));
                    assert(record_view(*self) == rv_add(
                        record_view(*old(self)),
                        Some(shared_group@),
                        client_id,
                        qos,
                    ));
                    lemma_group_members_at(gsv0, j as int, shared_group@);
                    lemma_groups_lookup(gsv0, shared_group@);
                }
                return added;
            }
            j += 1;
        }
        let g = ClientGroup::new(shared_group, SubScriber { client_id, qos });
        let ghost gname = g.group_id@;
        self.shared_subscriptions.push(g);
        proof {
            assert(record_view(*self).groups =~= gsv0.push(
                (gname, seq![SubScriber { client_id, qos }]),
            ));
            lemma_add_shared_missing(gsv0, gname, client_id, qos);
            lemma_group_members_missing(gsv0, gname);
            lemma_groups_lookup(gsv0, gname);
        }
        true
    }

    fn remove_shared_subscription(&mut self, client_id: ClientId, shared_group: &Vec<u8>) -> (removed:
        bool)
        requires
            rv_wf(record_view(*old(self))),
        ensures
            record_view(*final(self)) == rv_remove(
                record_view(*old(self)),
                Some(shared_group@),
                client_id,
            ),
            removed == rv_remove_hits(record_view(*old(self)), Some(shared_group@), client_id),
    {
        let ghost gsv0 = record_view(*old(self)).groups;
        let n = self.shared_subscriptions.len();
        let mut j: usize = 0;
        while j < n
            invariant
                n == self.shared_subscriptions@.len(),
                j <= n,
                *self == *old(self),
                gsv0 == record_view(*self).groups,
                groups_wf(gsv0),
                forall|k: int| 0 <= k < j ==> (#[trigger] gsv0[k]).0 != shared_group@,
            decreases n - j,
        {
            let hit = bytes_eq(
                self.shared_subscriptions[j].group_id.as_slice(),
                shared_group.as_slice(),
            );
            proof {
                assert(gsv0[j as int] == group_view(self.shared_subscriptions@[j as int]));
            }
            if hit {
                let mut g = self.shared_subscriptions.remove(j);
                let removed = g.remove_subscriber(client_id);
                let ghost gnew = g;
                self.shared_subscriptions.insert(j, g);
                proof {
                    let gs1 = self.shared_subscriptions@;
                    assert(gs1 =~= old(self).shared_subscriptions@.update(j as int, gnew));
                    lemma_remove_shared_at(gsv0, j as int, shared_group@, client_id);
                    assert(record_view(*self).groups =~= gsv0.update(
                        j as int,
                        (shared_group@, remove_sub(gsv0[j as int].1, client_id)),
                    ));
                    assert(record_view(*self) == rv_remove(
                        record_view(*old(self)),
                        Some(shared_group@),
                        client_id,
                    ));
                    lemma_group_members_at(gsv0, j as int, shared_group@);
                    lemma_groups_lookup(gsv0, shared_group@);
                }
                return removed;
            }
            j += 1;
        }
        proof {
            lemma_remove_shared_missing(gsv0, shared_group@, client_id);
            assert(record_view(*self).groups =~= gsv0);
            assert(record_view(*self) == rv_remove(
                record_view(*old(self)),
                Some(shared_group@),
                client_id,
            ));
            lemma_group_members_missing(gsv0, shared_group@);
            lemma_groups_lookup(gsv0, shared_group@);
        }
        false
    }

    /// Append every direct subscriber and one random member of each
    /// non-empty shared group to `out`.
    fn get_subscriptions(&self, out: &mut Vec<SubScriber>)
        ensures
            exists|picks: Seq<SubScriber>|
                final(out)@ == old(out)@ + record_view(*self).subs + picks && #[trigger] valid_picks(
                    record_view(*self).groups,
                    picks,
                ),
    {
        let n = self.client_subscriptions.len();
        let mut i: usize = 0;
        while i < n
            invariant
                n == self.client_subscriptions@.len(),
                i <= n,
                out@ == old(out)@ + self.client_subscriptions@.take(i as int),
            decreases n - i,
        {
            let s = self.client_subscriptions[i];
            out.push(s);
            proof {
                assert(self.client_subscriptions@.take(i as int + 1)
                    =~= self.client_subscriptions@.take(i as int).push(s));
                assert(out@ =~= old(out)@ + self.client_subscriptions@.take(i as int + 1));
            }
            i += 1;
        }
        proof {
            assert(self.client_subscriptions@.take(n as int) =~= self.client_subscriptions@);
        }
        let ghost gsv = record_view(*self).groups;
        let ghost mut picks: Seq<SubScriber> = Seq::empty();
        let m = self.shared_subscriptions.len();
        let mut j: usize = 0;
        proof {
            assert(gsv.take(0) =~= Seq::<(Seq<u8>, Seq<SubScriber>)>::empty());
        }
        while j < m
            invariant
                m == self.shared_subscriptions@.len(),
                j <= m,
                gsv == record_view(*self).groups,
                out@ == old(out)@ + record_view(*self).subs + picks,
                valid_picks(gsv.take(j as int), picks),
            decreases m - j,
        {
            proof {
                assert(gsv[j as int] == group_view(self.shared_subscriptions@[j as int]));
                assert(gsv.take(j as int + 1) =~= gsv.take(j as int).push(gsv[j as int]));
            }
            let g = &self.shared_subscriptions[j];
            if g.clients.len() > 0 {
                let s = g.get_next_client();
                out.push(s);
                proof {
                    lemma_valid_picks_push_pick(gsv.take(j as int), picks, gsv[j as int], s);
                    picks = picks.push(s);
                    assert(out@ =~= old(out)@ + record_view(*self).subs + picks);
                }
            } else {
                proof {
                    lemma_valid_picks_push_empty(gsv.take(j as int), picks, gsv[j as int]);
                }
            }
            j += 1;
        }
        proof {
            assert(gsv.take(m as int) =~= gsv);
        }
    }
}

// ---------------------------------------------------------------------------
// The trie node.
// ---------------------------------------------------------------------------

/// One node of the topic trie. The wildcard edges live outside the literal
/// children so a lookup never searches for `+` or `#` by name: the record
/// under `#` is a leaf (a `#` can only end a filter), the `+` edge is a
/// whole child, and `content` holds the subscriptions of filters that end
/// exactly here.
#[derive(Debug)]
pub(crate) struct TopicNode {
    pub(crate) multi_level_wildcard: Option<Box<SubscriptionInfo>>,
    pub(crate) single_level_wildcard: Option<Box<TopicNode>>,
    pub(crate) sub_nodes: Vec<(Vec<u8>, TopicNode)>,
    pub(crate) content: SubscriptionInfo,
}

/// The first child stored under `key`, if any.
pub(crate) open spec fn assoc_get(s: Seq<(Vec<u8>, TopicNode)>, key: Seq<u8>) -> Option<TopicNode>
    decreases s.len(),
{
    if s.len() == 0 {
        None
    } else if s[0].0@ == key {
        Some(s[0].1)
    } else {
        assoc_get(s.drop_first(), key)
    }
}

/// The record a filter suffix `f` leads to from node `n`: the node's own
/// record for the empty suffix, the `#` record for the one-level suffix
/// `#`, and otherwise a step through the `+` edge or the literal child.
pub(crate) open spec fn node_record_at(n: TopicNode, f: Seq<Seq<u8>>) -> Option<RecordView>
    decreases f.len(),
{
    if f.len() == 0 {
        Some(record_view(n.content))
    } else if f[0] == hash_level() {
        if f.len() == 1 {
            match n.multi_level_wildcard {
                Some(b) => Some(record_view(*b)),
                None => None,
            }
        } else {
            None
        }
    } else if f[0] == plus_level() {
        match n.single_level_wildcard {
            Some(c) => node_record_at(*c, f.drop_first()),
            None => None,
        }
    } else {
        match assoc_get(n.sub_nodes@, f[0]) {
            Some(c) => node_record_at(c, f.drop_first()),
            None => None,
        }
    }
}

/// As `node_record_at`, but a missing path reads as an empty record: what a
/// subscriber-visible lookup of the path observes.
pub(crate) open spec fn node_rv_at(n: TopicNode, f: Seq<Seq<u8>>) -> RecordView {
    match node_record_at(n, f) {
        Some(rv) => rv,
        None => empty_rv(),
    }
}

/// Every record is well-formed, literal children never carry a wildcard
/// name, and the children's keys are unique.
pub(crate) open spec fn node_wf(n: TopicNode) -> bool
    decreases n,
{
    &&& rv_wf(record_view(n.content))
    &&& match n.multi_level_wildcard {
        Some(b) => rv_wf(record_view(*b)),
        None => true,
    }
    &&& match n.single_level_wildcard {
        Some(c) => node_wf(*c),
        None => true,
    }
    &&& forall|a: int, b: int|
        0 <= a < b < n.sub_nodes@.len() ==> (#[trigger] n.sub_nodes@[a]).0@
            != (#[trigger] n.sub_nodes@[b]).0@
    &&& forall|k: int|
        0 <= k < n.sub_nodes@.len() ==> ((#[trigger] n.sub_nodes@[k]).0@ != plus_level()
            && n.sub_nodes@[k].0@ != hash_level())
    &&& forall|k: int| 0 <= k < n.sub_nodes@.len() ==> node_wf((#[trigger] n.sub_nodes@[k]).1)
}

/// How many subscription entries the subtree holds in total.
pub(crate) open spec fn node_total(n: TopicNode) -> nat
    decreases n, n.sub_nodes@.len() + 1,
{
    rv_total(record_view(n.content)) + (match n.multi_level_wildcard {
        Some(b) => rv_total(record_view(*b)),
        None => 0nat,
    }) + (match n.single_level_wildcard {
        Some(c) => node_total(*c),
        None => 0nat,
    }) + children_total(n, 0)
}

pub(crate) open spec fn children_total(n: TopicNode, i: int) -> nat
    decreases n, n.sub_nodes@.len() - i,
{
    if i < 0 || i >= n.sub_nodes@.len() {
        0nat
    } else {
        node_total(n.sub_nodes@[i].1) + children_total(n, i + 1)
    }
}

proof fn lemma_children_total_pointwise(n1: TopicNode, n2: TopicNode, i: int)
    requires
        n1.sub_nodes@.len() == n2.sub_nodes@.len(),
        forall|k: int|
            i <= k < n1.sub_nodes@.len() ==> (#[trigger] n1.sub_nodes@[k]).1 == n2.sub_nodes@[k].1,
    ensures
        children_total(n1, i) == children_total(n2, i),
    decreases n1.sub_nodes@.len() - i,
{
    if 0 <= i && i < n1.sub_nodes@.len() {
        lemma_children_total_pointwise(n1, n2, i + 1);
    }
}

/// Replacing the child at `j` shifts the subtree total by that child's
/// difference.
proof fn lemma_children_total_update(n1: TopicNode, n2: TopicNode, j: int, i: int)
    requires
        0 <= j < n1.sub_nodes@.len(),
        n2.sub_nodes@ == n1.sub_nodes@.update(j, n2.sub_nodes@[j]),
        0 <= i <= j,
    ensures
        children_total(n2, i) == children_total(n1, i) - node_total(n1.sub_nodes@[j].1)
            + node_total(n2.sub_nodes@[j].1),
    decreases j - i,
{
    if i == j {
        lemma_children_total_pointwise(n1, n2, j + 1);
    } else {
        lemma_children_total_update(n1, n2, j, i + 1);
        assert(n2.sub_nodes@[i] == n1.sub_nodes@[i]);
    }
}

/// Appending a child adds that child's total.
proof fn lemma_children_total_push(n1: TopicNode, n2: TopicNode, i: int)
    requires
        n2.sub_nodes@ == n1.sub_nodes@.push(n2.sub_nodes@[n2.sub_nodes@.len() - 1]),
        0 <= i <= n1.sub_nodes@.len(),
    ensures
        children_total(n2, i) == children_total(n1, i) + node_total(
            n2.sub_nodes@[n2.sub_nodes@.len() - 1].1,
        ),
    decreases n1.sub_nodes@.len() - i,
{
    if i == n1.sub_nodes@.len() {
        assert(children_total(n1, i) == 0);
        assert(children_total(n2, i + 1) == 0);
    } else {
        lemma_children_total_push(n1, n2, i + 1);
        assert(n2.sub_nodes@[i] == n1.sub_nodes@[i]);
    }
}

// First-match characterisations for the literal-child table.

proof fn lemma_assoc_get_at(s: Seq<(Vec<u8>, TopicNode)>, j: int, key: Seq<u8>)
    requires
        0 <= j < s.len(),
        s[j].0@ == key,
        forall|k: int| 0 <= k < j ==> (#[trigger] s[k]).0@ != key,
    ensures
        assoc_get(s, key) == Some(s[j].1),
    decreases j,
{
    if j > 0 {
        let rest = s.drop_first();
        assert(rest[j - 1] == s[j]);
        assert forall|k: int| 0 <= k < j - 1 implies (#[trigger] rest[k]).0@ != key by {
            assert(rest[k] == s[k + 1]);
        }
        lemma_assoc_get_at(rest, j - 1, key);
    }
}

proof fn lemma_assoc_get_missing(s: Seq<(Vec<u8>, TopicNode)>, key: Seq<u8>)
    requires
        forall|k: int| 0 <= k < s.len() ==> (#[trigger] s[k]).0@ != key,
    ensures
        assoc_get(s, key) is None,
    decreases s.len(),
{
    if s.len() > 0 {
        let rest = s.drop_first();
        assert forall|k: int| 0 <= k < rest.len() implies (#[trigger] rest[k]).0@ != key by {
            assert(rest[k] == s[k + 1]);
        }
        lemma_assoc_get_missing(rest, key);
    }
}

proof fn lemma_assoc_get_update(s: Seq<(Vec<u8>, TopicNode)>, j: int, e: (Vec<u8>, TopicNode))
    requires
        0 <= j < s.len(),
        e.0@ == s[j].0@,
        forall|k: int| 0 <= k < j ==> (#[trigger] s[k]).0@ != s[j].0@,
    ensures
        forall|x: Seq<u8>|
            #[trigger] assoc_get(s.update(j, e), x) == if x == s[j].0@ {
                Some(e.1)
            } else {
                assoc_get(s, x)
            },
    decreases j,
{
    let s2 = s.update(j, e);
    if j == 0 {
        assert forall|x: Seq<u8>|
            #[trigger] assoc_get(s2, x) == (if x == s[0].0@ {
                Some(e.1)
            } else {
                assoc_get(s, x)
            }) by {
            assert(s2[0] == e);
            assert(s2.drop_first() =~= s.drop_first());
            if x == s[0].0@ {
                assert(assoc_get(s2, x) == Some(e.1));
            } else {
                assert(assoc_get(s2, x) == assoc_get(s2.drop_first(), x));
                assert(assoc_get(s, x) == assoc_get(s.drop_first(), x));
            }
        }
    } else {
        let rest = s.drop_first();
        assert(rest[j - 1] == s[j]);
        assert forall|k: int| 0 <= k < j - 1 implies (#[trigger] rest[k]).0@ != rest[j - 1].0@ by {
            assert(rest[k] == s[k + 1]);
        }
        lemma_assoc_get_update(rest, j - 1, e);
        assert forall|x: Seq<u8>|
            #[trigger] assoc_get(s2, x) == (if x == s[j].0@ {
                Some(e.1)
            } else {
                assoc_get(s, x)
            }) by {
            assert(s2[0] == s[0]);
            assert(s2.drop_first() =~= rest.update(j - 1, e));
            assert(assoc_get(rest.update(j - 1, e), x) == if x == rest[j - 1].0@ {
                Some(e.1)
            } else {
                assoc_get(rest, x)
            });
            if x != s[j].0@ {
                if x == s[0].0@ {
                    assert(assoc_get(s2, x) == Some(s2[0].1));
                    assert(assoc_get(s, x) == Some(s[0].1));
                } else {
                    assert(assoc_get(s2, x) == assoc_get(s2.drop_first(), x));
                    assert(assoc_get(s, x) == assoc_get(rest, x));
                }
            }
        }
    }
}

proof fn lemma_assoc_get_push(s: Seq<(Vec<u8>, TopicNode)>, e: (Vec<u8>, TopicNode))
    requires
        forall|k: int| 0 <= k < s.len() ==> (#[trigger] s[k]).0@ != e.0@,
    ensures
        forall|x: Seq<u8>|
            #[trigger] assoc_get(s.push(e), x) == if x == e.0@ {
                Some(e.1)
            } else {
                assoc_get(s, x)
            },
    decreases s.len(),
{
    let s2 = s.push(e);
    if s.len() == 0 {
        assert forall|x: Seq<u8>|
            #[trigger] assoc_get(s2, x) == (if x == e.0@ {
                Some(e.1)
            } else {
                assoc_get(s, x)
            }) by {
            assert(s2[0] == e);
            assert(s2.drop_first() =~= Seq::<(Vec<u8>, TopicNode)>::empty());
            if x == e.0@ {
                assert(assoc_get(s2, x) == Some(e.1));
            } else {
                assert(assoc_get(s2, x) == assoc_get(s2.drop_first(), x));
            }
        }
    } else {
        let rest = s.drop_first();
        assert forall|k: int| 0 <= k < rest.len() implies (#[trigger] rest[k]).0@ != e.0@ by {
            assert(rest[k] == s[k + 1]);
        }
        lemma_assoc_get_push(rest, e);
        assert forall|x: Seq<u8>|
            #[trigger] assoc_get(s2, x) == (if x == e.0@ {
                Some(e.1)
            } else {
                assoc_get(s, x)
            }) by {
            assert(s2[0] == s[0]);
            assert(s2.drop_first() =~= rest.push(e));
            assert(assoc_get(rest.push(e), x) == if x == e.0@ {
                Some(e.1)
            } else {
                assoc_get(rest, x)
            });
            if x != e.0@ {
                if x == s[0].0@ {
                    assert(assoc_get(s2, x) == Some(s2[0].1));
                    assert(assoc_get(s, x) == Some(s[0].1));
                } else {
                    assert(assoc_get(s2, x) == assoc_get(s2.drop_first(), x));
                    assert(assoc_get(s, x) == assoc_get(rest, x));
                }
            }
        }
    }
}

/// Record totals follow the attach/detach outcomes.
proof fn lemma_rv_add_total(rv: RecordView, group: Option<Seq<u8>>, cid: ClientId, qos: QoS)
    requires
        rv_wf(rv),
    ensures
        rv_wf(rv_add(rv, group, cid, qos)),
        rv_total(rv_add(rv, group, cid, qos)) == rv_total(rv) + (if rv_add_is_new(rv, group, cid) {
            1int
        } else {
            0int
        }),
{
    match group {
        None => {
            lemma_upsert_sub_props(rv.subs, cid, qos);
        },
        Some(g) => {
            lemma_add_shared_props(rv.groups, g, cid, qos);
        },
    }
}

proof fn lemma_rv_remove_total(rv: RecordView, group: Option<Seq<u8>>, cid: ClientId)
    requires
        rv_wf(rv),
    ensures
        rv_wf(rv_remove(rv, group, cid)),
        rv_total(rv_remove(rv, group, cid)) == rv_total(rv) - (if rv_remove_hits(rv, group, cid) {
            1int
        } else {
            0int
        }),
{
    match group {
        None => {
            lemma_remove_sub_props(rv.subs, cid);
        },
        Some(g) => {
            lemma_remove_shared_props(rv.groups, g, cid);
        },
    }
}

/// The two wildcard levels are distinct level values.
proof fn lemma_wildcards_differ()
    ensures
        plus_level() != hash_level(),
{
    assert(plus_level()[0] == PLUS_BYTE);
    assert(hash_level()[0] == HASH_BYTE);
}

/// Recognise the single-level wildcard as a whole level.
fn is_plus_level(l: &[u8]) -> (r: bool)
    ensures
        r == (l@ == plus_level()),
{
    let r = l.len() == 1 && l[0] == PLUS_BYTE;
    proof {
        if r {
            assert(l@ =~= plus_level());
        } else if l@ == plus_level() {
            assert(l@.len() == 1 && l@[0] == PLUS_BYTE);
        }
    }
    r
}

/// Recognise the multi-level wildcard as a whole level.
fn is_hash_level(l: &[u8]) -> (r: bool)
    ensures
        r == (l@ == hash_level()),
{
    let r = l.len() == 1 && l[0] == HASH_BYTE;
    proof {
        if r {
            assert(l@ =~= hash_level());
        } else if l@ == hash_level() {
            assert(l@.len() == 1 && l@[0] == HASH_BYTE);
        }
    }
    r
}

impl TopicNode {
    /// A node with nothing subscribed anywhere below it.
    fn new_empty() -> (n: Self)
        ensures
            node_wf(n),
            node_total(n) == 0,
            forall|f: Seq<Seq<u8>>| #[trigger] node_rv_at(n, f) == empty_rv(),
            forall|f: Seq<Seq<u8>>| f.len() > 0 ==> #[trigger] node_record_at(n, f) is None,
            n.sub_nodes@.len() == 0,
            n.multi_level_wildcard is None,
            n.single_level_wildcard is None,
            record_view(n.content) == empty_rv(),
    {
        let n = TopicNode {
            multi_level_wildcard: None,
            single_level_wildcard: None,
            sub_nodes: Vec::new(),
            content: SubscriptionInfo::new_empty(),
        };
        proof {
            assert(children_total(n, 0) == 0);
            assert forall|f: Seq<Seq<u8>>| #[trigger] node_rv_at(n, f) == empty_rv() by {
                if f.len() == 0 {
                } else if f[0] == hash_level() {
                } else if f[0] == plus_level() {
                } else {
                    assert(assoc_get(n.sub_nodes@, f[0]) is None);
                }
            }
            assert forall|f: Seq<Seq<u8>>| f.len() > 0 implies #[trigger] node_record_at(n, f)
                is None by {
                if f[0] == hash_level() {
                } else if f[0] == plus_level() {
                } else {
                    assert(assoc_get(n.sub_nodes@, f[0]) is None);
                }
            }
        }
        n
    }

    /// The position of the literal child named `level`, if there is one.
    fn find_child_index(&self, level: &[u8]) -> (r: Option<usize>)
        ensures
            match r {
                Some(j) => j < self.sub_nodes@.len() && self.sub_nodes@[j as int].0@ == level@
                    && (forall|k: int|
                    0 <= k < j ==> (#[trigger] self.sub_nodes@[k]).0@ != level@),
                None => forall|k: int|
                    0 <= k < self.sub_nodes@.len() ==> (#[trigger] self.sub_nodes@[k]).0@
                        != level@,
            },
    {
        let n = self.sub_nodes.len();
        let mut j: usize = 0;
        while j < n
            invariant
                n == self.sub_nodes@.len(),
                j <= n,
                forall|k: int| 0 <= k < j ==> (#[trigger] self.sub_nodes@[k]).0@ != level@,
            decreases n - j,
        {
            if bytes_eq(self.sub_nodes[j].0.as_slice(), level) {
                return Some(j);
            }
            j += 1;
        }
        None
    }

    /// Attach one parsed subscription below this node, walking the filter
    /// levels from `i` on: a `+` level steps through the wildcard edge, a
    /// final `#` attaches to the multi-level record here, and any other
    /// level steps through (creating, if needed) the literal child.
    fn add_subscriber(
        &mut self,
        filter: &TopicFilter,
        i: usize,
        client_id: ClientId,
        qos: QoS,
    ) -> (added: bool)
        requires
            filter.wf(),
            i <= filter@.levels.len(),
            node_wf(*old(self)),
        ensures
            node_wf(*final(self)),
            node_rv_at(*final(self), filter@.levels.skip(i as int)) == rv_add(
                node_rv_at(*old(self), filter@.levels.skip(i as int)),
                filter@.group,
                client_id,
                qos,
            ),
            forall|h: Seq<Seq<u8>>|
                h != filter@.levels.skip(i as int) ==> (#[trigger] node_rv_at(*final(self), h))
                    == node_rv_at(*old(self), h),
            added == rv_add_is_new(
                node_rv_at(*old(self), filter@.levels.skip(i as int)),
                filter@.group,
                client_id,
            ),
            node_total(*final(self)) == node_total(*old(self)) + (if added {
                1int
            } else {
                0int
            }),
        decreases filter@.levels.len() - i, 1int,
    {
        if i == filter.len() {
            return self.add_at_end(filter, i, client_id, qos);
        }
        let level_opt = filter.get_part(i);
        let level = level_opt.unwrap();
        if is_hash_level(level) {
            self.add_at_hash(filter, i, client_id, qos)
        } else if is_plus_level(level) {
            self.add_at_plus(filter, i, client_id, qos)
        } else {
            self.add_at_literal(filter, i, client_id, qos, level)
        }
    }

    /// The filter is exhausted: attach to this node's own record.
    fn add_at_end(&mut self, filter: &TopicFilter, i: usize, client_id: ClientId, qos: QoS) -> (added:
        bool)
        requires
            filter.wf(),
            i == filter@.levels.len(),
            node_wf(*old(self)),
        ensures
            node_wf(*final(self)),
            node_rv_at(*final(self), filter@.levels.skip(i as int)) == rv_add(
                node_rv_at(*old(self), filter@.levels.skip(i as int)),
                filter@.group,
                client_id,
                qos,
            ),
            forall|h: Seq<Seq<u8>>|
                h != filter@.levels.skip(i as int) ==> (#[trigger] node_rv_at(*final(self), h))
                    == node_rv_at(*old(self), h),
            added == rv_add_is_new(
                node_rv_at(*old(self), filter@.levels.skip(i as int)),
                filter@.group,
                client_id,
            ),
            node_total(*final(self)) == node_total(*old(self)) + (if added {
                1int
            } else {
                0int
            }),
        decreases filter@.levels.len() - i, 0int,
    {
        let ghost f = filter@.levels.skip(i as int);
        let ghost n0 = *self;
        proof {
            assert(f =~= Seq::<Seq<u8>>::empty());
        }
        let added = match filter.shared_group() {
            None => self.content.add_client_subscription(client_id, qos),
            Some(g) => self.content.add_shared_subscription(
                client_id,
                qos,
                crate::topic::clone_bytes(g),
            ),
        };
        proof {
            lemma_rv_add_total(record_view(n0.content), filter@.group, client_id, qos);
            lemma_children_total_pointwise(*self, n0, 0);
            assert forall|h: Seq<Seq<u8>>| h != f implies (#[trigger] node_rv_at(*self, h))
                == node_rv_at(n0, h) by {
                if h.len() == 0 {
                    assert(h =~= f);
                }
            }
        }
        added
    }

    /// The level at `i` is `#`: parsing placed it last, so attach to the
    /// multi-level record here.
    fn add_at_hash(&mut self, filter: &TopicFilter, i: usize, client_id: ClientId, qos: QoS) -> (added:
        bool)
        requires
            filter.wf(),
            i < filter@.levels.len(),
            filter@.levels[i as int] == hash_level(),
            node_wf(*old(self)),
        ensures
            node_wf(*final(self)),
            node_rv_at(*final(self), filter@.levels.skip(i as int)) == rv_add(
                node_rv_at(*old(self), filter@.levels.skip(i as int)),
                filter@.group,
                client_id,
                qos,
            ),
            forall|h: Seq<Seq<u8>>|
                h != filter@.levels.skip(i as int) ==> (#[trigger] node_rv_at(*final(self), h))
                    == node_rv_at(*old(self), h),
            added == rv_add_is_new(
                node_rv_at(*old(self), filter@.levels.skip(i as int)),
                filter@.group,
                client_id,
            ),
            node_total(*final(self)) == node_total(*old(self)) + (if added {
                1int
            } else {
                0int
            }),
        decreases filter@.levels.len() - i, 0int,
    {
        let ghost f = filter@.levels.skip(i as int);
        let ghost n0 = *self;
        proof {
            lemma_wildcards_differ();
            assert(f[0] == filter@.levels[i as int]);
            filter.lemma_hash_is_last(i as int);
            assert(f =~= seq![hash_level()]);
        }
        if self.multi_level_wildcard.is_none() {
            self.multi_level_wildcard = Some(Box::new(SubscriptionInfo::new_empty()));
        }
        let ghost rv0 = node_rv_at(n0, f);
        let mut b = self.multi_level_wildcard.take().unwrap();
        proof {
            assert(record_view(*b) == rv0);
            assert(rv_wf(rv0));
        }
        let added = match filter.shared_group() {
            None => (&mut *b).add_client_subscription(client_id, qos),
            Some(g) => (&mut *b).add_shared_subscription(
                client_id,
                qos,
                crate::topic::clone_bytes(g),
            ),
        };
        self.multi_level_wildcard = Some(b);
        proof {
            lemma_rv_add_total(rv0, filter@.group, client_id, qos);
            lemma_children_total_pointwise(*self, n0, 0);
            assert(node_rv_at(*self, f) == rv_add(rv0, filter@.group, client_id, qos));
            assert forall|h: Seq<Seq<u8>>| h != f implies (#[trigger] node_rv_at(*self, h))
                == node_rv_at(n0, h) by {
                if h.len() == 0 {
                    assert(node_rv_at(*self, h) == record_view(self.content));
                    assert(node_rv_at(n0, h) == record_view(n0.content));
                    assert(node_rv_at(*self, h) == node_rv_at(n0, h));
                } else if h[0] == hash_level() {
                    if h.len() == 1 {
                        assert(h =~= f);
                        assert(false);
                    } else {
                        assert(node_record_at(*self, h) is None);
                        assert(node_record_at(n0, h) is None);
                        assert(node_rv_at(*self, h) == node_rv_at(n0, h));
                    }
                } else if h[0] == plus_level() {
                    assert(self.single_level_wildcard == n0.single_level_wildcard);
                    assert(node_rv_at(*self, h) == node_rv_at(n0, h));
                } else {
                    assert(self.sub_nodes@ == n0.sub_nodes@);
                    assert(node_rv_at(*self, h) == node_rv_at(n0, h));
                }
            }
        }
        added
    }

    /// The level at `i` is `+`: step through the single-level wildcard edge.
    fn add_at_plus(&mut self, filter: &TopicFilter, i: usize, client_id: ClientId, qos: QoS) -> (added:
        bool)
        requires
            filter.wf(),
            i < filter@.levels.len(),
            filter@.levels[i as int] == plus_level(),
            node_wf(*old(self)),
        ensures
            node_wf(*final(self)),
            node_rv_at(*final(self), filter@.levels.skip(i as int)) == rv_add(
                node_rv_at(*old(self), filter@.levels.skip(i as int)),
                filter@.group,
                client_id,
                qos,
            ),
            forall|h: Seq<Seq<u8>>|
                h != filter@.levels.skip(i as int) ==> (#[trigger] node_rv_at(*final(self), h))
                    == node_rv_at(*old(self), h),
            added == rv_add_is_new(
                node_rv_at(*old(self), filter@.levels.skip(i as int)),
                filter@.group,
                client_id,
            ),
            node_total(*final(self)) == node_total(*old(self)) + (if added {
                1int
            } else {
                0int
            }),
        decreases filter@.levels.len() - i, 0int,
    {
        let ghost f = filter@.levels.skip(i as int);
        let ghost n0 = *self;
        let _fl = filter.len();
        proof {
            lemma_wildcards_differ();
            assert(f[0] == filter@.levels[i as int]);
            assert(f.drop_first() =~= filter@.levels.skip(i as int + 1));
            assert(f[0] == plus_level());
        }
        if self.single_level_wildcard.is_none() {
            self.single_level_wildcard = Some(Box::new(TopicNode::new_empty()));
        }
        let ghost c0 = *self.single_level_wildcard->Some_0;
        proof {
            assert(node_wf(c0));
            assert(node_rv_at(c0, f.drop_first()) == node_rv_at(n0, f));
        }
        let mut c = self.single_level_wildcard.take().unwrap();
        let added = (&mut *c).add_subscriber(filter, i + 1, client_id, qos);
        self.single_level_wildcard = Some(c);
        proof {
            lemma_children_total_pointwise(*self, n0, 0);
            assert(f[0] == plus_level());
            assert(node_rv_at(*self, f) == rv_add(
                node_rv_at(n0, f),
                filter@.group,
                client_id,
                qos,
            ));
            assert forall|h: Seq<Seq<u8>>| h != f implies (#[trigger] node_rv_at(*self, h))
                == node_rv_at(n0, h) by {
                if h.len() == 0 {
                    assert(node_rv_at(*self, h) == record_view(self.content));
                    assert(node_rv_at(n0, h) == record_view(n0.content));
                } else if h[0] == hash_level() {
                    assert(self.multi_level_wildcard == n0.multi_level_wildcard);
                } else if h[0] == plus_level() {
                    assert(h.drop_first() != f.drop_first()) by {
                        if h.drop_first() == f.drop_first() {
                            assert(h.len() == f.len());
                            assert forall|k: int| 0 <= k < h.len() implies h[k] == f[k] by {
                                if k > 0 {
                                    assert(h.drop_first()[k - 1] == h[k]);
                                    assert(f.drop_first()[k - 1] == f[k]);
                                }
                            }
                            assert(h =~= f);
                        }
                    }
                    assert(node_rv_at(n0, h) == node_rv_at(c0, h.drop_first()));
                    assert(node_rv_at(*self, h) == node_rv_at(
                        *self.single_level_wildcard->Some_0,
                        h.drop_first(),
                    ));
                } else {
                    assert(self.sub_nodes@ == n0.sub_nodes@);
                }
            }
        }
        added
    }

    /// The level at `i` is a literal: step through (creating, if needed)
    /// the literal child of that name.
    #[verifier::rlimit(50)]
    fn add_at_literal(
        &mut self,
        filter: &TopicFilter,
        i: usize,
        client_id: ClientId,
        qos: QoS,
        level: &[u8],
    ) -> (added: bool)
        requires
            filter.wf(),
            i < filter@.levels.len(),
            level@ == filter@.levels[i as int],
            level@ != plus_level(),
            level@ != hash_level(),
            node_wf(*old(self)),
        ensures
            node_wf(*final(self)),
            node_rv_at(*final(self), filter@.levels.skip(i as int)) == rv_add(
                node_rv_at(*old(self), filter@.levels.skip(i as int)),
                filter@.group,
                client_id,
                qos,
            ),
            forall|h: Seq<Seq<u8>>|
                h != filter@.levels.skip(i as int) ==> (#[trigger] node_rv_at(*final(self), h))
                    == node_rv_at(*old(self), h),
            added == rv_add_is_new(
                node_rv_at(*old(self), filter@.levels.skip(i as int)),
                filter@.group,
                client_id,
            ),
            node_total(*final(self)) == node_total(*old(self)) + (if added {
                1int
            } else {
                0int
            }),
        decreases filter@.levels.len() - i, 0int,
    {
        let ghost f = filter@.levels.skip(i as int);
        let ghost n0 = *self;
        let _fl = filter.len();
        proof {
            lemma_wildcards_differ();
            assert(f[0] == filter@.levels[i as int]);
            assert(f.drop_first() =~= filter@.levels.skip(i as int + 1));
            assert(f[0] == level@);
        }
        match self.find_child_index(level) {
            Some(j) => {
                let ghost s0 = self.sub_nodes@;
                proof {
                    lemma_assoc_get_at(s0, j as int, level@);
                    assert(node_wf(s0[j as int].1));
                }
                let entry = self.sub_nodes.remove(j);
                let (key, mut child) = entry;
                let ghost c0 = child;
                let added = child.add_subscriber(filter, i + 1, client_id, qos);
                self.sub_nodes.insert(j, (key, child));
                proof {
                    let e1 = self.sub_nodes@[j as int];
                    assert(e1.0@ == level@);
                    assert(self.sub_nodes@ =~= s0.update(j as int, e1));
                    lemma_assoc_get_update(s0, j as int, e1);
                    lemma_children_total_update(n0, *self, j as int, 0);
                    assert(node_rv_at(n0, f) == node_rv_at(c0, f.drop_first()));
                    assert(node_rv_at(*self, f) == rv_add(
                        node_rv_at(n0, f),
                        filter@.group,
                        client_id,
                        qos,
                    ));
                    assert(node_wf(*self)) by {
                        assert forall|a: int, b: int|
                            0 <= a < b < self.sub_nodes@.len() implies (#[trigger] self.sub_nodes@[a]).0@
                            != (#[trigger] self.sub_nodes@[b]).0@ by {
                            assert(self.sub_nodes@[a].0@ == s0[a].0@);
                            assert(self.sub_nodes@[b].0@ == s0[b].0@);
                        }
                        assert forall|k: int|
                            0 <= k < self.sub_nodes@.len() implies ((#[trigger] self.sub_nodes@[k]).0@
                            != plus_level() && self.sub_nodes@[k].0@ != hash_level()) by {
                            assert(self.sub_nodes@[k].0@ == s0[k].0@);
                        }
                        assert forall|k: int|
                            0 <= k < self.sub_nodes@.len() implies node_wf(
                            (#[trigger] self.sub_nodes@[k]).1,
                        ) by {
                            if k != j {
                                assert(self.sub_nodes@[k] == s0[k]);
                            }
                        }
                    }
                    assert forall|h: Seq<Seq<u8>>| h != f implies (#[trigger] node_rv_at(*self, h))
                        == node_rv_at(n0, h) by {
                        if h.len() == 0 {
                            assert(node_rv_at(*self, h) == record_view(self.content));
                            assert(node_rv_at(n0, h) == record_view(n0.content));
                        } else if h[0] == hash_level() {
                            assert(self.multi_level_wildcard == n0.multi_level_wildcard);
                        } else if h[0] == plus_level() {
                            assert(self.single_level_wildcard == n0.single_level_wildcard);
                        } else if h[0] == f[0] {
                            assert(h.drop_first() != f.drop_first()) by {
                                if h.drop_first() == f.drop_first() {
                                    assert(h.len() == f.len());
                                    assert forall|k: int| 0 <= k < h.len() implies h[k] == f[k] by {
                                        if k > 0 {
                                            assert(h.drop_first()[k - 1] == h[k]);
                                            assert(f.drop_first()[k - 1] == f[k]);
                                        }
                                    }
                                    assert(h =~= f);
                                }
                            }
                            assert(node_rv_at(c0, h.drop_first()) == node_rv_at(
                                child,
                                h.drop_first(),
                            ));
                        } else {
                            assert(assoc_get(self.sub_nodes@, h[0]) == assoc_get(s0, h[0]));
                        }
                    }
                }
                added
            },
            None => {
                let mut child = TopicNode::new_empty();
                let ghost c0 = child;
                let added = child.add_subscriber(filter, i + 1, client_id, qos);
                let key = crate::topic::clone_bytes_of(level);
                let ghost s0 = self.sub_nodes@;
                self.sub_nodes.push((key, child));
                proof {
                    let e1 = self.sub_nodes@[s0.len() as int];
                    assert(e1.0@ == level@);
                    assert(self.sub_nodes@ =~= s0.push(e1));
                    lemma_assoc_get_push(s0, e1);
                    lemma_assoc_get_missing(s0, f[0]);
                    lemma_children_total_push(n0, *self, 0);
                    assert(node_rv_at(n0, f) == empty_rv());
                    assert(node_rv_at(c0, f.drop_first()) == empty_rv());
                    assert(node_rv_at(*self, f) == rv_add(
                        node_rv_at(n0, f),
                        filter@.group,
                        client_id,
                        qos,
                    ));
                    assert(node_wf(*self)) by {
                        assert forall|a: int, b: int|
                            0 <= a < b < self.sub_nodes@.len() implies (#[trigger] self.sub_nodes@[a]).0@
                            != (#[trigger] self.sub_nodes@[b]).0@ by {
                            if b < s0.len() {
                                assert(self.sub_nodes@[a] == s0[a]);
                                assert(self.sub_nodes@[b] == s0[b]);
                            } else {
                                assert(self.sub_nodes@[a] == s0[a]);
                                assert(self.sub_nodes@[b] == e1);
                            }
                        }
                        assert forall|k: int|
                            0 <= k < self.sub_nodes@.len() implies ((#[trigger] self.sub_nodes@[k]).0@
                            != plus_level() && self.sub_nodes@[k].0@ != hash_level()) by {
                            if k < s0.len() {
                                assert(self.sub_nodes@[k] == s0[k]);
                            }
                        }
                        assert forall|k: int|
                            0 <= k < self.sub_nodes@.len() implies node_wf(
                            (#[trigger] self.sub_nodes@[k]).1,
                        ) by {
                            if k < s0.len() {
                                assert(self.sub_nodes@[k] == s0[k]);
                            }
                        }
                    }
                    assert forall|h: Seq<Seq<u8>>| h != f implies (#[trigger] node_rv_at(*self, h))
                        == node_rv_at(n0, h) by {
                        if h.len() == 0 {
                            assert(node_rv_at(*self, h) == record_view(self.content));
                            assert(node_rv_at(n0, h) == record_view(n0.content));
                        } else if h[0] == hash_level() {
                            assert(self.multi_level_wildcard == n0.multi_level_wildcard);
                        } else if h[0] == plus_level() {
                            assert(self.single_level_wildcard == n0.single_level_wildcard);
                        } else if h[0] == f[0] {
                            assert(h.drop_first() != f.drop_first()) by {
                                if h.drop_first() == f.drop_first() {
                                    assert(h.len() == f.len());
                                    assert forall|k: int| 0 <= k < h.len() implies h[k] == f[k] by {
                                        if k > 0 {
                                            assert(h.drop_first()[k - 1] == h[k]);
                                            assert(f.drop_first()[k - 1] == f[k]);
                                        }
                                    }
                                    assert(h =~= f);
                                }
                            }
                            assert(node_rv_at(child, h.drop_first()) == empty_rv());
                            assert(node_record_at(n0, h) is None);
                        } else {
                            assert(assoc_get(self.sub_nodes@, h[0]) == assoc_get(s0, h[0]));
                        }
                    }
                }
                added
            },
        }
    }
}

proof fn lemma_rv_remove_missing(group: Option<Seq<u8>>, cid: ClientId)
    ensures
        rv_remove(empty_rv(), group, cid) == empty_rv(),
        !rv_remove_hits(empty_rv(), group, cid),
{
    match group {
        None => {
            assert(remove_sub(Seq::<SubScriber>::empty(), cid) == Seq::<SubScriber>::empty());
        },
        Some(g) => {
            assert(remove_shared(Seq::<(Seq<u8>, Seq<SubScriber>)>::empty(), g, cid) == Seq::<
                (Seq<u8>, Seq<SubScriber>),
            >::empty());
        },
    }
}

impl TopicNode {
    /// Detach one parsed subscription below this node, walking the filter
    /// levels from `i` on. A missing edge along the way means nothing was
    /// subscribed there, and the tree is left untouched.
    fn remove_subscriber(&mut self, filter: &TopicFilter, i: usize, client_id: ClientId) -> (removed:
        bool)
        requires
            filter.wf(),
            i <= filter@.levels.len(),
            node_wf(*old(self)),
        ensures
            node_wf(*final(self)),
            node_rv_at(*final(self), filter@.levels.skip(i as int)) == rv_remove(
                node_rv_at(*old(self), filter@.levels.skip(i as int)),
                filter@.group,
                client_id,
            ),
            forall|h: Seq<Seq<u8>>|
                h != filter@.levels.skip(i as int) ==> (#[trigger] node_rv_at(*final(self), h))
                    == node_rv_at(*old(self), h),
            removed == rv_remove_hits(
                node_rv_at(*old(self), filter@.levels.skip(i as int)),
                filter@.group,
                client_id,
            ),
            node_total(*final(self)) == node_total(*old(self)) - (if removed {
                1int
            } else {
                0int
            }),
        decreases filter@.levels.len() - i, 1int,
    {
        if i == filter.len() {
            return self.remove_at_end(filter, i, client_id);
        }
        let level_opt = filter.get_part(i);
        let level = level_opt.unwrap();
        if is_hash_level(level) {
            self.remove_at_hash(filter, i, client_id)
        } else if is_plus_level(level) {
            self.remove_at_plus(filter, i, client_id)
        } else {
            self.remove_at_literal(filter, i, client_id, level)
        }
    }

    /// The filter is exhausted: detach from this node's own record.
    fn remove_at_end(&mut self, filter: &TopicFilter, i: usize, client_id: ClientId) -> (removed:
        bool)
        requires
            filter.wf(),
            i == filter@.levels.len(),
            node_wf(*old(self)),
        ensures
            node_wf(*final(self)),
            node_rv_at(*final(self), filter@.levels.skip(i as int)) == rv_remove(
                node_rv_at(*old(self), filter@.levels.skip(i as int)),
                filter@.group,
                client_id,
            ),
            forall|h: Seq<Seq<u8>>|
                h != filter@.levels.skip(i as int) ==> (#[trigger] node_rv_at(*final(self), h))
                    == node_rv_at(*old(self), h),
            removed == rv_remove_hits(
                node_rv_at(*old(self), filter@.levels.skip(i as int)),
                filter@.group,
                client_id,
            ),
            node_total(*final(self)) == node_total(*old(self)) - (if removed {
                1int
            } else {
                0int
            }),
        decreases filter@.levels.len() - i, 0int,
    {
        let ghost f = filter@.levels.skip(i as int);
        let ghost n0 = *self;
        proof {
            assert(f =~= Seq::<Seq<u8>>::empty());
        }
        let removed = match filter.shared_group() {
            None => self.content.remove_client_subscription(client_id),
            Some(g) => self.content.remove_shared_subscription(client_id, g),
        };
        proof {
            lemma_rv_remove_total(record_view(n0.content), filter@.group, client_id);
            lemma_children_total_pointwise(*self, n0, 0);
            assert forall|h: Seq<Seq<u8>>| h != f implies (#[trigger] node_rv_at(*self, h))
                == node_rv_at(n0, h) by {
                if h.len() == 0 {
                    assert(h =~= f);
                }
            }
        }
        removed
    }

    /// The level at `i` is `#`: detach from the multi-level record here.
    fn remove_at_hash(&mut self, filter: &TopicFilter, i: usize, client_id: ClientId) -> (removed:
        bool)
        requires
            filter.wf(),
            i < filter@.levels.len(),
            filter@.levels[i as int] == hash_level(),
            node_wf(*old(self)),
        ensures
            node_wf(*final(self)),
            node_rv_at(*final(self), filter@.levels.skip(i as int)) == rv_remove(
                node_rv_at(*old(self), filter@.levels.skip(i as int)),
                filter@.group,
                client_id,
            ),
            forall|h: Seq<Seq<u8>>|
                h != filter@.levels.skip(i as int) ==> (#[trigger] node_rv_at(*final(self), h))
                    == node_rv_at(*old(self), h),
            removed == rv_remove_hits(
                node_rv_at(*old(self), filter@.levels.skip(i as int)),
                filter@.group,
                client_id,
            ),
            node_total(*final(self)) == node_total(*old(self)) - (if removed {
                1int
            } else {
                0int
            }),
        decreases filter@.levels.len() - i, 0int,
    {
        let ghost f = filter@.levels.skip(i as int);
        let ghost n0 = *self;
        proof {
            lemma_wildcards_differ();
            assert(f[0] == filter@.levels[i as int]);
            filter.lemma_hash_is_last(i as int);
            assert(f =~= seq![hash_level()]);
        }
        let b_opt = self.multi_level_wildcard.take();
        match b_opt {
            None => {
                proof {
                    assert(*self == n0);
                    assert(node_rv_at(n0, f) == empty_rv());
                    lemma_rv_remove_missing(filter@.group, client_id);
                }
                false
            },
            Some(mut b) => {
                let ghost rv0 = record_view(*b);
                let removed = match filter.shared_group() {
                    None => (&mut *b).remove_client_subscription(client_id),
                    Some(g) => (&mut *b).remove_shared_subscription(client_id, g),
                };
                self.multi_level_wildcard = Some(b);
                proof {
                    assert(node_rv_at(n0, f) == rv0);
                    lemma_rv_remove_total(rv0, filter@.group, client_id);
                    lemma_children_total_pointwise(*self, n0, 0);
                    assert(node_rv_at(*self, f) == rv_remove(rv0, filter@.group, client_id));
                    assert forall|h: Seq<Seq<u8>>| h != f implies (#[trigger] node_rv_at(*self, h))
                        == node_rv_at(n0, h) by {
                        if h.len() == 0 {
                            assert(node_rv_at(*self, h) == record_view(self.content));
                            assert(node_rv_at(n0, h) == record_view(n0.content));
                        } else if h[0] == hash_level() {
                            if h.len() == 1 {
                                assert(h =~= f);
                            } else {
                                assert(node_record_at(*self, h) is None);
                                assert(node_record_at(n0, h) is None);
                            }
                        } else if h[0] == plus_level() {
                            assert(self.single_level_wildcard == n0.single_level_wildcard);
                        } else {
                            assert(self.sub_nodes@ == n0.sub_nodes@);
                        }
                    }
                }
                removed
            },
        }
    }

    /// The level at `i` is `+`: step through the single-level wildcard edge.
    fn remove_at_plus(&mut self, filter: &TopicFilter, i: usize, client_id: ClientId) -> (removed:
        bool)
        requires
            filter.wf(),
            i < filter@.levels.len(),
            filter@.levels[i as int] == plus_level(),
            node_wf(*old(self)),
        ensures
            node_wf(*final(self)),
            node_rv_at(*final(self), filter@.levels.skip(i as int)) == rv_remove(
                node_rv_at(*old(self), filter@.levels.skip(i as int)),
                filter@.group,
                client_id,
            ),
            forall|h: Seq<Seq<u8>>|
                h != filter@.levels.skip(i as int) ==> (#[trigger] node_rv_at(*final(self), h))
                    == node_rv_at(*old(self), h),
            removed == rv_remove_hits(
                node_rv_at(*old(self), filter@.levels.skip(i as int)),
                filter@.group,
                client_id,
            ),
            node_total(*final(self)) == node_total(*old(self)) - (if removed {
                1int
            } else {
                0int
            }),
        decreases filter@.levels.len() - i, 0int,
    {
        let ghost f = filter@.levels.skip(i as int);
        let ghost n0 = *self;
        let _fl = filter.len();
        proof {
            lemma_wildcards_differ();
            assert(f[0] == filter@.levels[i as int]);
            assert(f.drop_first() =~= filter@.levels.skip(i as int + 1));
            assert(f[0] == plus_level());
        }
        let c_opt = self.single_level_wildcard.take();
        match c_opt {
            None => {
                proof {
                    assert(*self == n0);
                    assert(node_rv_at(n0, f) == empty_rv());
                    lemma_rv_remove_missing(filter@.group, client_id);
                }
                false
            },
            Some(mut c) => {
                let ghost c0 = *c;
                let removed = (&mut *c).remove_subscriber(filter, i + 1, client_id);
                self.single_level_wildcard = Some(c);
                proof {
                    lemma_children_total_pointwise(*self, n0, 0);
                    assert(node_rv_at(c0, f.drop_first()) == node_rv_at(n0, f));
                    assert(node_rv_at(*self, f) == rv_remove(
                        node_rv_at(n0, f),
                        filter@.group,
                        client_id,
                    ));
                    assert forall|h: Seq<Seq<u8>>| h != f implies (#[trigger] node_rv_at(*self, h))
                        == node_rv_at(n0, h) by {
                        if h.len() == 0 {
                            assert(node_rv_at(*self, h) == record_view(self.content));
                            assert(node_rv_at(n0, h) == record_view(n0.content));
                        } else if h[0] == hash_level() {
                            assert(self.multi_level_wildcard == n0.multi_level_wildcard);
                        } else if h[0] == plus_level() {
                            assert(h.drop_first() != f.drop_first()) by {
                                if h.drop_first() == f.drop_first() {
                                    assert(h.len() == f.len());
                                    assert forall|k: int| 0 <= k < h.len() implies h[k] == f[k] by {
                                        if k > 0 {
                                            assert(h.drop_first()[k - 1] == h[k]);
                                            assert(f.drop_first()[k - 1] == f[k]);
                                        }
                                    }
                                    assert(h =~= f);
                                }
                            }
                            assert(node_rv_at(n0, h) == node_rv_at(c0, h.drop_first()));
                            assert(node_rv_at(*self, h) == node_rv_at(
                                *self.single_level_wildcard->Some_0,
                                h.drop_first(),
                            ));
                        } else {
                            assert(self.sub_nodes@ == n0.sub_nodes@);
                        }
                    }
                }
                removed
            },
        }
    }

    /// The level at `i` is a literal: step through the literal child of that
    /// name, if it exists.
    #[verifier::rlimit(50)]
    fn remove_at_literal(
        &mut self,
        filter: &TopicFilter,
        i: usize,
        client_id: ClientId,
        level: &[u8],
    ) -> (removed: bool)
        requires
            filter.wf(),
            i < filter@.levels.len(),
            level@ == filter@.levels[i as int],
            level@ != plus_level(),
            level@ != hash_level(),
            node_wf(*old(self)),
        ensures
            node_wf(*final(self)),
            node_rv_at(*final(self), filter@.levels.skip(i as int)) == rv_remove(
                node_rv_at(*old(self), filter@.levels.skip(i as int)),
                filter@.group,
                client_id,
            ),
            forall|h: Seq<Seq<u8>>|
                h != filter@.levels.skip(i as int) ==> (#[trigger] node_rv_at(*final(self), h))
                    == node_rv_at(*old(self), h),
            removed == rv_remove_hits(
                node_rv_at(*old(self), filter@.levels.skip(i as int)),
                filter@.group,
                client_id,
            ),
            node_total(*final(self)) == node_total(*old(self)) - (if removed {
                1int
            } else {
                0int
            }),
        decreases filter@.levels.len() - i, 0int,
    {
        let ghost f = filter@.levels.skip(i as int);
        let ghost n0 = *self;
        let _fl = filter.len();
        proof {
            lemma_wildcards_differ();
            assert(f[0] == filter@.levels[i as int]);
            assert(f.drop_first() =~= filter@.levels.skip(i as int + 1));
            assert(f[0] == level@);
        }
        match self.find_child_index(level) {
            None => {
                proof {
                    lemma_assoc_get_missing(self.sub_nodes@, level@);
                    assert(node_rv_at(n0, f) == empty_rv());
                    lemma_rv_remove_missing(filter@.group, client_id);
                }
                false
            },
            Some(j) => {
                let ghost s0 = self.sub_nodes@;
                proof {
                    lemma_assoc_get_at(s0, j as int, level@);
                    assert(node_wf(s0[j as int].1));
                }
                let entry = self.sub_nodes.remove(j);
                let (key, mut child) = entry;
                let ghost c0 = child;
                let removed = child.remove_subscriber(filter, i + 1, client_id);
                self.sub_nodes.insert(j, (key, child));
                proof {
                    let e1 = self.sub_nodes@[j as int];
                    assert(e1.0@ == level@);
                    assert(self.sub_nodes@ =~= s0.update(j as int, e1));
                    lemma_assoc_get_update(s0, j as int, e1);
                    lemma_children_total_update(n0, *self, j as int, 0);
                    assert(node_rv_at(n0, f) == node_rv_at(c0, f.drop_first()));
                    assert(node_rv_at(*self, f) == rv_remove(
                        node_rv_at(n0, f),
                        filter@.group,
                        client_id,
                    ));
                    assert(node_wf(*self)) by {
                        assert forall|a: int, b: int|
                            0 <= a < b < self.sub_nodes@.len() implies (#[trigger] self.sub_nodes@[a]).0@
                            != (#[trigger] self.sub_nodes@[b]).0@ by {
                            assert(self.sub_nodes@[a].0@ == s0[a].0@);
                            assert(self.sub_nodes@[b].0@ == s0[b].0@);
                        }
                        assert forall|k: int|
                            0 <= k < self.sub_nodes@.len() implies ((#[trigger] self.sub_nodes@[k]).0@
                            != plus_level() && self.sub_nodes@[k].0@ != hash_level()) by {
                            assert(self.sub_nodes@[k].0@ == s0[k].0@);
                        }
                        assert forall|k: int|
                            0 <= k < self.sub_nodes@.len() implies node_wf(
                            (#[trigger] self.sub_nodes@[k]).1,
                        ) by {
                            if k != j {
                                assert(self.sub_nodes@[k] == s0[k]);
                            }
                        }
                    }
                    assert forall|h: Seq<Seq<u8>>| h != f implies (#[trigger] node_rv_at(*self, h))
                        == node_rv_at(n0, h) by {
                        if h.len() == 0 {
                            assert(node_rv_at(*self, h) == record_view(self.content));
                            assert(node_rv_at(n0, h) == record_view(n0.content));
                        } else if h[0] == hash_level() {
                            assert(self.multi_level_wildcard == n0.multi_level_wildcard);
                        } else if h[0] == plus_level() {
                            assert(self.single_level_wildcard == n0.single_level_wildcard);
                        } else if h[0] == f[0] {
                            assert(h.drop_first() != f.drop_first()) by {
                                if h.drop_first() == f.drop_first() {
                                    assert(h.len() == f.len());
                                    assert forall|k: int| 0 <= k < h.len() implies h[k] == f[k] by {
                                        if k > 0 {
                                            assert(h.drop_first()[k - 1] == h[k]);
                                            assert(f.drop_first()[k - 1] == f[k]);
                                        }
                                    }
                                    assert(h =~= f);
                                }
                            }
                            assert(node_rv_at(c0, h.drop_first()) == node_rv_at(
                                child,
                                h.drop_first(),
                            ));
                        } else {
                            assert(assoc_get(self.sub_nodes@, h[0]) == assoc_get(s0, h[0]));
                        }
                    }
                }
                removed
            },
        }
    }
}

// ---------------------------------------------------------------------------
// Matching: which records a publish topic reaches, and what a match returns.
// ---------------------------------------------------------------------------

/// One possible output segment of collecting a single record: all its direct
/// subscribers in order, then one valid pick per non-empty shared group.
pub open spec fn record_out(rv: RecordView, seg: Seq<SubScriber>) -> bool {
    exists|picks: Seq<SubScriber>|
        seg == rv.subs + picks && #[trigger] valid_picks(rv.groups, picks)
}

/// One possible output segment of collecting `rs` in order.
pub open spec fn records_out(rs: Seq<RecordView>, seg: Seq<SubScriber>) -> bool
    decreases rs.len(),
{
    if rs.len() == 0 {
        seg.len() == 0
    } else {
        exists|s1: Seq<SubScriber>, s2: Seq<SubScriber>|
            #![auto]
            seg == s1 + s2 && record_out(rs[0], s1) && records_out(rs.drop_first(), s2)
    }
}

pub proof fn lemma_records_out_single(rv: RecordView, seg: Seq<SubScriber>)
    requires
        record_out(rv, seg),
    ensures
        records_out(seq![rv], seg),
{
    let rs = seq![rv];
    assert(rs.drop_first() =~= Seq::<RecordView>::empty());
    assert(records_out(rs.drop_first(), Seq::<SubScriber>::empty()));
    assert(seg =~= seg + Seq::<SubScriber>::empty());
    assert(rs[0] == rv);
}

pub proof fn lemma_records_out_concat(
    rs1: Seq<RecordView>,
    seg1: Seq<SubScriber>,
    rs2: Seq<RecordView>,
    seg2: Seq<SubScriber>,
)
    requires
        records_out(rs1, seg1),
        records_out(rs2, seg2),
    ensures
        records_out(rs1 + rs2, seg1 + seg2),
    decreases rs1.len(),
{
    if rs1.len() == 0 {
        assert(rs1 + rs2 =~= rs2);
        assert(seg1 + seg2 =~= seg2);
    } else {
        let (s1, s2) = choose|s1: Seq<SubScriber>, s2: Seq<SubScriber>|
            #![auto]
            seg1 == s1 + s2 && record_out(rs1[0], s1) && records_out(rs1.drop_first(), s2);
        lemma_records_out_concat(rs1.drop_first(), s2, rs2, seg2);
        assert((rs1 + rs2).drop_first() =~= rs1.drop_first() + rs2);
        assert((rs1 + rs2)[0] == rs1[0]);
        assert(seg1 + seg2 =~= s1 + (s2 + seg2));
        assert(records_out(rs1 + rs2, seg1 + seg2)) by {
            assert(seg1 + seg2 == s1 + (s2 + seg2) && record_out((rs1 + rs2)[0], s1)
                && records_out((rs1 + rs2).drop_first(), s2 + seg2));
        }
    }
}

/// The records a publish-topic suffix reaches from `n`, in traversal order:
/// the `#` record here (it matches whatever remains, including nothing),
/// then, if the topic is exhausted, the node's own record, and otherwise
/// whatever the rest of the topic reaches through the `+` edge and through
/// the literal child of the current level.
pub(crate) open spec fn node_match_records(n: TopicNode, lv: Seq<Seq<u8>>) -> Seq<RecordView>
    decreases lv.len(),
{
    let m: Seq<RecordView> = match n.multi_level_wildcard {
        Some(b) => seq![record_view(*b)],
        None => Seq::empty(),
    };
    if lv.len() == 0 {
        m + seq![record_view(n.content)]
    } else {
        m + (match n.single_level_wildcard {
            Some(c) => node_match_records(*c, lv.drop_first()),
            None => Seq::empty(),
        }) + (match assoc_get(n.sub_nodes@, lv[0]) {
            Some(c) => node_match_records(c, lv.drop_first()),
            None => Seq::empty(),
        })
    }
}

impl SubscriptionInfo {
    /// As `get_subscriptions`, restated as one record's output segment.
    fn collect_segment(&self, out: &mut Vec<SubScriber>)
        ensures
            final(out)@.len() >= old(out)@.len(),
            final(out)@ == old(out)@ + final(out)@.skip(old(out)@.len() as int),
            record_out(record_view(*self), final(out)@.skip(old(out)@.len() as int)),
    {
        let ghost o = out@;
        self.get_subscriptions(out);
        proof {
            let picks = choose|picks: Seq<SubScriber>|
                out@ == o + record_view(*self).subs + picks && #[trigger] valid_picks(
                    record_view(*self).groups,
                    picks,
                );
            let seg = out@.skip(o.len() as int);
            assert(seg =~= record_view(*self).subs + picks);
            assert(out@ =~= o + seg);
        }
    }
}

impl TopicNode {
    /// Append to `results` one valid output of every record this topic
    /// suffix reaches below this node.
    fn get_subscriptions_rec(
        &self,
        curr_level: usize,
        publish_topic: &TopicName,
        results: &mut Vec<SubScriber>,
    )
        requires
            publish_topic.wf(),
            curr_level <= publish_topic@.len(),
        ensures
            final(results)@.len() >= old(results)@.len(),
            final(results)@ == old(results)@ + final(results)@.skip(old(results)@.len() as int),
            records_out(
                node_match_records(*self, publish_topic@.skip(curr_level as int)),
                final(results)@.skip(old(results)@.len() as int),
            ),
        decreases publish_topic@.len() - curr_level,
    {
        let ghost lv = publish_topic@.skip(curr_level as int);
        let ghost out0 = results@;
        let ghost mrecs: Seq<RecordView> = match &self.multi_level_wildcard {
            Some(b) => seq![record_view(**b)],
            None => Seq::empty(),
        };
        match &self.multi_level_wildcard {
            Some(b) => {
                (&**b).collect_segment(results);
                proof {
                    lemma_records_out_single(record_view(**b), results@.skip(out0.len() as int));
                }
            },
            None => {
                proof {
                    assert(records_out(mrecs, results@.skip(out0.len() as int)));
                }
            },
        }
        let ghost seg1 = results@.skip(out0.len() as int);
        proof {
            assert(results@ == out0 + seg1);
            assert(records_out(mrecs, seg1));
        }
        if curr_level == publish_topic.len() {
            let ghost o1 = results@;
            self.content.collect_segment(results);
            proof {
                let seg2 = results@.skip(o1.len() as int);
                lemma_records_out_single(record_view(self.content), seg2);
                lemma_records_out_concat(mrecs, seg1, seq![record_view(self.content)], seg2);
                assert(node_match_records(*self, lv) == mrecs + seq![record_view(self.content)]);
                assert(results@.skip(out0.len() as int) =~= seg1 + seg2);
                assert(results@ =~= out0 + (seg1 + seg2));
            }
            return ;
        }
        let ghost srecs: Seq<RecordView> = match &self.single_level_wildcard {
            Some(c) => node_match_records(**c, lv.drop_first()),
            None => Seq::empty(),
        };
        proof {
            assert(lv.drop_first() =~= publish_topic@.skip(curr_level as int + 1));
        }
        let ghost o1 = results@;
        match &self.single_level_wildcard {
            Some(c) => {
                (&**c).get_subscriptions_rec(curr_level + 1, publish_topic, results);
            },
            None => {},
        }
        let ghost seg2 = results@.skip(o1.len() as int);
        proof {
            assert(results@ == o1 + seg2);
            assert(records_out(srecs, seg2));
        }
        let level_opt = publish_topic.get_part(curr_level);
        let level = level_opt.unwrap();
        proof {
            assert(level@ == lv[0]);
        }
        let ghost lrecs: Seq<RecordView> = match assoc_get(self.sub_nodes@, lv[0]) {
            Some(c) => node_match_records(c, lv.drop_first()),
            None => Seq::empty(),
        };
        let ghost o2 = results@;
        match self.find_child_index(level) {
            Some(j) => {
                proof {
                    lemma_assoc_get_at(self.sub_nodes@, j as int, level@);
                }
                let c = &self.sub_nodes[j].1;
                c.get_subscriptions_rec(curr_level + 1, publish_topic, results);
            },
            None => {
                proof {
                    lemma_assoc_get_missing(self.sub_nodes@, level@);
                }
            },
        }
        let ghost seg3 = results@.skip(o2.len() as int);
        proof {
            assert(results@ == o2 + seg3);
            assert(records_out(lrecs, seg3));
            lemma_records_out_concat(mrecs, seg1, srecs, seg2);
            lemma_records_out_concat(mrecs + srecs, seg1 + seg2, lrecs, seg3);
            assert(node_match_records(*self, lv) == mrecs + srecs + lrecs);
            assert(results@.skip(out0.len() as int) =~= seg1 + seg2 + seg3);
            assert(results@ =~= out0 + (seg1 + seg2 + seg3));
        }
    }
}

// ---------------------------------------------------------------------------
// The tree: the public routing index.
// ---------------------------------------------------------------------------

/// The routing index: a trie over topic levels holding every subscription,
/// and a count of the entries it holds, used to pre-size match results.
#[derive(Debug)]
pub struct TopicTree {
    root_node: TopicNode,
    subscribers: u64,
}

impl TopicTree {
    /// Every record in the tree is well-formed and the cached count equals
    /// the number of subscription entries in the tree.
    pub closed spec fn wf(self) -> bool {
        &&& node_wf(self.root_node)
        &&& self.subscribers == node_total(self.root_node)
    }

    /// The record a filter leads to; an empty record if no subscription ever
    /// created the path.
    pub closed spec fn record_at(self, f: Seq<Seq<u8>>) -> RecordView {
        node_rv_at(self.root_node, f)
    }

    /// The records a publish topic reaches, in traversal order.
    pub closed spec fn match_records(self, lv: Seq<Seq<u8>>) -> Seq<RecordView> {
        node_match_records(self.root_node, lv)
    }

    /// How many subscription entries the tree holds.
    pub closed spec fn count(self) -> u64 {
        self.subscribers
    }

    /// The number of subscription entries currently held.
    pub fn subscriber_count(&self) -> (r: u64)
        ensures
            r == self.count(),
    {
        self.subscribers
    }

    /// Every subscriber the topic should be delivered to: each direct
    /// subscriber of every matched record, and one randomly chosen member of
    /// each non-empty shared group of every matched record.
    pub fn get_subscriptions(&self, publish_topic: &TopicName) -> (results: Vec<SubScriber>)
        requires
            self.wf(),
            publish_topic.wf(),
        ensures
            records_out(self.match_records(publish_topic@), results@),
    {
        let cap = #[verifier::truncate] (self.subscribers as usize);
        let mut results: Vec<SubScriber> = Vec::with_capacity(cap);
        self.root_node.get_subscriptions_rec(0, publish_topic, &mut results);
        proof {
            assert(publish_topic@.skip(0) =~= publish_topic@);
            assert(results@.skip(0) =~= results@);
        }
        results
    }

    /// Attach a subscription: after the call the record at the filter's
    /// levels carries `(client_id, qos)` — as a direct entry, or as a member
    /// of the filter's shared group — and no other record changes. The count
    /// grows exactly when the entry is new rather than a QoS update.
    pub fn add_subscription(&mut self, topic_filter: TopicFilter, client_id: ClientId, qos: QoS)
        requires
            old(self).wf(),
            topic_filter.wf(),
            old(self).count() < u64::MAX,
        ensures
            final(self).wf(),
            final(self).record_at(topic_filter@.levels) == rv_add(
                old(self).record_at(topic_filter@.levels),
                topic_filter@.group,
                client_id,
                qos,
            ),
            forall|h: Seq<Seq<u8>>|
                h != topic_filter@.levels ==> (#[trigger] final(self).record_at(h)) == old(
                    self,
                ).record_at(h),
            final(self).count() == old(self).count() + (if rv_add_is_new(
                old(self).record_at(topic_filter@.levels),
                topic_filter@.group,
                client_id,
            ) {
                1int
            } else {
                0int
            }),
    {
        proof {
            assert(topic_filter@.levels.skip(0) =~= topic_filter@.levels);
        }
        let added = self.root_node.add_subscriber(&topic_filter, 0, client_id, qos);
        if added {
            self.subscribers = self.subscribers + 1;
        }
    }

    /// Detach a subscription: after the call the record at the filter's
    /// levels no longer carries `client_id` (directly, or in the filter's
    /// shared group), and no other record changes. Removing something that
    /// was never added leaves the tree as it was. The count shrinks exactly
    /// when an entry actually left.
    pub fn remove_subscription(&mut self, topic_filter: TopicFilter, client_id: ClientId)
        requires
            old(self).wf(),
            topic_filter.wf(),
        ensures
            final(self).wf(),
            final(self).record_at(topic_filter@.levels) == rv_remove(
                old(self).record_at(topic_filter@.levels),
                topic_filter@.group,
                client_id,
            ),
            forall|h: Seq<Seq<u8>>|
                h != topic_filter@.levels ==> (#[trigger] final(self).record_at(h)) == old(
                    self,
                ).record_at(h),
            final(self).count() == old(self).count() - (if rv_remove_hits(
                old(self).record_at(topic_filter@.levels),
                topic_filter@.group,
                client_id,
            ) {
                1int
            } else {
                0int
            }),
    {
        proof {
            assert(topic_filter@.levels.skip(0) =~= topic_filter@.levels);
        }
        let removed = self.root_node.remove_subscriber(&topic_filter, 0, client_id);
        if removed {
            self.subscribers = self.subscribers - 1;
        }
    }
}

impl Default for TopicTree {
    /// An empty index: no filter has a record and nothing matches.
    fn default() -> (t: Self)
        ensures
            t.wf(),
            t.count() == 0,
            forall|f: Seq<Seq<u8>>| #[trigger] t.record_at(f) == empty_rv(),
            forall|lv: Seq<Seq<u8>>|
                lv.len() == 0 ==> #[trigger] t.match_records(lv) == seq![empty_rv()],
            forall|lv: Seq<Seq<u8>>|
                lv.len() > 0 ==> #[trigger] t.match_records(lv) == Seq::<RecordView>::empty(),
    {
        let t = TopicTree { root_node: TopicNode::new_empty(), subscribers: 0 };
        proof {
            assert forall|lv: Seq<Seq<u8>>|
                lv.len() == 0 implies #[trigger] t.match_records(lv) == seq![empty_rv()] by {
                assert(node_match_records(t.root_node, lv) =~= seq![record_view(
                    t.root_node.content,
                )]);
                assert(seq![record_view(t.root_node.content)] =~= seq![empty_rv()]);
            }
            assert forall|lv: Seq<Seq<u8>>|
                lv.len() > 0 implies #[trigger] t.match_records(lv) == Seq::<RecordView>::empty() by {
                assert(assoc_get(t.root_node.sub_nodes@, lv[0]) is None);
                assert(node_match_records(t.root_node, lv) =~= Seq::<RecordView>::empty());
            }
        }
        t
    }
}

// ---------------------------------------------------------------------------
// Matching is sound and complete for the protocol's rule.
// ---------------------------------------------------------------------------

proof fn lemma_recs_contains_left(a: Seq<RecordView>, b: Seq<RecordView>, x: RecordView)
    requires
        a.contains(x),
    ensures
        (a + b).contains(x),
{
    let k = choose|k: int| 0 <= k < a.len() && a[k] == x;
    assert((a + b)[k] == x);
}

proof fn lemma_recs_contains_right(a: Seq<RecordView>, b: Seq<RecordView>, x: RecordView)
    requires
        b.contains(x),
    ensures
        (a + b).contains(x),
{
    let k = choose|k: int| 0 <= k < b.len() && b[k] == x;
    assert((a + b)[a.len() + k] == x);
}

proof fn lemma_no_wildcards_drop(lv: Seq<Seq<u8>>)
    requires
        no_wildcard_levels(lv),
        lv.len() > 0,
    ensures
        no_wildcard_levels(lv.drop_first()),
{
    let rest = lv.drop_first();
    assert forall|i: int| 0 <= i < rest.len() implies (#[trigger] rest[i]) != plus_level()
        && rest[i] != hash_level() by {
        assert(rest[i] == lv[i + 1]);
    }
}

proof fn lemma_node_match_complete(n: TopicNode, f: Seq<Seq<u8>>, lv: Seq<Seq<u8>>)
    requires
        no_wildcard_levels(lv),
        filter_matches(f, lv),
        node_record_at(n, f) is Some,
    ensures
        node_match_records(n, lv).contains(node_rv_at(n, f)),
    decreases f.len(),
{
    lemma_wildcards_differ();
    let m: Seq<RecordView> = match n.multi_level_wildcard {
        Some(b) => seq![record_view(*b)],
        None => Seq::empty(),
    };
    let rv = node_rv_at(n, f);
    if f.len() == 0 {
        assert(lv.len() == 0);
        assert(rv == record_view(n.content));
        assert(seq![record_view(n.content)].contains(rv)) by {
            assert(seq![record_view(n.content)][0] == rv);
        }
        lemma_recs_contains_right(m, seq![record_view(n.content)], rv);
    } else if f[0] == hash_level() {
        assert(f.len() == 1);
        assert(m.len() == 1 && m[0] == rv);
        assert(m.contains(rv)) by {
            assert(m[0] == rv);
        }
        if lv.len() == 0 {
            lemma_recs_contains_left(m, seq![record_view(n.content)], rv);
        } else {
            let srecs: Seq<RecordView> = match n.single_level_wildcard {
                Some(c) => node_match_records(*c, lv.drop_first()),
                None => Seq::empty(),
            };
            let lrecs: Seq<RecordView> = match assoc_get(n.sub_nodes@, lv[0]) {
                Some(c) => node_match_records(c, lv.drop_first()),
                None => Seq::empty(),
            };
            lemma_recs_contains_left(m, srecs, rv);
            lemma_recs_contains_left(m + srecs, lrecs, rv);
        }
    } else if f[0] == plus_level() {
        assert(lv.len() > 0);
        let c = n.single_level_wildcard->Some_0;
        lemma_no_wildcards_drop(lv);
        assert(filter_matches(f.drop_first(), lv.drop_first()));
        lemma_node_match_complete(*c, f.drop_first(), lv.drop_first());
        let srecs = node_match_records(*c, lv.drop_first());
        let lrecs: Seq<RecordView> = match assoc_get(n.sub_nodes@, lv[0]) {
            Some(cc) => node_match_records(cc, lv.drop_first()),
            None => Seq::empty(),
        };
        assert(rv == node_rv_at(*c, f.drop_first()));
        lemma_recs_contains_right(m, srecs, rv);
        lemma_recs_contains_left(m + srecs, lrecs, rv);
    } else {
        assert(lv.len() > 0);
        assert(f[0] == lv[0]);
        let c = assoc_get(n.sub_nodes@, f[0])->Some_0;
        lemma_no_wildcards_drop(lv);
        assert(filter_matches(f.drop_first(), lv.drop_first()));
        lemma_node_match_complete(c, f.drop_first(), lv.drop_first());
        let srecs: Seq<RecordView> = match n.single_level_wildcard {
            Some(cc) => node_match_records(*cc, lv.drop_first()),
            None => Seq::empty(),
        };
        let lrecs = node_match_records(c, lv.drop_first());
        assert(rv == node_rv_at(c, f.drop_first()));
        lemma_recs_contains_right(m + srecs, lrecs, rv);
    }
}

proof fn lemma_node_match_wf(n: TopicNode, lv: Seq<Seq<u8>>, k: int)
    requires
        node_wf(n),
        0 <= k < node_match_records(n, lv).len(),
    ensures
        rv_wf(node_match_records(n, lv)[k]),
    decreases lv.len(),
{
    let m: Seq<RecordView> = match n.multi_level_wildcard {
        Some(b) => seq![record_view(*b)],
        None => Seq::empty(),
    };
    let recs = node_match_records(n, lv);
    if k < m.len() {
        assert(recs[k] == m[0]);
    } else if lv.len() == 0 {
        assert(recs[k] == record_view(n.content));
    } else {
        let srecs: Seq<RecordView> = match &n.single_level_wildcard {
            Some(c) => node_match_records(**c, lv.drop_first()),
            None => Seq::empty(),
        };
        let lrecs: Seq<RecordView> = match assoc_get(n.sub_nodes@, lv[0]) {
            Some(c) => node_match_records(c, lv.drop_first()),
            None => Seq::empty(),
        };
        assert(recs == m + srecs + lrecs);
        if k < m.len() + srecs.len() {
            let c = n.single_level_wildcard->Some_0;
            lemma_node_match_wf(*c, lv.drop_first(), k - m.len());
            assert(recs[k] == srecs[k - m.len()]);
        } else {
            let c = assoc_get(n.sub_nodes@, lv[0])->Some_0;
            assert(node_wf(c)) by {
                lemma_assoc_wf(n.sub_nodes@, lv[0], n);
            }
            lemma_node_match_wf(c, lv.drop_first(), k - m.len() - srecs.len());
            assert(recs[k] == lrecs[k - m.len() - srecs.len()]);
        }
    }
}

/// A found child of a well-formed node is well-formed.
proof fn lemma_assoc_wf(s: Seq<(Vec<u8>, TopicNode)>, key: Seq<u8>, n: TopicNode)
    requires
        node_wf(n),
        s == n.sub_nodes@,
        assoc_get(s, key) is Some,
    ensures
        node_wf(assoc_get(s, key)->Some_0),
{
    lemma_assoc_idx(s, key);
    let ai = assoc_idx(s, key);
    assert(node_wf(n.sub_nodes@[ai].1));
}

proof fn lemma_node_rv_at_wf(n: TopicNode, f: Seq<Seq<u8>>)
    requires
        node_wf(n),
    ensures
        rv_wf(node_rv_at(n, f)),
    decreases f.len(),
{
    if f.len() == 0 {
    } else if f[0] == hash_level() {
    } else if f[0] == plus_level() {
        match &n.single_level_wildcard {
            Some(c) => {
                lemma_node_rv_at_wf(**c, f.drop_first());
            },
            None => {},
        }
    } else {
        if assoc_get(n.sub_nodes@, f[0]) is Some {
            lemma_assoc_wf(n.sub_nodes@, f[0], n);
            lemma_node_rv_at_wf(assoc_get(n.sub_nodes@, f[0])->Some_0, f.drop_first());
        }
    }
}

impl TopicTree {
    /// In a well-formed tree, the record of every filter is well-formed:
    /// one entry per client, unique group names, one entry per member.
    pub proof fn lemma_record_at_wf(self, f: Seq<Seq<u8>>)
        requires
            self.wf(),
        ensures
            rv_wf(self.record_at(f)),
    {
        lemma_node_rv_at_wf(self.root_node, f);
    }
}

impl TopicTree {
    /// Every record a match visits in a well-formed tree is well-formed.
    pub proof fn lemma_match_records_wf(self, lv: Seq<Seq<u8>>, k: int)
        requires
            self.wf(),
            0 <= k < self.match_records(lv).len(),
        ensures
            rv_wf(self.match_records(lv)[k]),
    {
        lemma_node_match_wf(self.root_node, lv, k);
    }
}

/// The filter whose record the match visits at position `k`: built along
/// the traversal, it starts with `#` for a multi-level record, is empty for
/// the node's own record, and otherwise extends a `+` or the topic's literal
/// level by the child's filter.
pub(crate) open spec fn node_match_filter_at(n: TopicNode, lv: Seq<Seq<u8>>, k: int) -> Seq<
    Seq<u8>,
>
    decreases lv.len(),
{
    let m: Seq<RecordView> = match n.multi_level_wildcard {
        Some(b) => seq![record_view(*b)],
        None => Seq::empty(),
    };
    if k < m.len() {
        seq![hash_level()]
    } else if lv.len() == 0 {
        Seq::empty()
    } else {
        let srecs: Seq<RecordView> = match n.single_level_wildcard {
            Some(c) => node_match_records(*c, lv.drop_first()),
            None => Seq::empty(),
        };
        if k < m.len() + srecs.len() {
            seq![plus_level()] + node_match_filter_at(
                *n.single_level_wildcard->Some_0,
                lv.drop_first(),
                k - m.len(),
            )
        } else {
            seq![lv[0]] + node_match_filter_at(
                assoc_get(n.sub_nodes@, lv[0])->Some_0,
                lv.drop_first(),
                k - m.len() - srecs.len(),
            )
        }
    }
}

proof fn lemma_node_match_filter_at(n: TopicNode, lv: Seq<Seq<u8>>, k: int)
    requires
        no_wildcard_levels(lv),
        0 <= k < node_match_records(n, lv).len(),
    ensures
        filter_matches(node_match_filter_at(n, lv, k), lv),
        node_record_at(n, node_match_filter_at(n, lv, k)) == Some(node_match_records(n, lv)[k]),
    decreases lv.len(),
{
    lemma_wildcards_differ();
    let m: Seq<RecordView> = match n.multi_level_wildcard {
        Some(b) => seq![record_view(*b)],
        None => Seq::empty(),
    };
    let recs = node_match_records(n, lv);
    let f = node_match_filter_at(n, lv, k);
    if k < m.len() {
        assert(f[0] == hash_level());
        assert(filter_matches(f, lv));
        assert(node_record_at(n, f) == Some(m[0]));
        assert(recs[k] == m[0]);
    } else if lv.len() == 0 {
        assert(filter_matches(f, lv));
        assert(node_record_at(n, f) == Some(record_view(n.content)));
        assert(recs[k] == record_view(n.content));
    } else {
        let srecs: Seq<RecordView> = match &n.single_level_wildcard {
            Some(c) => node_match_records(**c, lv.drop_first()),
            None => Seq::empty(),
        };
        let lrecs: Seq<RecordView> = match assoc_get(n.sub_nodes@, lv[0]) {
            Some(c) => node_match_records(c, lv.drop_first()),
            None => Seq::empty(),
        };
        assert(recs == m + srecs + lrecs);
        lemma_no_wildcards_drop(lv);
        if k < m.len() + srecs.len() {
            let c = n.single_level_wildcard->Some_0;
            lemma_node_match_filter_at(*c, lv.drop_first(), k - m.len());
            let fr = node_match_filter_at(*c, lv.drop_first(), k - m.len());
            assert(f == seq![plus_level()] + fr);
            assert(f[0] == plus_level());
            assert(f.drop_first() =~= fr);
            assert(filter_matches(f, lv));
            assert(node_record_at(n, f) == Some(srecs[k - m.len()]));
            assert(recs[k] == srecs[k - m.len()]);
        } else {
            let c = assoc_get(n.sub_nodes@, lv[0])->Some_0;
            lemma_node_match_filter_at(c, lv.drop_first(), k - m.len() - srecs.len());
            let fr = node_match_filter_at(c, lv.drop_first(), k - m.len() - srecs.len());
            assert(f == seq![lv[0]] + fr);
            assert(f[0] == lv[0]);
            assert(f[0] != plus_level() && f[0] != hash_level());
            assert(f.drop_first() =~= fr);
            assert(filter_matches(f, lv));
            assert(node_record_at(n, f) == Some(lrecs[k - m.len() - srecs.len()]));
            assert(recs[k] == lrecs[k - m.len() - srecs.len()]);
        }
    }
}

proof fn lemma_node_match_filter_inj(n: TopicNode, lv: Seq<Seq<u8>>, k1: int, k2: int)
    requires
        no_wildcard_levels(lv),
        0 <= k1 < k2 < node_match_records(n, lv).len(),
    ensures
        node_match_filter_at(n, lv, k1) != node_match_filter_at(n, lv, k2),
    decreases lv.len(),
{
    lemma_wildcards_differ();
    let m: Seq<RecordView> = match n.multi_level_wildcard {
        Some(b) => seq![record_view(*b)],
        None => Seq::empty(),
    };
    let f1 = node_match_filter_at(n, lv, k1);
    let f2 = node_match_filter_at(n, lv, k2);
    if lv.len() == 0 {
        // At most two records here: the `#` record and the node's own.
        assert(k1 < m.len());
        assert(f1 == seq![hash_level()]);
        assert(f2 == Seq::<Seq<u8>>::empty());
    } else {
        let srecs: Seq<RecordView> = match &n.single_level_wildcard {
            Some(c) => node_match_records(**c, lv.drop_first()),
            None => Seq::empty(),
        };
        lemma_no_wildcards_drop(lv);
        if k1 < m.len() {
            // f1 starts with `#`; f2 starts with `+` or the literal level.
            assert(f1[0] == hash_level());
            if k2 < m.len() + srecs.len() {
                assert(f2[0] == plus_level());
            } else {
                assert(f2[0] == lv[0]);
                assert(lv[0] != hash_level());
            }
            if f1 == f2 {
                assert(f1[0] == f2[0]);
            }
        } else if k2 < m.len() + srecs.len() {
            // Both step through the `+` edge.
            let c = n.single_level_wildcard->Some_0;
            lemma_node_match_filter_inj(*c, lv.drop_first(), k1 - m.len(), k2 - m.len());
            let r1 = node_match_filter_at(*c, lv.drop_first(), k1 - m.len());
            let r2 = node_match_filter_at(*c, lv.drop_first(), k2 - m.len());
            assert(f1 == seq![plus_level()] + r1);
            assert(f2 == seq![plus_level()] + r2);
            if f1 == f2 {
                assert(f1.drop_first() =~= r1);
                assert(f2.drop_first() =~= r2);
                assert(r1 == r2);
            }
        } else if k1 < m.len() + srecs.len() {
            // f1 steps through `+`, f2 through the literal level.
            assert(f1[0] == plus_level());
            assert(f2[0] == lv[0]);
            assert(lv[0] != plus_level());
            if f1 == f2 {
                assert(f1[0] == f2[0]);
            }
        } else {
            // Both step through the literal child.
            let c = assoc_get(n.sub_nodes@, lv[0])->Some_0;
            lemma_node_match_filter_inj(
                c,
                lv.drop_first(),
                k1 - m.len() - srecs.len(),
                k2 - m.len() - srecs.len(),
            );
            let r1 = node_match_filter_at(c, lv.drop_first(), k1 - m.len() - srecs.len());
            let r2 = node_match_filter_at(c, lv.drop_first(), k2 - m.len() - srecs.len());
            assert(f1 == seq![lv[0]] + r1);
            assert(f2 == seq![lv[0]] + r2);
            if f1 == f2 {
                assert(f1.drop_first() =~= r1);
                assert(f2.drop_first() =~= r2);
                assert(r1 == r2);
            }
        }
    }
}

impl TopicTree {
    /// The filter whose record position `k` of a match visits.
    pub closed spec fn match_filter_at(self, lv: Seq<Seq<u8>>, k: int) -> Seq<Seq<u8>> {
        node_match_filter_at(self.root_node, lv, k)
    }

    /// Each position of the matched records belongs to a filter that matches
    /// the topic and whose record it is.
    pub proof fn lemma_match_filter_at(self, lv: Seq<Seq<u8>>, k: int)
        requires
            no_wildcard_levels(lv),
            0 <= k < self.match_records(lv).len(),
        ensures
            filter_matches(self.match_filter_at(lv, k), lv),
            self.record_at(self.match_filter_at(lv, k)) == self.match_records(lv)[k],
    {
        lemma_node_match_filter_at(self.root_node, lv, k);
    }

    /// Distinct positions belong to distinct filters: a match visits the
    /// record of each filter at most once, so counts over the matched
    /// records count distinct matching filters.
    pub proof fn lemma_match_filter_at_injective(self, lv: Seq<Seq<u8>>, k1: int, k2: int)
        requires
            no_wildcard_levels(lv),
            0 <= k1 < self.match_records(lv).len(),
            0 <= k2 < self.match_records(lv).len(),
            k1 != k2,
        ensures
            self.match_filter_at(lv, k1) != self.match_filter_at(lv, k2),
    {
        if k1 < k2 {
            lemma_node_match_filter_inj(self.root_node, lv, k1, k2);
        } else {
            lemma_node_match_filter_inj(self.root_node, lv, k2, k1);
        }
    }
}

impl TopicTree {
    /// Completeness of matching: if a filter matches the topic under the
    /// protocol's rule and some subscription gave it a record, that record
    /// is among the records the match visits.
    pub proof fn lemma_match_complete(self, f: Seq<Seq<u8>>, lv: Seq<Seq<u8>>)
        requires
            no_wildcard_levels(lv),
            filter_matches(f, lv),
            self.record_at(f) != empty_rv(),
        ensures
            self.match_records(lv).contains(self.record_at(f)),
    {
        assert(node_record_at(self.root_node, f) is Some) by {
            if node_record_at(self.root_node, f) is None {
                assert(self.record_at(f) == empty_rv());
            }
        }
        lemma_node_match_complete(self.root_node, f, lv);
    }

    /// Soundness of matching: every record the match visits is the record
    /// of some filter that matches the topic under the protocol's rule.
    pub proof fn lemma_match_sound(self, lv: Seq<Seq<u8>>, k: int)
        requires
            no_wildcard_levels(lv),
            0 <= k < self.match_records(lv).len(),
        ensures
            exists|f: Seq<Seq<u8>>|
                #![auto]
                filter_matches(f, lv) && self.record_at(f) == self.match_records(lv)[k],
    {
        self.lemma_match_filter_at(lv, k);
        let f = self.match_filter_at(lv, k);
        assert(filter_matches(f, lv) && self.record_at(f) == self.match_records(lv)[k]);
    }
}

// ---------------------------------------------------------------------------
// Deep copies: a clone is an observationally equal, structurally
// independent duplicate.
// ---------------------------------------------------------------------------

fn clone_subs(v: &Vec<SubScriber>) -> (r: Vec<SubScriber>)
    ensures
        r@ == v@,
{
    vstd::slice::slice_to_vec(v.as_slice())
}

impl ClientGroup {
    /// The copy names the same group and lists the same members.
    fn duplicate(&self) -> (r: Self)
        ensures
            group_view(r) == group_view(*self),
    {
        ClientGroup {
            group_id: crate::topic::clone_bytes(&self.group_id),
            clients: clone_subs(&self.clients),
        }
    }
}

impl SubscriptionInfo {
    /// The copy holds the same record.
    fn duplicate(&self) -> (r: Self)
        ensures
            record_view(r) == record_view(*self),
    {
        let mut shared: Vec<ClientGroup> = Vec::new();
        let n = self.shared_subscriptions.len();
        let mut j: usize = 0;
        while j < n
            invariant
                n == self.shared_subscriptions@.len(),
                j <= n,
                shared@.len() == j,
                forall|k: int|
                    0 <= k < j ==> group_view(#[trigger] shared@[k]) == group_view(
                        self.shared_subscriptions@[k],
                    ),
            decreases n - j,
        {
            let g = self.shared_subscriptions[j].duplicate();
            shared.push(g);
            j += 1;
        }
        let r = SubscriptionInfo {
            client_subscriptions: clone_subs(&self.client_subscriptions),
            shared_subscriptions: shared,
        };
        proof {
            assert(groups_view(r.shared_subscriptions@) =~= groups_view(
                self.shared_subscriptions@,
            ));
        }
        r
    }
}

/// The position of the first child stored under `key`, or `-1`.
spec fn assoc_idx(s: Seq<(Vec<u8>, TopicNode)>, key: Seq<u8>) -> int
    decreases s.len(),
{
    if s.len() == 0 {
        -1
    } else if s[0].0@ == key {
        0
    } else {
        let r = assoc_idx(s.drop_first(), key);
        if r < 0 {
            -1
        } else {
            r + 1
        }
    }
}

proof fn lemma_assoc_idx(s: Seq<(Vec<u8>, TopicNode)>, key: Seq<u8>)
    ensures
        assoc_idx(s, key) >= 0 ==> 0 <= assoc_idx(s, key) < s.len() && assoc_get(s, key) == Some(
            s[assoc_idx(s, key)].1,
        ),
        assoc_idx(s, key) < 0 ==> assoc_get(s, key) is None,
    decreases s.len(),
{
    if s.len() > 0 && s[0].0@ != key {
        lemma_assoc_idx(s.drop_first(), key);
        if assoc_idx(s.drop_first(), key) >= 0 {
            assert(s.drop_first()[assoc_idx(s.drop_first(), key)] == s[assoc_idx(s, key)]);
        }
    }
}

/// The lookup position depends only on the keys.
proof fn lemma_assoc_idx_parallel(
    s1: Seq<(Vec<u8>, TopicNode)>,
    s2: Seq<(Vec<u8>, TopicNode)>,
    key: Seq<u8>,
)
    requires
        s1.len() == s2.len(),
        forall|k: int| 0 <= k < s1.len() ==> (#[trigger] s1[k]).0@ == s2[k].0@,
    ensures
        assoc_idx(s1, key) == assoc_idx(s2, key),
    decreases s1.len(),
{
    if s1.len() > 0 {
        assert(s1[0].0@ == s2[0].0@);
        let r1 = s1.drop_first();
        let r2 = s2.drop_first();
        assert forall|k: int| 0 <= k < r1.len() implies (#[trigger] r1[k]).0@ == r2[k].0@ by {
            assert(r1[k] == s1[k + 1]);
            assert(r2[k] == s2[k + 1]);
        }
        lemma_assoc_idx_parallel(r1, r2, key);
    }
}

proof fn lemma_children_total_parallel(n1: TopicNode, n2: TopicNode, i: int)
    requires
        n1.sub_nodes@.len() == n2.sub_nodes@.len(),
        forall|k: int|
            0 <= k < n1.sub_nodes@.len() ==> node_total((#[trigger] n1.sub_nodes@[k]).1)
                == node_total(n2.sub_nodes@[k].1),
    ensures
        children_total(n1, i) == children_total(n2, i),
    decreases n1.sub_nodes@.len() - i,
{
    if 0 <= i && i < n1.sub_nodes@.len() {
        lemma_children_total_parallel(n1, n2, i + 1);
    }
}

impl TopicNode {
    /// The copy has the same record under every filter path, matches every
    /// topic with the same records, holds the same number of entries, and
    /// is well-formed if the original is.
    fn duplicate(&self) -> (r: Self)
        ensures
            forall|h: Seq<Seq<u8>>|
                #[trigger] node_record_at(r, h) == node_record_at(*self, h),
            forall|lv: Seq<Seq<u8>>|
                #[trigger] node_match_records(r, lv) == node_match_records(*self, lv),
            node_total(r) == node_total(*self),
            node_wf(*self) ==> node_wf(r),
        decreases *self,
    {
        let multi_level_wildcard = match &self.multi_level_wildcard {
            Some(b) => Some(Box::new((&**b).duplicate())),
            None => None,
        };
        let single_level_wildcard = match &self.single_level_wildcard {
            Some(c) => Some(Box::new((&**c).duplicate())),
            None => None,
        };
        let mut sub_nodes: Vec<(Vec<u8>, TopicNode)> = Vec::new();
        let n = self.sub_nodes.len();
        let mut j: usize = 0;
        while j < n
            invariant
                n == self.sub_nodes@.len(),
                j <= n,
                sub_nodes@.len() == j,
                forall|k: int|
                    0 <= k < j ==> (#[trigger] sub_nodes@[k]).0@ == self.sub_nodes@[k].0@,
                forall|k: int, h: Seq<Seq<u8>>|
                    0 <= k < j ==> #[trigger] node_record_at(sub_nodes@[k].1, h)
                        == node_record_at(self.sub_nodes@[k].1, h),
                forall|k: int, lv: Seq<Seq<u8>>|
                    0 <= k < j ==> #[trigger] node_match_records(sub_nodes@[k].1, lv)
                        == node_match_records(self.sub_nodes@[k].1, lv),
                forall|k: int|
                    0 <= k < j ==> node_total((#[trigger] sub_nodes@[k]).1) == node_total(
                        self.sub_nodes@[k].1,
                    ),
                forall|k: int|
                    0 <= k < j ==> (node_wf(self.sub_nodes@[k].1) ==> node_wf(
                        (#[trigger] sub_nodes@[k]).1,
                    )),
            decreases n - j,
        {
            let entry = &self.sub_nodes[j];
            let key = crate::topic::clone_bytes(&entry.0);
            let child = entry.1.duplicate();
            sub_nodes.push((key, child));
            j += 1;
        }
        let r = TopicNode {
            multi_level_wildcard,
            single_level_wildcard,
            sub_nodes,
            content: self.content.duplicate(),
        };
        proof {
            assert forall|key: Seq<u8>|
                #[trigger] assoc_idx(r.sub_nodes@, key) == assoc_idx(self.sub_nodes@, key) by {
                lemma_assoc_idx_parallel(r.sub_nodes@, self.sub_nodes@, key);
            }
            assert(record_view(r.content) == record_view(self.content));
            match (&r.multi_level_wildcard, &self.multi_level_wildcard) {
                (Some(rb), Some(sb)) => {
                    assert(record_view(**rb) == record_view(**sb));
                },
                _ => {},
            }
            assert forall|h: Seq<Seq<u8>>|
                #[trigger] node_record_at(r, h) == node_record_at(*self, h) by {
                if h.len() == 0 {
                    assert(node_record_at(r, h) == Some(record_view(r.content)));
                    assert(node_record_at(*self, h) == Some(record_view(self.content)));
                } else if h[0] == hash_level() {
                    if h.len() == 1 {
                        match (&r.multi_level_wildcard, &self.multi_level_wildcard) {
                            (Some(rb), Some(sb)) => {
                                assert(node_record_at(r, h) == Some(record_view(**rb)));
                                assert(node_record_at(*self, h) == Some(record_view(**sb)));
                            },
                            _ => {},
                        }
                    }
                } else if h[0] == plus_level() {
                    match (&r.single_level_wildcard, &self.single_level_wildcard) {
                        (Some(rc), Some(sc)) => {
                            assert(node_record_at(r, h) == node_record_at(**rc, h.drop_first()));
                            assert(node_record_at(*self, h) == node_record_at(
                                **sc,
                                h.drop_first(),
                            ));
                            assert(node_record_at(**rc, h.drop_first()) == node_record_at(
                                **sc,
                                h.drop_first(),
                            ));
                        },
                        _ => {},
                    }
                } else {
                    lemma_assoc_idx(r.sub_nodes@, h[0]);
                    lemma_assoc_idx(self.sub_nodes@, h[0]);
                    let ai = assoc_idx(self.sub_nodes@, h[0]);
                    if ai >= 0 {
                        assert(node_record_at(r.sub_nodes@[ai].1, h.drop_first())
                            == node_record_at(self.sub_nodes@[ai].1, h.drop_first()));
                        assert(node_record_at(r, h) == node_record_at(
                            r.sub_nodes@[ai].1,
                            h.drop_first(),
                        ));
                        assert(node_record_at(*self, h) == node_record_at(
                            self.sub_nodes@[ai].1,
                            h.drop_first(),
                        ));
                    } else {
                        assert(node_record_at(r, h) is None);
                        assert(node_record_at(*self, h) is None);
                    }
                }
            }
            assert forall|lv: Seq<Seq<u8>>|
                #[trigger] node_match_records(r, lv) == node_match_records(*self, lv) by {
                let mr: Seq<RecordView> = match r.multi_level_wildcard {
                    Some(b) => seq![record_view(*b)],
                    None => Seq::empty(),
                };
                let ms: Seq<RecordView> = match self.multi_level_wildcard {
                    Some(b) => seq![record_view(*b)],
                    None => Seq::empty(),
                };
                assert(mr == ms);
                if lv.len() == 0 {
                    assert(node_match_records(r, lv) == mr + seq![record_view(r.content)]);
                    assert(node_match_records(*self, lv) == ms + seq![record_view(self.content)]);
                } else {
                    let sr: Seq<RecordView> = match r.single_level_wildcard {
                        Some(c) => node_match_records(*c, lv.drop_first()),
                        None => Seq::empty(),
                    };
                    let ss: Seq<RecordView> = match self.single_level_wildcard {
                        Some(c) => node_match_records(*c, lv.drop_first()),
                        None => Seq::empty(),
                    };
                    match (&r.single_level_wildcard, &self.single_level_wildcard) {
                        (Some(rc), Some(sc)) => {
                            assert(node_match_records(**rc, lv.drop_first()) == node_match_records(
                                **sc,
                                lv.drop_first(),
                            ));
                        },
                        _ => {},
                    }
                    assert(sr == ss);
                    lemma_assoc_idx(r.sub_nodes@, lv[0]);
                    lemma_assoc_idx(self.sub_nodes@, lv[0]);
                    let ai = assoc_idx(self.sub_nodes@, lv[0]);
                    let lr: Seq<RecordView> = match assoc_get(r.sub_nodes@, lv[0]) {
                        Some(c) => node_match_records(c, lv.drop_first()),
                        None => Seq::empty(),
                    };
                    let ls: Seq<RecordView> = match assoc_get(self.sub_nodes@, lv[0]) {
                        Some(c) => node_match_records(c, lv.drop_first()),
                        None => Seq::empty(),
                    };
                    if ai >= 0 {
                        assert(node_match_records(r.sub_nodes@[ai].1, lv.drop_first())
                            == node_match_records(self.sub_nodes@[ai].1, lv.drop_first()));
                    }
                    assert(lr == ls);
                    assert(node_match_records(r, lv) == mr + sr + lr);
                    assert(node_match_records(*self, lv) == ms + ss + ls);
                }
            }
            lemma_children_total_parallel(r, *self, 0);
            if node_wf(*self) {
                assert(node_wf(r)) by {
                    assert forall|a: int, b: int|
                        0 <= a < b < r.sub_nodes@.len() implies (#[trigger] r.sub_nodes@[a]).0@
                        != (#[trigger] r.sub_nodes@[b]).0@ by {
                        assert(self.sub_nodes@[a].0@ != self.sub_nodes@[b].0@);
                    }
                    assert forall|k: int|
                        0 <= k < r.sub_nodes@.len() implies ((#[trigger] r.sub_nodes@[k]).0@
                        != plus_level() && r.sub_nodes@[k].0@ != hash_level()) by {
                        assert(r.sub_nodes@[k].0@ == self.sub_nodes@[k].0@);
                    }
                    assert forall|k: int|
                        0 <= k < r.sub_nodes@.len() implies node_wf(
                        (#[trigger] r.sub_nodes@[k]).1,
                    ) by {
                        assert(node_wf(self.sub_nodes@[k].1));
                    }
                }
            }
        }
        r
    }
}

impl Clone for TopicTree {
    /// The copy is an observationally equal, structurally independent
    /// duplicate: the same record under every filter, the same records
    /// matched for every topic, the same count, and well-formed if the
    /// original is.
    fn clone(&self) -> (r: Self)
        ensures
            forall|h: Seq<Seq<u8>>| #[trigger] r.record_at(h) == self.record_at(h),
            forall|lv: Seq<Seq<u8>>| #[trigger] r.match_records(lv) == self.match_records(lv),
            r.count() == self.count(),
            self.wf() ==> r.wf(),
    {
        TopicTree { root_node: self.root_node.duplicate(), subscribers: self.subscribers }
    }
}

} // verus!