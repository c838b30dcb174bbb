//! The laws the routing index obeys, stated over the spec-level views and
//! proved from the contracts of `TopicTree` and the matching rule.

use vstd::prelude::*;

use crate::client_types::{ClientId, QoS};
use crate::topic::{filter_matches, hash_level, no_wildcard_levels, plus_level};
use crate::topic_tree::{
    add_shared, empty_rv, group_members, records_out, record_out, remove_shared, remove_sub,
    rv_add, rv_remove, rv_wf, shared_has, subs_has_client, subs_unique, upsert_sub, valid_picks,
    RecordView, SubScriber, TopicTree,
};

verus! {

/// A filter without wildcards matches exactly the topic that equals it level
/// for level.
pub proof fn lemma_literal_filter_matches(f: Seq<Seq<u8>>, lv: Seq<Seq<u8>>)
    requires
        no_wildcard_levels(f),
    ensures
        filter_matches(f, lv) <==> f == lv,
    decreases f.len(),
{
    if f.len() == 0 {
        if filter_matches(f, lv) {
            assert(f =~= lv);
        }
    } else {
        assert(f[0] != hash_level() && f[0] != plus_level());
        if lv.len() == 0 {
            assert(!filter_matches(f, lv));
            assert(f != lv);
        } else {
            assert forall|i: int|
                0 <= i < f.drop_first().len() implies (#[trigger] f.drop_first()[i])
                != plus_level() && f.drop_first()[i] != hash_level() by {
                assert(f.drop_first()[i] == f[i + 1]);
            }
            lemma_literal_filter_matches(f.drop_first(), lv.drop_first());
            if filter_matches(f, lv) {
                assert(f[0] == lv[0]);
                assert(f.drop_first() == lv.drop_first());
                assert(f =~= lv) by {
                    assert forall|k: int| 0 <= k < f.len() implies f[k] == lv[k] by {
                        if k > 0 {
                            assert(f.drop_first()[k - 1] == f[k]);
                            assert(lv.drop_first()[k - 1] == lv[k]);
                        }
                    }
                }
            }
            if f == lv {
                assert(f.drop_first() =~= lv.drop_first());
                assert(filter_matches(f, lv));
            }
        }
    }
}

/// A filter without `#` matches exactly the topics of its own length whose
/// every level is either accepted by a `+` or equal to the filter's literal
/// at that position: each `+` consumes exactly one level, of any value.
pub proof fn lemma_plus_matches_one_level(f: Seq<Seq<u8>>, lv: Seq<Seq<u8>>)
    requires
        forall|i: int| 0 <= i < f.len() ==> (#[trigger] f[i]) != hash_level(),
    ensures
        filter_matches(f, lv) <==> (f.len() == lv.len() && forall|i: int|
            0 <= i < f.len() ==> ((#[trigger] f[i]) == plus_level() || f[i] == lv[i])),
    decreases f.len(),
{
    if f.len() == 0 {
    } else if lv.len() == 0 {
        assert(!filter_matches(f, lv));
    } else {
        assert forall|i: int|
            0 <= i < f.drop_first().len() implies (#[trigger] f.drop_first()[i])
            != hash_level() by {
            assert(f.drop_first()[i] == f[i + 1]);
        }
        lemma_plus_matches_one_level(f.drop_first(), lv.drop_first());
        if filter_matches(f, lv) {
            assert forall|i: int|
                0 <= i < f.len() implies ((#[trigger] f[i]) == plus_level() || f[i] == lv[i]) by {
                if i > 0 {
                    assert(f.drop_first()[i - 1] == f[i]);
                    assert(lv.drop_first()[i - 1] == lv[i]);
                }
            }
        }
        if f.len() == lv.len() && forall|i: int|
            0 <= i < f.len() ==> ((#[trigger] f[i]) == plus_level() || f[i] == lv[i]) {
            assert(f[0] == plus_level() || f[0] == lv[0]);
            assert forall|i: int|
                0 <= i < f.drop_first().len() implies ((#[trigger] f.drop_first()[i])
                    == plus_level() || f.drop_first()[i] == lv.drop_first()[i]) by {
                assert(f.drop_first()[i] == f[i + 1]);
                assert(lv.drop_first()[i] == lv[i + 1]);
                assert(f[i + 1] == plus_level() || f[i + 1] == lv[i + 1]);
            }
            assert(filter_matches(f, lv));
        }
    }
}

/// A filter that ends in `#` after a `#`-free prefix of depth `d` matches
/// exactly the topics whose first `d` levels the prefix accepts, whatever
/// else follows — including nothing at all.
pub proof fn lemma_hash_matches_prefix(prefix: Seq<Seq<u8>>, lv: Seq<Seq<u8>>)
    requires
        forall|i: int| 0 <= i < prefix.len() ==> (#[trigger] prefix[i]) != hash_level(),
    ensures
        filter_matches(prefix.push(hash_level()), lv) <==> (lv.len() >= prefix.len()
            && forall|i: int|
            0 <= i < prefix.len() ==> ((#[trigger] prefix[i]) == plus_level() || prefix[i]
                == lv[i])),
    decreases prefix.len(),
{
    let f = prefix.push(hash_level());
    if prefix.len() == 0 {
        assert(f[0] == hash_level());
        assert(filter_matches(f, lv));
    } else {
        assert(f[0] == prefix[0]);
        assert(f[0] != hash_level());
        if lv.len() == 0 {
            assert(!filter_matches(f, lv));
        } else {
            assert forall|i: int|
                0 <= i < prefix.drop_first().len() implies (#[trigger] prefix.drop_first()[i])
                != hash_level() by {
                assert(prefix.drop_first()[i] == prefix[i + 1]);
            }
            lemma_hash_matches_prefix(prefix.drop_first(), lv.drop_first());
            assert(f.drop_first() =~= prefix.drop_first().push(hash_level()));
            if filter_matches(f, lv) {
                assert(f[0] == plus_level() || f[0] == lv[0]);
                assert forall|i: int|
                    0 <= i < prefix.len() implies ((#[trigger] prefix[i]) == plus_level()
                        || prefix[i] == lv[i]) by {
                    if i > 0 {
                        assert(prefix.drop_first()[i - 1] == prefix[i]);
                        assert(lv.drop_first()[i - 1] == lv[i]);
                    }
                }
            }
            if lv.len() >= prefix.len() && forall|i: int|
                0 <= i < prefix.len() ==> ((#[trigger] prefix[i]) == plus_level() || prefix[i]
                    == lv[i]) {
                assert(prefix[0] == plus_level() || prefix[0] == lv[0]);
                assert forall|i: int|
                    0 <= i < prefix.drop_first().len() implies ((#[trigger] prefix.drop_first()[i])
                        == plus_level() || prefix.drop_first()[i] == lv.drop_first()[i]) by {
                    assert(prefix.drop_first()[i] == prefix[i + 1]);
                    assert(lv.drop_first()[i] == lv[i + 1]);
                    assert(prefix[i + 1] == plus_level() || prefix[i + 1] == lv[i + 1]);
                }
                assert(filter_matches(f, lv));
            }
        }
    }
}

// ---------------------------------------------------------------------------
// What one match call can return.
// ---------------------------------------------------------------------------

/// Every pick a valid random choice produces is a member of some group.
proof fn lemma_valid_picks_source(
    gs: Seq<(Seq<u8>, Seq<SubScriber>)>,
    picks: Seq<SubScriber>,
    s: SubScriber,
)
    requires
        valid_picks(gs, picks),
        picks.contains(s),
    ensures
        exists|k: int| 0 <= k < gs.len() && (#[trigger] gs[k]).1.contains(s),
    decreases gs.len(),
{
    if gs.len() == 0 {
    } else if gs[0].1.len() == 0 {
        lemma_valid_picks_source(gs.drop_first(), picks, s);
        let k = choose|k: int| 0 <= k < gs.drop_first().len() && (#[trigger] gs.drop_first()[k]).1.contains(s);
        assert(gs[k + 1].1.contains(s));
    } else {
        if picks[0] == s {
            assert(gs[0].1.contains(s));
        } else {
            assert(picks.drop_first().contains(s)) by {
                let j = choose|j: int| 0 <= j < picks.len() && picks[j] == s;
                assert(j > 0);
                assert(picks.drop_first()[j - 1] == s);
            }
            lemma_valid_picks_source(gs.drop_first(), picks.drop_first(), s);
            let k = choose|k: int| 0 <= k < gs.drop_first().len() && (#[trigger] gs.drop_first()[k]).1.contains(s);
            assert(gs[k + 1].1.contains(s));
        }
    }
}

/// A direct subscriber of a collected record appears in the collected
/// output.
proof fn lemma_records_out_delivers(
    rs: Seq<RecordView>,
    seg: Seq<SubScriber>,
    rv: RecordView,
    s: SubScriber,
)
    requires
        records_out(rs, seg),
        rs.contains(rv),
        rv.subs.contains(s),
    ensures
        seg.contains(s),
    decreases rs.len(),
{
    let (s1, s2) = choose|s1: Seq<SubScriber>, s2: Seq<SubScriber>|
        #![auto]
        seg == s1 + s2 && record_out(rs[0], s1) && records_out(rs.drop_first(), s2);
    let k = choose|k: int| 0 <= k < rs.len() && rs[k] == rv;
    if k == 0 {
        let picks = choose|picks: Seq<SubScriber>|
            s1 == rv.subs + picks && #[trigger] valid_picks(rv.groups, picks);
        let j = choose|j: int| 0 <= j < rv.subs.len() && rv.subs[j] == s;
        assert(s1[j] == s);
        assert(seg[j] == s);
    } else {
        assert(rs.drop_first()[k - 1] == rv);
        assert(rs.drop_first().contains(rv));
        lemma_records_out_delivers(rs.drop_first(), s2, rv, s);
        let j = choose|j: int| 0 <= j < s2.len() && s2[j] == s;
        assert(seg[s1.len() + j] == s);
    }
}

/// Everything in a collected output comes from a collected record: as one of
/// its direct subscribers, or as a member of one of its shared groups.
proof fn lemma_records_out_source(rs: Seq<RecordView>, seg: Seq<SubScriber>, s: SubScriber)
    requires
        records_out(rs, seg),
        seg.contains(s),
    ensures
        exists|k: int|
            0 <= k < rs.len() && ((#[trigger] rs[k]).subs.contains(s) || exists|g: int|
                0 <= g < rs[k].groups.len() && (#[trigger] rs[k].groups[g]).1.contains(s)),
    decreases rs.len(),
{
    let (s1, s2) = choose|s1: Seq<SubScriber>, s2: Seq<SubScriber>|
        #![auto]
        seg == s1 + s2 && record_out(rs[0], s1) && records_out(rs.drop_first(), s2);
    let j = choose|j: int| 0 <= j < seg.len() && seg[j] == s;
    if j < s1.len() {
        assert(s1.contains(s)) by {
            assert(s1[j] == s);
        }
        let picks = choose|picks: Seq<SubScriber>|
            s1 == rs[0].subs + picks && #[trigger] valid_picks(rs[0].groups, picks);
        if j < rs[0].subs.len() {
            assert(rs[0].subs[j] == s);
            assert(rs[0].subs.contains(s));
        } else {
            assert(picks[j - rs[0].subs.len()] == s);
            assert(picks.contains(s));
            lemma_valid_picks_source(rs[0].groups, picks, s);
        }
    } else {
        assert(s2[j - s1.len()] == s);
        assert(s2.contains(s));
        lemma_records_out_source(rs.drop_first(), s2, s);
        let k = choose|k: int|
            0 <= k < rs.drop_first().len() && ((#[trigger] rs.drop_first()[k]).subs.contains(s)
                || exists|g: int|
                0 <= g < rs.drop_first()[k].groups.len() && (#[trigger] rs.drop_first()[k].groups[g]).1.contains(
                    s,
                ));
        assert(rs[k + 1] == rs.drop_first()[k]);
    }
}

/// A subscriber directly attached under a filter that matches the topic is
/// delivered by every match of that topic.
pub proof fn lemma_matched_filter_delivers(
    t: TopicTree,
    f: Seq<Seq<u8>>,
    lv: Seq<Seq<u8>>,
    seg: Seq<SubScriber>,
    s: SubScriber,
)
    requires
        no_wildcard_levels(lv),
        filter_matches(f, lv),
        t.record_at(f).subs.contains(s),
        records_out(t.match_records(lv), seg),
    ensures
        seg.contains(s),
{
    assert(t.record_at(f) != empty_rv()) by {
        assert(t.record_at(f).subs.len() > 0);
    }
    t.lemma_match_complete(f, lv);
    lemma_records_out_delivers(t.match_records(lv), seg, t.record_at(f), s);
}

/// Everything a match of the topic delivers is subscribed — directly or in
/// a shared group — under some filter that matches the topic.
pub proof fn lemma_delivery_has_source(
    t: TopicTree,
    lv: Seq<Seq<u8>>,
    seg: Seq<SubScriber>,
    s: SubScriber,
)
    requires
        no_wildcard_levels(lv),
        records_out(t.match_records(lv), seg),
        seg.contains(s),
    ensures
        exists|f: Seq<Seq<u8>>|
            #![auto]
            filter_matches(f, lv) && (t.record_at(f).subs.contains(s) || exists|g: int|
                0 <= g < t.record_at(f).groups.len() && (#[trigger] t.record_at(f).groups[g]).1.contains(
                    s,
                )),
{
    let rs = t.match_records(lv);
    lemma_records_out_source(rs, seg, s);
    let k = choose|k: int|
        0 <= k < rs.len() && ((#[trigger] rs[k]).subs.contains(s) || exists|g: int|
            0 <= g < rs[k].groups.len() && (#[trigger] rs[k].groups[g]).1.contains(s));
    t.lemma_match_sound(lv, k);
    let f = choose|f: Seq<Seq<u8>>|
        #![auto]
        filter_matches(f, lv) && t.record_at(f) == rs[k];
}

// ---------------------------------------------------------------------------
// One subscriber per shared group and call.
// ---------------------------------------------------------------------------

/// How many groups have at least one member.
pub open spec fn count_nonempty(gs: Seq<(Seq<u8>, Seq<SubScriber>)>) -> nat
    decreases gs.len(),
{
    if gs.len() == 0 {
        0nat
    } else {
        (if gs[0].1.len() > 0 {
            1nat
        } else {
            0nat
        }) + count_nonempty(gs.drop_first())
    }
}

/// The random choices behind one record's output: one pick per non-empty
/// group — so each group contributes at most one subscriber per call — and
/// each pick a member of one of the record's groups.
pub proof fn lemma_record_out_shape(rv: RecordView, seg: Seq<SubScriber>)
    requires
        record_out(rv, seg),
    ensures
        exists|picks: Seq<SubScriber>|
            #![auto]
            seg == rv.subs + picks && picks.len() == count_nonempty(rv.groups) && (forall|j: int|
                0 <= j < picks.len() ==> exists|k: int|
                    0 <= k < rv.groups.len() && (#[trigger] rv.groups[k]).1.contains(
                        #[trigger] picks[j],
                    )),
{
    let picks = choose|picks: Seq<SubScriber>|
        seg == rv.subs + picks && #[trigger] valid_picks(rv.groups, picks);
    lemma_valid_picks_shape(rv.groups, picks);
    assert forall|j: int| 0 <= j < picks.len() implies exists|k: int|
        0 <= k < rv.groups.len() && (#[trigger] rv.groups[k]).1.contains(#[trigger] picks[j]) by {
        assert(picks.contains(picks[j]));
        lemma_valid_picks_source(rv.groups, picks, picks[j]);
    }
}

/// Each non-empty group owns exactly one position among the picks — the
/// one counted by the non-empty groups before it — and the pick at that
/// position is a member of the group: one subscriber per group per call.
pub proof fn lemma_valid_picks_at(
    gs: Seq<(Seq<u8>, Seq<SubScriber>)>,
    picks: Seq<SubScriber>,
    k: int,
)
    requires
        valid_picks(gs, picks),
        0 <= k < gs.len(),
        gs[k].1.len() > 0,
    ensures
        0 <= count_nonempty(gs.take(k)) < picks.len(),
        gs[k].1.contains(picks[count_nonempty(gs.take(k)) as int]),
    decreases k,
{
    lemma_valid_picks_shape(gs, picks);
    lemma_count_nonempty_bound(gs, k);
    if k == 0 {
        assert(gs.take(0) =~= Seq::<(Seq<u8>, Seq<SubScriber>)>::empty());
    } else {
        let rest = gs.drop_first();
        assert(rest[k - 1] == gs[k]);
        assert(gs.take(k)[0] == gs[0]);
        assert(gs.take(k).drop_first() =~= rest.take(k - 1));
        if gs[0].1.len() == 0 {
            lemma_valid_picks_at(rest, picks, k - 1);
        } else {
            lemma_valid_picks_at(rest, picks.drop_first(), k - 1);
            let c = count_nonempty(rest.take(k - 1));
            assert(picks[1 + c as int] == picks.drop_first()[c as int]);
        }
    }
}

/// The non-empty groups among a prefix never outnumber the ones overall.
proof fn lemma_count_nonempty_bound(gs: Seq<(Seq<u8>, Seq<SubScriber>)>, k: int)
    requires
        0 <= k <= gs.len(),
    ensures
        count_nonempty(gs.take(k)) <= count_nonempty(gs),
    decreases gs.len(),
{
    if k == 0 {
        assert(gs.take(0) =~= Seq::<(Seq<u8>, Seq<SubScriber>)>::empty());
    } else {
        assert(gs.take(k)[0] == gs[0]);
        assert(gs.take(k).drop_first() =~= gs.drop_first().take(k - 1));
        lemma_count_nonempty_bound(gs.drop_first(), k - 1);
    }
}

proof fn lemma_valid_picks_shape(gs: Seq<(Seq<u8>, Seq<SubScriber>)>, picks: Seq<SubScriber>)
    requires
        valid_picks(gs, picks),
    ensures
        picks.len() == count_nonempty(gs),
    decreases gs.len(),
{
    if gs.len() == 0 {
    } else if gs[0].1.len() == 0 {
        lemma_valid_picks_shape(gs.drop_first(), picks);
    } else {
        lemma_valid_picks_shape(gs.drop_first(), picks.drop_first());
    }
}

// ---------------------------------------------------------------------------
// Adding then removing a subscription.
// ---------------------------------------------------------------------------

/// Removing a freshly upserted client restores the entry list.
proof fn lemma_remove_upsert_id(s: Seq<SubScriber>, cid: ClientId, qos: QoS)
    requires
        !subs_has_client(s, cid),
    ensures
        remove_sub(upsert_sub(s, cid, qos), cid) == s,
    decreases s.len(),
{
    let u = upsert_sub(s, cid, qos);
    if s.len() == 0 {
        assert(u == seq![SubScriber { client_id: cid, qos }]);
        assert(remove_sub(u, cid) =~= s);
    } else {
        assert(s[0].client_id != cid) by {
            if s[0].client_id == cid {
                assert(subs_has_client(s, cid));
            }
        }
        assert(!subs_has_client(s.drop_first(), cid)) by {
            if subs_has_client(s.drop_first(), cid) {
                let k = choose|k: int|
                    0 <= k < s.drop_first().len() && s.drop_first()[k].client_id == cid;
                assert(s[k + 1].client_id == cid);
            }
        }
        lemma_remove_upsert_id(s.drop_first(), cid, qos);
        assert(u == seq![s[0]] + upsert_sub(s.drop_first(), cid, qos));
        assert(u[0] == s[0]);
        assert(u.drop_first() =~= upsert_sub(s.drop_first(), cid, qos));
        assert(remove_sub(u, cid) =~= s);
    }
}

/// Adding a direct subscription that was not there and then removing it
/// leaves the record of every filter exactly as it was.
///
/// The three trees are one index observed before the add, after the add,
/// and after the remove; the hypotheses are the contracts of
/// `add_subscription` and `remove_subscription` for a filter without a
/// shared group.
pub proof fn lemma_add_remove_direct_restores(
    t0: TopicTree,
    t1: TopicTree,
    t2: TopicTree,
    fl: Seq<Seq<u8>>,
    cid: ClientId,
    qos: QoS,
)
    requires
        !subs_has_client(t0.record_at(fl).subs, cid),
        t1.record_at(fl) == rv_add(t0.record_at(fl), None, cid, qos),
        forall|h: Seq<Seq<u8>>| h != fl ==> (#[trigger] t1.record_at(h)) == t0.record_at(h),
        t2.record_at(fl) == rv_remove(t1.record_at(fl), None, cid),
        forall|h: Seq<Seq<u8>>| h != fl ==> (#[trigger] t2.record_at(h)) == t1.record_at(h),
    ensures
        forall|h: Seq<Seq<u8>>| (#[trigger] t2.record_at(h)) == t0.record_at(h),
{
    lemma_remove_upsert_id(t0.record_at(fl).subs, cid, qos);
    assert(t2.record_at(fl) == t0.record_at(fl));
    assert forall|h: Seq<Seq<u8>>| (#[trigger] t2.record_at(h)) == t0.record_at(h) by {
        if h != fl {
            assert(t2.record_at(h) == t1.record_at(h));
        }
    }
}

/// Adding a shared subscription whose client was not in the group and then
/// removing it leaves every direct entry and every group's membership as it
/// was; at most an empty group shell remains where the add created the
/// group.
pub proof fn lemma_add_remove_shared_restores(
    t0: TopicTree,
    t1: TopicTree,
    t2: TopicTree,
    fl: Seq<Seq<u8>>,
    gname: Seq<u8>,
    cid: ClientId,
    qos: QoS,
)
    requires
        rv_wf(t0.record_at(fl)),
        !shared_has(t0.record_at(fl).groups, gname, cid),
        t1.record_at(fl) == rv_add(t0.record_at(fl), Some(gname), cid, qos),
        forall|h: Seq<Seq<u8>>| h != fl ==> (#[trigger] t1.record_at(h)) == t0.record_at(h),
        t2.record_at(fl) == rv_remove(t1.record_at(fl), Some(gname), cid),
        forall|h: Seq<Seq<u8>>| h != fl ==> (#[trigger] t2.record_at(h)) == t1.record_at(h),
    ensures
        forall|h: Seq<Seq<u8>>| (#[trigger] t2.record_at(h)).subs == t0.record_at(h).subs,
        forall|h: Seq<Seq<u8>>, nm: Seq<u8>|
            #[trigger] group_members(t2.record_at(h).groups, nm) == group_members(
                t0.record_at(h).groups,
                nm,
            ),
{
    let gs0 = t0.record_at(fl).groups;
    crate::topic_tree::lemma_add_shared_props(gs0, gname, cid, qos);
    let gs1 = add_shared(gs0, gname, cid, qos);
    crate::topic_tree::lemma_remove_shared_props(gs1, gname, cid);
    crate::topic_tree::lemma_groups_lookup(gs0, gname);
    lemma_remove_upsert_id(group_members(gs0, gname), cid, qos);
    assert(group_members(remove_shared(gs1, gname, cid), gname) == group_members(gs0, gname));
    assert forall|h: Seq<Seq<u8>>, nm: Seq<u8>|
        #[trigger] group_members(t2.record_at(h).groups, nm) == group_members(
            t0.record_at(h).groups,
            nm,
        ) by {
        if h == fl {
            if nm != gname {
                assert(group_members(gs1, nm) == group_members(gs0, nm));
                assert(group_members(remove_shared(gs1, gname, cid), nm) == group_members(
                    gs1,
                    nm,
                ));
            }
        } else {
            assert(t2.record_at(h) == t1.record_at(h));
            assert(t1.record_at(h) == t0.record_at(h));
        }
    }
}

// ---------------------------------------------------------------------------
// Adding twice is one subscription at the second QoS.
// ---------------------------------------------------------------------------

proof fn lemma_upsert_idem(s: Seq<SubScriber>, cid: ClientId, q1: QoS, q2: QoS)
    ensures
        upsert_sub(upsert_sub(s, cid, q1), cid, q2) == upsert_sub(s, cid, q2),
    decreases s.len(),
{
    let u1 = upsert_sub(s, cid, q1);
    if s.len() == 0 {
        assert(upsert_sub(u1, cid, q2) =~= upsert_sub(s, cid, q2));
    } else if s[0].client_id == cid {
        assert(u1 == seq![SubScriber { client_id: cid, qos: q1 }] + s.drop_first());
        assert(u1[0].client_id == cid);
        assert(u1.drop_first() =~= s.drop_first());
        assert(upsert_sub(u1, cid, q2) =~= upsert_sub(s, cid, q2));
    } else {
        lemma_upsert_idem(s.drop_first(), cid, q1, q2);
        assert(u1 == seq![s[0]] + upsert_sub(s.drop_first(), cid, q1));
        assert(u1[0] == s[0]);
        assert(u1.drop_first() =~= upsert_sub(s.drop_first(), cid, q1));
        assert(upsert_sub(u1, cid, q2) =~= upsert_sub(s, cid, q2));
    }
}

proof fn lemma_add_shared_idem(
    gs: Seq<(Seq<u8>, Seq<SubScriber>)>,
    gname: Seq<u8>,
    cid: ClientId,
    q1: QoS,
    q2: QoS,
)
    ensures
        add_shared(add_shared(gs, gname, cid, q1), gname, cid, q2) == add_shared(
            gs,
            gname,
            cid,
            q2,
        ),
    decreases gs.len(),
{
    let a1 = add_shared(gs, gname, cid, q1);
    if gs.len() == 0 {
        assert(a1 == seq![(gname, seq![SubScriber { client_id: cid, qos: q1 }])]);
        assert(a1[0].0 == gname);
        lemma_upsert_idem(Seq::<SubScriber>::empty(), cid, q1, q2);
        assert(upsert_sub(Seq::<SubScriber>::empty(), cid, q1) =~= a1[0].1);
        assert(add_shared(a1, gname, cid, q2) =~= add_shared(gs, gname, cid, q2)) by {
            assert(a1.drop_first() =~= Seq::<(Seq<u8>, Seq<SubScriber>)>::empty());
            assert(upsert_sub(a1[0].1, cid, q2) =~= seq![SubScriber { client_id: cid, qos: q2 }]);
        }
    } else if gs[0].0 == gname {
        assert(a1 == seq![(gs[0].0, upsert_sub(gs[0].1, cid, q1))] + gs.drop_first());
        assert(a1[0].0 == gname);
        assert(a1.drop_first() =~= gs.drop_first());
        lemma_upsert_idem(gs[0].1, cid, q1, q2);
        assert(add_shared(a1, gname, cid, q2) =~= add_shared(gs, gname, cid, q2));
    } else {
        lemma_add_shared_idem(gs.drop_first(), gname, cid, q1, q2);
        assert(a1 == seq![gs[0]] + add_shared(gs.drop_first(), gname, cid, q1));
        assert(a1[0] == gs[0]);
        assert(a1.drop_first() =~= add_shared(gs.drop_first(), gname, cid, q1));
        assert(add_shared(a1, gname, cid, q2) =~= add_shared(gs, gname, cid, q2));
    }
}

/// Subscribing the same client under the same filter twice — first at `q1`,
/// then at `q2` — leaves the index exactly as a single subscription at `q2`
/// would: one entry, at the second QoS.
pub proof fn lemma_add_idempotent_up_to_qos(
    t0: TopicTree,
    t1: TopicTree,
    t2: TopicTree,
    fl: Seq<Seq<u8>>,
    group: Option<Seq<u8>>,
    cid: ClientId,
    q1: QoS,
    q2: QoS,
)
    requires
        t1.record_at(fl) == rv_add(t0.record_at(fl), group, cid, q1),
        forall|h: Seq<Seq<u8>>| h != fl ==> (#[trigger] t1.record_at(h)) == t0.record_at(h),
        t2.record_at(fl) == rv_add(t1.record_at(fl), group, cid, q2),
        forall|h: Seq<Seq<u8>>| h != fl ==> (#[trigger] t2.record_at(h)) == t1.record_at(h),
    ensures
        t2.record_at(fl) == rv_add(t0.record_at(fl), group, cid, q2),
        forall|h: Seq<Seq<u8>>| h != fl ==> (#[trigger] t2.record_at(h)) == t0.record_at(h),
        group is None && subs_unique(t0.record_at(fl).subs) ==> (forall|s: SubScriber|
            t2.record_at(fl).subs.contains(s) && s.client_id == cid ==> s == SubScriber {
                client_id: cid,
                qos: q2,
            }),
{
    match group {
        None => {
            lemma_upsert_idem(t0.record_at(fl).subs, cid, q1, q2);
            if subs_unique(t0.record_at(fl).subs) {
                crate::topic_tree::lemma_upsert_sub_props(t0.record_at(fl).subs, cid, q2);
                assert forall|s: SubScriber|
                    t2.record_at(fl).subs.contains(s) && s.client_id == cid implies s == SubScriber {
                    client_id: cid,
                    qos: q2,
                } by {}
            }
        },
        Some(g) => {
            lemma_add_shared_idem(t0.record_at(fl).groups, g, cid, q1, q2);
        },
    }
}

// ---------------------------------------------------------------------------
// Replaying the same operations keeps two copies of the index in agreement.
// ---------------------------------------------------------------------------

/// If two copies agree on the record of every filter and both absorb the
/// same subscription (the contract of `add_subscription`), they still
/// agree. Together with its removal twin this is why replaying one
/// operation log against both buffered copies of the index converges them:
/// what a reader can observe of either copy is the same.
pub proof fn lemma_add_preserves_agreement(
    a0: TopicTree,
    a1: TopicTree,
    b0: TopicTree,
    b1: TopicTree,
    fl: Seq<Seq<u8>>,
    group: Option<Seq<u8>>,
    cid: ClientId,
    qos: QoS,
)
    requires
        forall|h: Seq<Seq<u8>>| (#[trigger] a0.record_at(h)) == b0.record_at(h),
        a1.record_at(fl) == rv_add(a0.record_at(fl), group, cid, qos),
        forall|h: Seq<Seq<u8>>| h != fl ==> (#[trigger] a1.record_at(h)) == a0.record_at(h),
        b1.record_at(fl) == rv_add(b0.record_at(fl), group, cid, qos),
        forall|h: Seq<Seq<u8>>| h != fl ==> (#[trigger] b1.record_at(h)) == b0.record_at(h),
    ensures
        forall|h: Seq<Seq<u8>>| (#[trigger] a1.record_at(h)) == b1.record_at(h),
{
    assert forall|h: Seq<Seq<u8>>| (#[trigger] a1.record_at(h)) == b1.record_at(h) by {
        if h != fl {
            assert(a0.record_at(h) == b0.record_at(h));
        }
    }
}

/// The removal twin of `lemma_add_preserves_agreement`.
pub proof fn lemma_remove_preserves_agreement(
    a0: TopicTree,
    a1: TopicTree,
    b0: TopicTree,
    b1: TopicTree,
    fl: Seq<Seq<u8>>,
    group: Option<Seq<u8>>,
    cid: ClientId,
)
    requires
        forall|h: Seq<Seq<u8>>| (#[trigger] a0.record_at(h)) == b0.record_at(h),
        a1.record_at(fl) == rv_remove(a0.record_at(fl), group, cid),
        forall|h: Seq<Seq<u8>>| h != fl ==> (#[trigger] a1.record_at(h)) == a0.record_at(h),
        b1.record_at(fl) == rv_remove(b0.record_at(fl), group, cid),
        forall|h: Seq<Seq<u8>>| h != fl ==> (#[trigger] b1.record_at(h)) == b0.record_at(h),
    ensures
        forall|h: Seq<Seq<u8>>| (#[trigger] a1.record_at(h)) == b1.record_at(h),
{
    assert forall|h: Seq<Seq<u8>>| (#[trigger] a1.record_at(h)) == b1.record_at(h) by {
        if h != fl {
            assert(a0.record_at(h) == b0.record_at(h));
        }
    }
}

// ---------------------------------------------------------------------------
// How often one client is delivered by one match.
// ---------------------------------------------------------------------------

/// How many entries of `seg` belong to `cid`.
pub open spec fn cid_count(seg: Seq<SubScriber>, cid: ClientId) -> nat
    decreases seg.len(),
{
    if seg.len() == 0 {
        0nat
    } else {
        (if seg[0].client_id == cid {
            1nat
        } else {
            0nat
        }) + cid_count(seg.drop_first(), cid)
    }
}

proof fn lemma_cid_count_concat(a: Seq<SubScriber>, b: Seq<SubScriber>, cid: ClientId)
    ensures
        cid_count(a + b, cid) == cid_count(a, cid) + cid_count(b, cid),
    decreases a.len(),
{
    if a.len() == 0 {
        assert(a + b =~= b);
    } else {
        lemma_cid_count_concat(a.drop_first(), b, cid);
        assert((a + b)[0] == a[0]);
        assert((a + b).drop_first() =~= a.drop_first() + b);
    }
}

/// In a duplicate-free entry list, a client is counted at most once.
proof fn lemma_unique_cid_count(s: Seq<SubScriber>, cid: ClientId)
    requires
        subs_unique(s),
    ensures
        cid_count(s, cid) == (if subs_has_client(s, cid) {
            1int
        } else {
            0int
        }),
    decreases s.len(),
{
    if s.len() == 0 {
    } else {
        let rest = s.drop_first();
        assert(subs_unique(rest)) by {
            assert forall|a: int, b: int|
                0 <= a < b < rest.len() implies (#[trigger] rest[a]).client_id
                != (#[trigger] rest[b]).client_id by {
                assert(rest[a] == s[a + 1] && rest[b] == s[b + 1]);
            }
        }
        lemma_unique_cid_count(rest, cid);
        if s[0].client_id == cid {
            assert(subs_has_client(s, cid)) by {
                assert(s[0].client_id == cid);
            }
            assert(!subs_has_client(rest, cid)) by {
                if subs_has_client(rest, cid) {
                    let k = choose|k: int| 0 <= k < rest.len() && rest[k].client_id == cid;
                    assert(s[k + 1].client_id == cid);
                    assert(s[0].client_id != s[k + 1].client_id);
                }
            }
        } else {
            assert(subs_has_client(s, cid) == subs_has_client(rest, cid)) by {
                if subs_has_client(s, cid) {
                    let k = choose|k: int| 0 <= k < s.len() && s[k].client_id == cid;
                    assert(k > 0);
                    assert(rest[k - 1].client_id == cid);
                }
                if subs_has_client(rest, cid) {
                    let k = choose|k: int| 0 <= k < rest.len() && rest[k].client_id == cid;
                    assert(s[k + 1].client_id == cid);
                }
            }
        }
    }
}

/// How many groups list `cid` as a member.
pub open spec fn groups_with_count(gs: Seq<(Seq<u8>, Seq<SubScriber>)>, cid: ClientId) -> nat
    decreases gs.len(),
{
    if gs.len() == 0 {
        0nat
    } else {
        (if subs_has_client(gs[0].1, cid) {
            1nat
        } else {
            0nat
        }) + groups_with_count(gs.drop_first(), cid)
    }
}

/// The random picks name `cid` at most once per group that lists it.
proof fn lemma_picks_cid_bound(
    gs: Seq<(Seq<u8>, Seq<SubScriber>)>,
    picks: Seq<SubScriber>,
    cid: ClientId,
)
    requires
        valid_picks(gs, picks),
    ensures
        cid_count(picks, cid) <= groups_with_count(gs, cid),
    decreases gs.len(),
{
    if gs.len() == 0 {
    } else if gs[0].1.len() == 0 {
        lemma_picks_cid_bound(gs.drop_first(), picks, cid);
    } else {
        lemma_picks_cid_bound(gs.drop_first(), picks.drop_first(), cid);
        if picks[0].client_id == cid {
            assert(subs_has_client(gs[0].1, cid)) by {
                let k = choose|k: int| 0 <= k < gs[0].1.len() && gs[0].1[k] == picks[0];
                assert(gs[0].1[k].client_id == cid);
            }
        }
    }
}

/// How many matched records hold `cid` as a direct subscriber.
pub open spec fn direct_hits(rs: Seq<RecordView>, cid: ClientId) -> nat
    decreases rs.len(),
{
    if rs.len() == 0 {
        0nat
    } else {
        (if subs_has_client(rs[0].subs, cid) {
            1nat
        } else {
            0nat
        }) + direct_hits(rs.drop_first(), cid)
    }
}

/// How many shared groups of the matched records hold `cid` as a member.
pub open spec fn shared_capacity(rs: Seq<RecordView>, cid: ClientId) -> nat
    decreases rs.len(),
{
    if rs.len() == 0 {
        0nat
    } else {
        groups_with_count(rs[0].groups, cid) + shared_capacity(rs.drop_first(), cid)
    }
}

proof fn lemma_records_out_multiplicity(rs: Seq<RecordView>, seg: Seq<SubScriber>, cid: ClientId)
    requires
        records_out(rs, seg),
        forall|k: int| 0 <= k < rs.len() ==> subs_unique((#[trigger] rs[k]).subs),
    ensures
        direct_hits(rs, cid) <= cid_count(seg, cid) <= direct_hits(rs, cid) + shared_capacity(
            rs,
            cid,
        ),
    decreases rs.len(),
{
    if rs.len() == 0 {
    } else {
        let (s1, s2) = choose|s1: Seq<SubScriber>, s2: Seq<SubScriber>|
            #![auto]
            seg == s1 + s2 && record_out(rs[0], s1) && records_out(rs.drop_first(), s2);
        let picks = choose|picks: Seq<SubScriber>|
            s1 == rs[0].subs + picks && #[trigger] valid_picks(rs[0].groups, picks);
        assert forall|k: int|
            0 <= k < rs.drop_first().len() implies subs_unique(
            (#[trigger] rs.drop_first()[k]).subs,
        ) by {
            assert(rs.drop_first()[k] == rs[k + 1]);
        }
        lemma_records_out_multiplicity(rs.drop_first(), s2, cid);
        lemma_cid_count_concat(s1, s2, cid);
        lemma_cid_count_concat(rs[0].subs, picks, cid);
        assert(subs_unique(rs[0].subs));
        lemma_unique_cid_count(rs[0].subs, cid);
        lemma_picks_cid_bound(rs[0].groups, picks, cid);
    }
}

/// How often one match of `lv` delivers to client `cid`: at least once per
/// matched record that holds a direct subscription of `cid`, and beyond
/// those at most once per matched shared group that `cid` is a member of.
pub proof fn lemma_match_multiplicity(
    t: TopicTree,
    lv: Seq<Seq<u8>>,
    seg: Seq<SubScriber>,
    cid: ClientId,
)
    requires
        t.wf(),
        records_out(t.match_records(lv), seg),
    ensures
        direct_hits(t.match_records(lv), cid) <= cid_count(seg, cid),
        cid_count(seg, cid) <= direct_hits(t.match_records(lv), cid) + shared_capacity(
            t.match_records(lv),
            cid,
        ),
{
    let rs = t.match_records(lv);
    assert forall|k: int| 0 <= k < rs.len() implies subs_unique((#[trigger] rs[k]).subs) by {
        t.lemma_match_records_wf(lv, k);
    }
    lemma_records_out_multiplicity(rs, seg, cid);
}

} // verus!