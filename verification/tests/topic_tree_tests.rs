use mqtt_topic_tree::{ClientId, QoS, SubScriber, TopicFilter, TopicName, TopicTree};

fn topic(s: &str) -> TopicName {
    TopicName::parse(s.as_bytes().to_vec()).unwrap()
}

fn filter(s: &str) -> TopicFilter {
    TopicFilter::parse(s.as_bytes().to_vec()).unwrap()
}

fn ids(subs: &[SubScriber]) -> Vec<ClientId> {
    let mut v: Vec<ClientId> = subs.iter().map(|x| x.client_id).collect();
    v.sort();
    v
}

#[test]
fn test_add_remove_sub() {
    let mut t = TopicTree::default();
    let s1 = filter("home/+/+");
    t.add_subscription(s1, 1, QoS::Level0);
    let s2 = filter("home/#");
    t.add_subscription(s2, 2, QoS::Level0);
    let s3 = filter("home/+/#");
    t.add_subscription(s3, 3, QoS::Level0);
    let s4 = filter("$share/group1/home/bedroom/light");
    t.add_subscription(s4, 4, QoS::Level0);
    let s5 = filter("home/bedroom/light");
    t.add_subscription(s5.clone(), 5, QoS::Level0);
    // Test adding 5 subscribers
    let topic = topic("home/bedroom/light");
    let ids_found = t.get_subscriptions(&topic);
    let client_ids: Vec<ClientId> = ids_found.iter().map(|x| x.client_id).collect();
    for i in 1..=5 {
        assert!(client_ids.contains(&i))
    }
    // Test removing 5
    t.remove_subscription(s5, 5);
    let ids_found = t.get_subscriptions(&topic);
    let client_ids: Vec<ClientId> = ids_found.iter().map(|x| x.client_id).collect();
    assert!(!client_ids.contains(&5))
}

#[test]
fn speed_test() {
    let mut t = TopicTree::default();
    let s1 = filter("home/+/+");
    t.add_subscription(s1, 1, QoS::Level0);
    let s2 = filter("home/#");
    t.add_subscription(s2, 2, QoS::Level0);
    let s3 = filter("home/+/#");
    t.add_subscription(s3, 3, QoS::Level0);
    let topic = topic("home/bedroom/light");
    let num_ops = 100000;
    let t_start = std::time::Instant::now();
    for _ in 0..num_ops {
        let _ = t.get_subscriptions(&topic);
    }
    let t_end = std::time::Instant::now();
    let t_delta = (t_end - t_start).as_nanos() / num_ops as u128;
    println!("Topictree Lookup took {t_delta} ns per iteration");
}

#[test]
fn scenario_literal() {
    let mut t = TopicTree::default();
    t.add_subscription(filter("home/bedroom/light"), 5, QoS::Level0);
    let hit = t.get_subscriptions(&topic("home/bedroom/light"));
    assert_eq!(hit.len(), 1);
    assert_eq!(hit[0], SubScriber { client_id: 5, qos: QoS::Level0 });
    let miss = t.get_subscriptions(&topic("home/bedroom/fan"));
    assert!(miss.is_empty());
}

#[test]
fn scenario_single_level_wildcard() {
    let mut t = TopicTree::default();
    t.add_subscription(filter("home/+/+"), 1, QoS::Level0);
    let hit = t.get_subscriptions(&topic("home/bedroom/light"));
    assert_eq!(ids(&hit), vec![1]);
    assert_eq!(hit[0].qos, QoS::Level0);
    assert!(t.get_subscriptions(&topic("home/bedroom")).is_empty());
    assert!(t.get_subscriptions(&topic("home/bedroom/light/extra")).is_empty());
}

#[test]
fn scenario_multi_level_wildcard() {
    let mut t = TopicTree::default();
    t.add_subscription(filter("home/#"), 2, QoS::Level0);
    assert_eq!(ids(&t.get_subscriptions(&topic("home"))), vec![2]);
    assert_eq!(ids(&t.get_subscriptions(&topic("home/a"))), vec![2]);
    assert_eq!(ids(&t.get_subscriptions(&topic("home/a/b/c"))), vec![2]);
    assert!(t.get_subscriptions(&topic("office/a")).is_empty());
}

#[test]
fn scenario_overlap() {
    let mut t = TopicTree::default();
    t.add_subscription(filter("home/+/+"), 1, QoS::Level0);
    t.add_subscription(filter("home/#"), 2, QoS::Level0);
    t.add_subscription(filter("home/+/#"), 3, QoS::Level0);
    t.add_subscription(filter("home/bedroom/light"), 5, QoS::Level0);
    assert_eq!(ids(&t.get_subscriptions(&topic("home/bedroom/light"))), vec![1, 2, 3, 5]);
    t.remove_subscription(filter("home/bedroom/light"), 5);
    assert_eq!(ids(&t.get_subscriptions(&topic("home/bedroom/light"))), vec![1, 2, 3]);
}

#[test]
fn scenario_shared_group_balances() {
    let mut t = TopicTree::default();
    t.add_subscription(filter("$share/g1/sensors/#"), 10, QoS::Level0);
    t.add_subscription(filter("$share/g1/sensors/#"), 11, QoS::Level0);
    let mut seen_10 = false;
    let mut seen_11 = false;
    for _ in 0..200 {
        let out = t.get_subscriptions(&topic("sensors/room/temp"));
        assert_eq!(out.len(), 1);
        match out[0].client_id {
            10 => seen_10 = true,
            11 => seen_11 = true,
            other => panic!("unexpected client {other}"),
        }
    }
    // Over 200 draws both members should have been selected at least once.
    assert!(seen_10 && seen_11);
}

#[test]
fn scenario_idempotent_remove() {
    let mut t = TopicTree::default();
    t.remove_subscription(filter("a/b"), 1);
    assert_eq!(t.subscriber_count(), 0);
    assert!(t.get_subscriptions(&topic("a/b")).is_empty());
    assert!(t.get_subscriptions(&topic("a")).is_empty());
}

#[test]
fn resubscribe_updates_qos_once() {
    let mut t = TopicTree::default();
    t.add_subscription(filter("a/b"), 7, QoS::Level0);
    t.add_subscription(filter("a/b"), 7, QoS::Level2);
    assert_eq!(t.subscriber_count(), 1);
    let out = t.get_subscriptions(&topic("a/b"));
    assert_eq!(out.len(), 1);
    assert_eq!(out[0], SubScriber { client_id: 7, qos: QoS::Level2 });
}

#[test]
fn add_then_remove_restores_matches() {
    let mut t = TopicTree::default();
    t.add_subscription(filter("x/+/z"), 3, QoS::Level1);
    let before = ids(&t.get_subscriptions(&topic("x/y/z")));
    t.add_subscription(filter("x/y/z"), 9, QoS::Level0);
    t.remove_subscription(filter("x/y/z"), 9);
    let after = ids(&t.get_subscriptions(&topic("x/y/z")));
    assert_eq!(before, after);
    assert_eq!(after, vec![3]);
}

#[test]
fn empty_levels_are_literals() {
    let mut t = TopicTree::default();
    t.add_subscription(filter("a//b"), 1, QoS::Level0);
    t.add_subscription(filter("a/+/b"), 2, QoS::Level0);
    assert_eq!(ids(&t.get_subscriptions(&topic("a//b"))), vec![1, 2]);
    assert!(t.get_subscriptions(&topic("a/b")).is_empty());
}

#[test]
fn hash_matches_zero_trailing_levels() {
    let mut t = TopicTree::default();
    t.add_subscription(filter("home/#"), 2, QoS::Level0);
    t.add_subscription(filter("home"), 4, QoS::Level0);
    assert_eq!(ids(&t.get_subscriptions(&topic("home"))), vec![2, 4]);
}

#[test]
fn shared_has_no_meaning_in_topics() {
    let mut t = TopicTree::default();
    // The shared prefix binds the group; the effective filter is `a`.
    t.add_subscription(filter("$share/workers/a"), 21, QoS::Level0);
    let out = t.get_subscriptions(&topic("a"));
    assert_eq!(ids(&out), vec![21]);
}

#[test]
fn shared_group_removal_leaves_others() {
    let mut t = TopicTree::default();
    let f = "$share/g/jobs/#";
    t.add_subscription(filter(f), 10, QoS::Level0);
    t.add_subscription(filter(f), 11, QoS::Level0);
    assert_eq!(t.subscriber_count(), 2);
    t.remove_subscription(filter(f), 10);
    assert_eq!(t.subscriber_count(), 1);
    for _ in 0..20 {
        let out = t.get_subscriptions(&topic("jobs/build"));
        assert_eq!(out.len(), 1);
        assert_eq!(out[0].client_id, 11);
    }
    t.remove_subscription(filter(f), 11);
    assert_eq!(t.subscriber_count(), 0);
    assert!(t.get_subscriptions(&topic("jobs/build")).is_empty());
}

#[test]
fn counter_tracks_entries() {
    let mut t = TopicTree::default();
    t.add_subscription(filter("a"), 1, QoS::Level0);
    t.add_subscription(filter("a"), 2, QoS::Level0);
    t.add_subscription(filter("$share/g/a"), 3, QoS::Level0);
    assert_eq!(t.subscriber_count(), 3);
    // Upserting an existing client does not grow the count.
    t.add_subscription(filter("a"), 1, QoS::Level2);
    assert_eq!(t.subscriber_count(), 3);
    // Removing something absent does not shrink it.
    t.remove_subscription(filter("b"), 1);
    assert_eq!(t.subscriber_count(), 3);
    t.remove_subscription(filter("a"), 1);
    assert_eq!(t.subscriber_count(), 2);
}

#[test]
fn clone_is_independent_duplicate() {
    let mut t = TopicTree::default();
    t.add_subscription(filter("home/+/door"), 8, QoS::Level1);
    let copy = t.clone();
    // Mutating the original does not touch the copy.
    t.remove_subscription(filter("home/+/door"), 8);
    assert!(t.get_subscriptions(&topic("home/front/door")).is_empty());
    let out = copy.get_subscriptions(&topic("home/front/door"));
    assert_eq!(ids(&out), vec![8]);
    assert_eq!(copy.subscriber_count(), 1);
}
