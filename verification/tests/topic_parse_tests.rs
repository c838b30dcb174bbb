use mqtt_topic_tree::{
    QoS, TopicFilter, TopicFilterError, TopicName, TopicNameError, TopicTree,
    TopicTreeOperations,
};

fn name_err(s: &str) -> TopicNameError {
    TopicName::parse(s.as_bytes().to_vec()).unwrap_err()
}

fn filter_err(s: &str) -> TopicFilterError {
    TopicFilter::parse(s.as_bytes().to_vec()).unwrap_err()
}

#[test]
fn topic_name_levels_round_trip() {
    let t = TopicName::parse(b"a//b/".to_vec()).unwrap();
    assert_eq!(t.len(), 4);
    assert_eq!(t.get_part(0), Some(&b"a"[..]));
    assert_eq!(t.get_part(1), Some(&b""[..]));
    assert_eq!(t.get_part(2), Some(&b"b"[..]));
    assert_eq!(t.get_part(3), Some(&b""[..]));
    assert_eq!(t.get_part(4), None);
    // Joining the levels with `/` gives back the original bytes.
    let mut joined: Vec<u8> = Vec::new();
    for i in 0..t.len() {
        if i > 0 {
            joined.push(b'/');
        }
        joined.extend_from_slice(t.get_part(i).unwrap());
    }
    assert_eq!(joined, b"a//b/".to_vec());
}

#[test]
fn topic_name_rejections() {
    assert_eq!(name_err(""), TopicNameError::IsEmpty);
    let long = vec![b'a'; 65536];
    assert_eq!(TopicName::parse(long).unwrap_err(), TopicNameError::TooLong);
    let ok_long = vec![b'a'; 65535];
    assert!(TopicName::parse(ok_long).is_ok());
    assert_eq!(name_err("a\0b"), TopicNameError::ContainsNull);
    assert_eq!(name_err("a/#"), TopicNameError::ContainsMultiLevelWildcard);
    assert_eq!(name_err("a/+/b"), TopicNameError::ContainsSingleLevelWildcard);
    // The first offending byte decides the error.
    assert_eq!(name_err("a+b#"), TopicNameError::ContainsSingleLevelWildcard);
    assert_eq!(name_err("x\0+"), TopicNameError::ContainsNull);
}

#[test]
fn filter_accepts_wildcards_in_place() {
    let f = TopicFilter::parse(b"home/+/light/#".to_vec()).unwrap();
    assert_eq!(f.len(), 4);
    assert_eq!(f.get_part(1), Some(&b"+"[..]));
    assert_eq!(f.get_part(3), Some(&b"#"[..]));
    assert!(f.shared_group().is_none());
}

#[test]
fn filter_rejections() {
    assert_eq!(filter_err(""), TopicFilterError::IsEmpty);
    let long = vec![b'a'; 65536];
    assert_eq!(TopicFilter::parse(long).unwrap_err(), TopicFilterError::TooLong);
    assert_eq!(filter_err("a\0b"), TopicFilterError::ContainsNull);
    assert_eq!(filter_err("a+b"), TopicFilterError::MalformedWildcard);
    assert_eq!(filter_err("+a/b"), TopicFilterError::MalformedWildcard);
    assert_eq!(filter_err("a/#/b"), TopicFilterError::MalformedWildcard);
    assert_eq!(filter_err("a/b#"), TopicFilterError::MalformedWildcard);
    assert_eq!(filter_err("#/a"), TopicFilterError::MalformedWildcard);
}

#[test]
fn shared_subscription_parsing() {
    let f = TopicFilter::parse(b"$share/group1/home/bedroom/light".to_vec()).unwrap();
    assert_eq!(f.shared_group().as_ref().map(|g| g.as_slice()), Some(&b"group1"[..]));
    assert_eq!(f.len(), 3);
    assert_eq!(f.get_part(0), Some(&b"home"[..]));
    assert_eq!(f.get_part(2), Some(&b"light"[..]));

    assert_eq!(filter_err("$share"), TopicFilterError::InvalidSharedSubscription);
    assert_eq!(filter_err("$share/"), TopicFilterError::InvalidSharedSubscription);
    assert_eq!(filter_err("$share/g"), TopicFilterError::InvalidSharedSubscription);
    assert_eq!(filter_err("$share//x"), TopicFilterError::InvalidSharedSubscription);
    // A trailing empty level after the group is a valid (empty) filter level.
    let f2 = TopicFilter::parse(b"$share/g/".to_vec()).unwrap();
    assert_eq!(f2.len(), 1);
    assert_eq!(f2.get_part(0), Some(&b""[..]));
    // `$shares/...` is an ordinary first level, not a shared prefix.
    let f3 = TopicFilter::parse(b"$shares/g/x".to_vec()).unwrap();
    assert!(f3.shared_group().is_none());
    assert_eq!(f3.len(), 3);
}

#[test]
fn operations_apply_like_direct_calls() {
    let mut a = TopicTree::default();
    let mut b = TopicTree::default();
    let ops = vec![
        TopicTreeOperations::AddSubscription(
            TopicFilter::parse(b"home/+/door".to_vec()).unwrap(),
            1,
            QoS::Level1,
        ),
        TopicTreeOperations::AddSubscription(
            TopicFilter::parse(b"home/#".to_vec()).unwrap(),
            2,
            QoS::Level0,
        ),
        TopicTreeOperations::RemoveSubscription(
            TopicFilter::parse(b"home/+/door".to_vec()).unwrap(),
            1,
        ),
    ];
    for op in &ops {
        a.apply_operation(op);
        b.apply_operation(op);
    }
    assert_eq!(a.subscriber_count(), b.subscriber_count());
    assert_eq!(a.subscriber_count(), 1);
    let t = TopicName::parse(b"home/front/door".to_vec()).unwrap();
    let outa: Vec<u64> = a.get_subscriptions(&t).iter().map(|s| s.client_id).collect();
    let outb: Vec<u64> = b.get_subscriptions(&t).iter().map(|s| s.client_id).collect();
    assert_eq!(outa, vec![2]);
    assert_eq!(outb, vec![2]);
}
