use dataflow::addressing::DomainIndex;
use dataflow::channel::{ChannelCoordinator, SendOutcome, Sender};

#[test]
fn coordinator_knows_where_the_shards_are() {
    let mut c = ChannelCoordinator::new();
    assert!(c.get_dest((DomainIndex(0), 0)).is_none());
    c.insert_addr((DomainIndex(0), 0), "127.0.0.1:1".to_string(), true);
    c.insert_addr((DomainIndex(0), 1), "10.0.0.2:1".to_string(), false);
    assert_eq!(c.get_addr((DomainIndex(0), 0)), Some("127.0.0.1:1".to_string()));
    assert_eq!(c.is_local((DomainIndex(0), 0)), Some(true));
    assert_eq!(c.is_local((DomainIndex(0), 1)), Some(false));
    assert_eq!(c.is_local((DomainIndex(1), 0)), None);
    // what is known of a shard can be replaced
    c.insert_addr((DomainIndex(0), 1), "10.0.0.3:1".to_string(), false);
    let dest = c.get_dest((DomainIndex(0), 1)).unwrap();
    assert_eq!(dest.addr, "10.0.0.3:1");
    assert!(!dest.local);
}

#[test]
fn sender_holds_on_to_its_transport() {
    let mut c = ChannelCoordinator::new();
    let key = (DomainIndex(3), 0);
    let mut s = Sender::new(key, 2);
    assert!(s.resolve(&c).is_none());
    c.insert_addr(key, "a:1".to_string(), false);
    assert_eq!(s.resolve(&c).unwrap().addr, "a:1");
    // the shard moves; the sender keeps what it holds until a send fails
    c.insert_addr(key, "b:2".to_string(), false);
    assert_eq!(s.resolve(&c).unwrap().addr, "a:1");
    assert_eq!(s.sent(true), SendOutcome::Sent);
    assert_eq!(s.sent(false), SendOutcome::Retry);
    assert_eq!(s.resolve(&c).unwrap().addr, "b:2");
}

#[test]
fn sender_is_poisoned_when_its_budget_is_spent() {
    let mut c = ChannelCoordinator::new();
    let key = (DomainIndex(3), 0);
    c.insert_addr(key, "a:1".to_string(), false);
    let mut s = Sender::new(key, 2);
    assert_eq!(s.sent(false), SendOutcome::Retry);
    assert_eq!(s.sent(false), SendOutcome::Retry);
    // a send that goes through forgets the failures
    assert_eq!(s.sent(true), SendOutcome::Sent);
    assert_eq!(s.sent(false), SendOutcome::Retry);
    assert_eq!(s.sent(false), SendOutcome::Retry);
    assert_eq!(s.sent(false), SendOutcome::Poisoned);
    assert!(s.is_poisoned());
    assert!(s.resolve(&c).is_none());
    assert_eq!(s.sent(true), SendOutcome::Poisoned);
    let mut none = Sender::new(key, 0);
    assert_eq!(none.sent(false), SendOutcome::Poisoned);
}
