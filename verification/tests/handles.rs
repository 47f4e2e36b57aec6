use dataflow::addressing::{DomainIndex, LocalNodeIndex, NodeIndex, Sharding, Tag};
use dataflow::data::{DataType, Record};
use dataflow::domain_handle::{DomainHandle, RouteError, WaitError, SHARDS};
use dataflow::ops::base::TableOperation;
use dataflow::payload::{ControlReplyPacket, Packet, TriggerEndpoint};

fn local(i: u32) -> LocalNodeIndex {
    LocalNodeIndex::make(i)
}

#[test]
fn a_sharded_domain_has_its_shards() {
    let single = DomainHandle::new(DomainIndex(1), Sharding::Unsharded);
    assert_eq!(single.shards(), 1);
    let sharded = DomainHandle::new(DomainIndex(1), Sharding::ByColumn { column: 0, shards: 2 });
    assert_eq!(sharded.shards(), SHARDS);
    assert_eq!(Sharding::Unsharded.shards(), 1);
    assert_eq!(Sharding::ByColumn { column: 0, shards: 4 }.shards(), 4);
    assert!(Sharding::Unsharded.is_none());
    assert!(!Sharding::ByColumn { column: 0, shards: 4 }.is_none());
    assert_eq!(Tag(3).id(), 3);
}

#[test]
fn a_packet_goes_to_every_shard() {
    let h = DomainHandle::new(DomainIndex(1), Sharding::ByColumn { column: 0, shards: 2 });
    let p = Packet::Message { from: local(0), to: local(1), data: vec![Record::Positive(vec![1.into()])] };
    let out = h.send(p).unwrap();
    assert_eq!(out.len(), 2);
    for (i, (shard, packet)) in out.iter().enumerate() {
        assert_eq!(*shard, i);
        match packet {
            Packet::Message { from, to, data } => {
                assert_eq!((*from, *to), (local(0), local(1)));
                assert_eq!(data, &vec![Record::Positive(vec![DataType::Int(1)])]);
            }
            other => panic!("the message: {:?}", other),
        }
    }
    // a change of the columns of a base does not go to a sharded domain
    assert!(matches!(
        h.send(Packet::DropBaseColumn { node: local(0), column: 1 }),
        Err(Packet::DropBaseColumn { column: 1, .. })
    ));
    let single = DomainHandle::new(DomainIndex(1), Sharding::Unsharded);
    assert_eq!(single.send(Packet::DropBaseColumn { node: local(0), column: 1 }).unwrap().len(), 1);
    assert!(matches!(h.send_to_shard(1, Packet::Quit), Some((1, Packet::Quit))));
    assert!(h.send_to_shard(2, Packet::Quit).is_none());
}

#[test]
fn packets_are_copied_whole() {
    let packets = vec![
        Packet::Input { base: local(0), ops: vec![TableOperation::Insert(vec![1.into()]), TableOperation::Delete { key: vec![2.into()] }] },
        Packet::ReplayPiece { tag: Tag(1), from: local(0), to: local(1), key: Some(vec![1.into()]), data: vec![] },
        Packet::RequestPartialReplay { tag: Tag(1), key: vec!["k".into()] },
        Packet::SetupReplayPath { tag: Tag(1), source: Some(local(0)), path: vec![local(0), local(1)], trigger: TriggerEndpoint::Local },
        Packet::AddNode { node: local(3), parents: vec![local(1)] },
        Packet::UpdateEgress { node: local(0), new_tx: None, new_tag: Some((Tag(1), NodeIndex::new(2))) },
        Packet::UpdateSharder { node: local(0), new_txs: vec![] },
        Packet::PrepareState { node: local(0), key: vec![0, 1], partial: true },
        Packet::StateSizeProbe { node: local(0) },
        Packet::Ready { node: local(0), index: vec![0] },
        Packet::Evict { tag: Tag(1), keys: vec![vec![1.into()]] },
        Packet::GetStatistics,
        Packet::Quit,
    ];
    for p in packets {
        assert_eq!(format!("{:?}", p.clone_data()), format!("{:?}", p));
        assert!(p.is_shareable());
    }
    let column = Packet::AddBaseColumn { node: local(0), field: "f".to_string(), default: 1.into() };
    assert_eq!(format!("{:?}", column.clone_data()), format!("{:?}", column));
    assert!(!column.is_shareable());
    assert!(!Packet::DropBaseColumn { node: local(0), column: 0 }.is_shareable());
}

#[test]
fn answers_of_the_shards_are_added_up() {
    let h = DomainHandle::new(DomainIndex(1), Sharding::ByColumn { column: 0, shards: 2 });
    let ack = ControlReplyPacket::Ack;
    assert_eq!(h.wait_for_ack(&vec![ack, ack]), Ok(()));
    assert_eq!(h.wait_for_ack(&vec![ack]), Err(WaitError::Missing));
    assert_eq!(
        h.wait_for_ack(&vec![ack, ControlReplyPacket::StateSize(1)]),
        Err(WaitError::WrongReply(ControlReplyPacket::StateSize(1)))
    );
    assert_eq!(
        h.wait_for_state_size(&vec![ControlReplyPacket::StateSize(3), ControlReplyPacket::StateSize(4)]),
        Ok(7)
    );
    assert_eq!(
        h.wait_for_state_size(&vec![ControlReplyPacket::StateSize(usize::MAX), ControlReplyPacket::StateSize(1)]),
        Err(WaitError::Overflow)
    );
    assert_eq!(h.wait_for_state_size(&vec![ack, ack]), Err(WaitError::WrongReply(ack)));
    let stats = |t: u64| ControlReplyPacket::Statistics { total_time: t, wait_time: t / 2 };
    assert_eq!(h.wait_for_statistics(&vec![stats(10), stats(20)]), Ok(vec![(10, 5), (20, 10)]));
    assert_eq!(h.wait_for_statistics(&vec![stats(10), ack]), Err(WaitError::WrongReply(ack)));
}

#[test]
fn writes_to_a_sharded_base_go_to_the_shard_of_their_key() {
    let row = |k: i32| Record::Positive(vec!["x".into(), k.into()]);
    let single = DomainHandle::new(DomainIndex(1), Sharding::Unsharded).get_input_handle();
    assert_eq!(single.base_send(&vec![], &vec![]), Ok(0));
    let sharded = DomainHandle::new(DomainIndex(1), Sharding::ByColumn { column: 1, shards: 2 }).get_input_handle();
    assert_eq!(sharded.base_send(&vec![row(5), row(5)], &vec![1]), Ok(1));
    assert_eq!(sharded.base_send(&vec![row(4)], &vec![1]), Ok(0));
    assert_eq!(sharded.base_send(&vec![row(4), row(5)], &vec![1]), Err(RouteError::MixedBatch));
    assert_eq!(sharded.base_send(&vec![row(4)], &vec![1, 0]), Err(RouteError::ComplexKey));
}

#[test]
fn shards_are_placed_on_the_workers_in_turn() {
    assert_eq!(dataflow::domain_handle::place(3, 1, 5), Some(vec![1, 2, 0, 1, 2]));
    assert_eq!(dataflow::domain_handle::place(1, 0, 2), Some(vec![0, 0]));
    assert_eq!(dataflow::domain_handle::place(4, 3, 0), Some(vec![]));
    assert_eq!(dataflow::domain_handle::place(0, 0, 2), None);
}

#[test]
fn a_domain_is_up_when_every_shard_has_reported() {
    let mut coordinator = dataflow::channel::ChannelCoordinator::new();
    let workers = dataflow::domain_handle::place(2, 1, 2).unwrap();
    let mut boot = dataflow::domain_handle::Boot::start(DomainIndex(4), workers);
    assert!(!boot.is_complete());
    assert_eq!(
        boot.on_booted(&mut coordinator, 2, "10.0.0.9:1".to_string()),
        Err(dataflow::domain_handle::BootError::UnknownShard)
    );
    assert_eq!(coordinator.get_addr((DomainIndex(4), 2)), None);
    assert_eq!(boot.on_booted(&mut coordinator, 1, "10.0.0.2:7".to_string()), Ok(false));
    // a second report of the shard takes the place of the first
    assert_eq!(boot.on_booted(&mut coordinator, 1, "10.0.0.2:8".to_string()), Ok(false));
    let boot = match boot.finish() {
        Err(boot) => boot,
        Ok(_) => panic!("a shard has yet to report"),
    };
    let mut boot = boot;
    assert_eq!(boot.on_booted(&mut coordinator, 0, "10.0.0.1:7".to_string()), Ok(true));
    assert_eq!(coordinator.get_addr((DomainIndex(4), 1)), Some("10.0.0.2:8".to_string()));
    assert_eq!(coordinator.is_local((DomainIndex(4), 0)), Some(false));
    let handle = boot.finish().unwrap();
    assert_eq!(handle.shards(), 2);
    assert_eq!(handle.assignment(0), 1);
    assert_eq!(handle.assignment(1), 0);
}
