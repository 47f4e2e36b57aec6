//! The packets that a domain takes in and sends out.

use crate::addressing::{DomainIndex, LocalNodeIndex, NodeIndex, Tag};
use crate::data::{clone_records, clone_row, DataType, Delta, Record, Row, Value};
use crate::ops::base::{TableOperation, Write};
use crate::ops::routing::EgressTx;
use vstd::prelude::*;

verus! {

/// Which domain sets off the replays of a path.
#[derive(Clone, Copy, Debug, PartialEq, Eq, Structural)]
pub enum TriggerEndpoint {
    /// The path neither starts nor ends in this domain.
    NoTrigger,
    /// The path starts in this domain, which takes the requests for its replays.
    Start,
    /// The path ends in this domain, which sends its requests to the shards of `domain`.
    End { domain: DomainIndex, shards: usize },
    /// The path starts and ends in this domain.
    Local,
}

/// What a packet stands for.
#[allow(inconsistent_fields)]
pub enum PacketView {
    /// A regular update from the node `from` to the node `to`.
    Message { from: LocalNodeIndex, to: LocalNodeIndex, data: Delta },
    /// Writes of the outside world to the base `base`.
    Input { base: LocalNodeIndex, ops: Seq<Write> },
    /// A piece of the replay along `tag`, for the key `key` or, without a key, of
    /// everything.
    ReplayPiece { tag: Tag, from: LocalNodeIndex, to: LocalNodeIndex, key: Option<Row>, data: Delta },
    /// The request to replay `key` along `tag`.
    RequestPartialReplay { tag: Tag, key: Row },
    /// The replay path `tag` through this domain.
    SetupReplayPath {
        tag: Tag,
        source: Option<LocalNodeIndex>,
        path: Seq<LocalNodeIndex>,
        trigger: TriggerEndpoint,
    },
    /// A node that joins the domain below the nodes `parents`.
    AddNode { node: LocalNodeIndex, parents: Seq<LocalNodeIndex> },
    /// A new column of a base.
    AddBaseColumn { node: LocalNodeIndex, field: Seq<char>, default: Value },
    /// A column of a base that is dropped.
    DropBaseColumn { node: LocalNodeIndex, column: usize },
    /// A new destination, or a new replay path, of an egress.
    UpdateEgress {
        node: LocalNodeIndex,
        new_tx: Option<EgressTx>,
        new_tag: Option<(Tag, NodeIndex)>,
    },
    /// The destinations of a sharder.
    UpdateSharder { node: LocalNodeIndex, new_txs: Seq<EgressTx> },
    /// The state that a node is to keep: its key columns, and whether it is partial.
    PrepareState { node: LocalNodeIndex, key: Seq<usize>, partial: bool },
    /// The question how much state a node holds.
    StateSizeProbe { node: LocalNodeIndex },
    /// The node is primed and may take packets.
    Ready { node: LocalNodeIndex, index: Seq<usize> },
    /// Keys that were evicted along `tag`.
    Evict { tag: Tag, keys: Seq<Row> },
    /// The question for the domain's statistics.
    GetStatistics,
    /// The order to stop.
    Quit,
}

/// A packet.
#[derive(Debug)]
#[allow(inconsistent_fields)]
pub enum Packet {
    /// A regular update from the node `from` to the node `to`.
    Message { from: LocalNodeIndex, to: LocalNodeIndex, data: Vec<Record> },
    /// Writes of the outside world to the base `base`.
    Input { base: LocalNodeIndex, ops: Vec<TableOperation> },
    /// A piece of the replay along `tag`, for the key `key` or, without a key, of
    /// everything.
    ReplayPiece {
        tag: Tag,
        from: LocalNodeIndex,
        to: LocalNodeIndex,
        key: Option<Vec<DataType>>,
        data: Vec<Record>,
    },
    /// The request to replay `key` along `tag`.
    RequestPartialReplay { tag: Tag, key: Vec<DataType> },
    /// The replay path `tag` through this domain.
    SetupReplayPath {
        tag: Tag,
        source: Option<LocalNodeIndex>,
        path: Vec<LocalNodeIndex>,
        trigger: TriggerEndpoint,
    },
    /// A node that joins the domain below the nodes `parents`.
    AddNode { node: LocalNodeIndex, parents: Vec<LocalNodeIndex> },
    /// A new column of a base.
    AddBaseColumn { node: LocalNodeIndex, field: String, default: DataType },
    /// A column of a base that is dropped.
    DropBaseColumn { node: LocalNodeIndex, column: usize },
    /// A new destination, or a new replay path, of an egress.
    UpdateEgress {
        node: LocalNodeIndex,
        new_tx: Option<EgressTx>,
        new_tag: Option<(Tag, NodeIndex)>,
    },
    /// The destinations of a sharder.
    UpdateSharder { node: LocalNodeIndex, new_txs: Vec<EgressTx> },
    /// The state that a node is to keep: its key columns, and whether it is partial.
    PrepareState { node: LocalNodeIndex, key: Vec<usize>, partial: bool },
    /// The question how much state a node holds.
    StateSizeProbe { node: LocalNodeIndex },
    /// The node is primed and may take packets.
    Ready { node: LocalNodeIndex, index: Vec<usize> },
    /// Keys that were evicted along `tag`.
    Evict { tag: Tag, keys: Vec<Vec<DataType>> },
    /// The question for the domain's statistics.
    GetStatistics,
    /// The order to stop.
    Quit,
}

impl View for Packet {
    type V = PacketView;

    open spec fn view(&self) -> PacketView {
        match *self {
            Packet::Message { from, to, data } => PacketView::Message {
                from,
                to,
                data: data.deep_view(),
            },
            Packet::Input { base, ops } => PacketView::Input { base, ops: ops.deep_view() },
            Packet::ReplayPiece { tag, from, to, key, data } => PacketView::ReplayPiece {
                tag,
                from,
                to,
                key: match key {
                    Some(k) => Some(k.deep_view()),
                    None => None,
                },
                data: data.deep_view(),
            },
            Packet::RequestPartialReplay { tag, key } => PacketView::RequestPartialReplay {
                tag,
                key: key.deep_view(),
            },
            Packet::SetupReplayPath { tag, source, path, trigger } => PacketView::SetupReplayPath {
                tag,
                source,
                path: path@,
                trigger,
            },
            Packet::AddNode { node, parents } => PacketView::AddNode { node, parents: parents@ },
            Packet::AddBaseColumn { node, field, default } => PacketView::AddBaseColumn {
                node,
                field: field@,
                default: default@,
            },
            Packet::DropBaseColumn { node, column } => PacketView::DropBaseColumn { node, column },
            Packet::UpdateEgress { node, new_tx, new_tag } => PacketView::UpdateEgress {
                node,
                new_tx,
                new_tag,
            },
            Packet::UpdateSharder { node, new_txs } => PacketView::UpdateSharder {
                node,
                new_txs: new_txs@,
            },
            Packet::PrepareState { node, key, partial } => PacketView::PrepareState {
                node,
                key: key@,
                partial,
            },
            Packet::StateSizeProbe { node } => PacketView::StateSizeProbe { node },
            Packet::Ready { node, index } => PacketView::Ready { node, index: index@ },
            Packet::Evict { tag, keys } => PacketView::Evict { tag, keys: keys.deep_view() },
            Packet::GetStatistics => PacketView::GetStatistics,
            Packet::Quit => PacketView::Quit,
        }
    }
}

fn clone_ops(ops: &Vec<TableOperation>) -> (r: Vec<TableOperation>)
    ensures
        r.deep_view() == ops.deep_view(),
{
    let mut r: Vec<TableOperation> = Vec::with_capacity(ops.len());
    let mut i: usize = 0;
    while i < ops.len()
        invariant
            i <= ops@.len(),
            r@.len() == i,
            forall|j: int| 0 <= j < i ==> r@[j]@ == ops@[j]@,
        decreases ops@.len() - i,
    {
        let op = match &ops[i] {
            TableOperation::Insert(row) => TableOperation::Insert(clone_row(row)),
            TableOperation::Delete { key } => TableOperation::Delete { key: clone_row(key) },
            TableOperation::Update { key, row } => TableOperation::Update {
                key: clone_row(key),
                row: clone_row(row),
            },
        };
        r.push(op);
        i += 1;
    }
    assert(r.deep_view() =~= ops.deep_view());
    r
}

impl Packet {
    /// Whether the packet may go to every shard of a sharded domain: a change of the
    /// columns of a base may not, for a base whose columns change is not sharded.
    pub open spec fn shareable(self) -> bool {
        !(self is AddBaseColumn || self is DropBaseColumn)
    }

    /// Whether the packet may go to every shard of a sharded domain.
    pub fn is_shareable(&self) -> (b: bool)
        ensures
            b == self.shareable(),
    {
        match self {
            Packet::AddBaseColumn { .. } => false,
            Packet::DropBaseColumn { .. } => false,
            _ => true,
        }
    }

    /// A copy of the packet that shares nothing with it.
    pub fn clone_data(&self) -> (p: Packet)
        ensures
            p@ == self@,
    {
        match self {
            Packet::Message { from, to, data } => Packet::Message {
                from: *from,
                to: *to,
                data: clone_records(data),
            },
            Packet::Input { base, ops } => Packet::Input { base: *base, ops: clone_ops(ops) },
            Packet::ReplayPiece { tag, from, to, key, data } => Packet::ReplayPiece {
                tag: *tag,
                from: *from,
                to: *to,
                key: match key {
                    Some(k) => Some(clone_row(k)),
                    None => None,
                },
                data: clone_records(data),
            },
            Packet::RequestPartialReplay { tag, key } => Packet::RequestPartialReplay {
                tag: *tag,
                key: clone_row(key),
            },
            Packet::SetupReplayPath { tag, source, path, trigger } => {
                let p = path.clone();
                assert(p@ =~= path@);
                Packet::SetupReplayPath { tag: *tag, source: *source, path: p, trigger: *trigger }
            },
            Packet::AddNode { node, parents } => {
                let p = parents.clone();
                assert(p@ =~= parents@);
                Packet::AddNode { node: *node, parents: p }
            },
            Packet::AddBaseColumn { node, field, default } => Packet::AddBaseColumn {
                node: *node,
                field: field.clone(),
                default: default.deep_clone(),
            },
            Packet::DropBaseColumn { node, column } => Packet::DropBaseColumn {
                node: *node,
                column: *column,
            },
            Packet::UpdateEgress { node, new_tx, new_tag } => Packet::UpdateEgress {
                node: *node,
                new_tx: *new_tx,
                new_tag: *new_tag,
            },
            Packet::UpdateSharder { node, new_txs } => {
                let t = new_txs.clone();
                assert(t@ =~= new_txs@);
                Packet::UpdateSharder { node: *node, new_txs: t }
            },
            Packet::PrepareState { node, key, partial } => {
                let k = key.clone();
                assert(k@ =~= key@);
                Packet::PrepareState { node: *node, key: k, partial: *partial }
            },
            Packet::StateSizeProbe { node } => Packet::StateSizeProbe { node: *node },
            Packet::Ready { node, index } => {
                let i = index.clone();
                assert(i@ =~= index@);
                Packet::Ready { node: *node, index: i }
            },
            Packet::Evict { tag, keys } => Packet::Evict {
                tag: *tag,
                keys: crate::data::clone_rows(keys),
            },
            Packet::GetStatistics => Packet::GetStatistics,
            Packet::Quit => Packet::Quit,
        }
    }
}

/// What a domain answers to a packet of the controller.
#[derive(Clone, Copy, Debug, PartialEq, Eq, Structural)]
pub enum ControlReplyPacket {
    /// The packet is dealt with.
    Ack,
    /// How many rows the state of the node holds.
    StateSize(usize),
    /// The time, in nanoseconds, that the domain has worked and waited.
    Statistics { total_time: u64, wait_time: u64 },
    /// The shard of the domain runs.
    Booted { shard: usize },
}

} // verus!
