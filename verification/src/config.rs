//! The configuration of a node.

use crate::text::{bytes_before, decimal, lemma_before_total, lemma_before_transitive, push_decimal, text_before};
use crate::types::ActorId;
use vstd::prelude::*;
use vstd::string::*;
use vstd::utf8::{encode_utf8, encode_utf8_decode_utf8};

verus! {

#[derive(Debug, Clone)]
pub struct Config {
    pub server: ServerConfig,
    pub cluster: ClusterConfig,
    pub replication: ReplicationConfig,
    pub storage: StorageConfig,
}

#[derive(Debug, Clone)]
pub struct ServerConfig {
    pub node_id: u16,
    pub epoch: u8,
    pub api_addr: String,
    pub replication_addr: String,
    /// Where the node keeps its rows.
    pub db_path: String,
}

#[derive(Debug, Clone)]
pub struct ClusterConfig {
    pub replicas: Vec<ReplicaInfo>,
}

#[derive(Debug, Clone, PartialEq, PartialOrd, Eq, Ord)]
pub struct ReplicaInfo {
    pub node_id: u16,
    pub epoch: u8,
    pub addr: String,
}

#[derive(Debug, Clone)]
pub struct ReplicationConfig {
    pub max_retries: u32,
    pub retry_backoff_ms: u64,
    pub buffer_size: usize,
    pub ack_timeout_ms: u64,
    pub rbilt_startup_delay_ms: u64,
}

#[derive(Debug, Clone)]
pub struct StorageConfig {
    pub sqlite_cache_size: i32,
    pub sqlite_busy_timeout: i32,
}

impl ServerConfig {
    /// The actor of this server.
    pub fn actor_id(&self) -> (r: ActorId)
        ensures
            r == (ActorId { version: 0, node_id: self.node_id, epoch: self.epoch }),
    {
        ActorId::new(self.node_id, self.epoch)
    }
}

impl ReplicaInfo {
    /// Whether this replica comes before `other` in the order of the
    /// replicas.
    pub fn before(&self, other: &ReplicaInfo) -> (r: bool)
        ensures
            r == self@.before(other@),
    {
        if self.node_id != other.node_id {
            self.node_id < other.node_id
        } else if self.epoch != other.epoch {
            self.epoch < other.epoch
        } else {
            text_before(self.addr.as_str(), other.addr.as_str())
        }
    }

    /// Whether this replica and `other` are the same.
    pub fn same(&self, other: &ReplicaInfo) -> (r: bool)
        ensures
            r == (self@ == other@),
    {
        self.node_id == other.node_id && self.epoch == other.epoch && self.addr == other.addr
    }

    /// The actor of this replica.
    pub fn actor_id(&self) -> (r: ActorId)
        ensures
            r == (ActorId { version: 0, node_id: self.node_id, epoch: self.epoch }),
    {
        ActorId::new(self.node_id, self.epoch)
    }
}

/// The address of a port of this machine.
pub open spec fn local_addr_text(port: nat) -> Seq<char> {
    "127.0.0.1:"@ + decimal(port)
}

/// The port of node `node_id` of a local cluster whose first node has the
/// port `base`.
pub open spec fn node_port(base: u16, node_id: u16) -> int {
    base + node_id - 1
}

/// The address of a port of node `node_id` of a local cluster.
pub fn local_addr(base: u16, node_id: u16) -> (r: String)
    requires
        node_id >= 1,
        base + node_id <= u16::MAX,
    ensures
        r@ == local_addr_text(node_port(base, node_id) as nat),
{
    let port: u16 = base + node_id - 1;
    let mut out = "127.0.0.1:".to_owned();
    push_decimal(&mut out, port as u64);
    out
}

/// The first port for commands in a local cluster.
pub const LOCAL_API_PORT: u16 = 6379;

/// The first port for replication in a local cluster.
pub const LOCAL_REPLICATION_PORT: u16 = 7379;

/// The replicas of a local cluster of `num_nodes` nodes, numbered from one.
pub open spec fn local_replica(node_id: u16) -> ReplicaInfoView {
    ReplicaInfoView {
        node_id,
        epoch: 0,
        addr: local_addr_text(node_port(LOCAL_REPLICATION_PORT, node_id) as nat),
    }
}

/// A replica as plain values.
pub struct ReplicaInfoView {
    pub node_id: u16,
    pub epoch: u8,
    pub addr: Seq<char>,
}

impl ReplicaInfoView {
    /// The order of the replicas: by node, then by epoch, then by the bytes
    /// of the address.
    pub open spec fn before(self, other: ReplicaInfoView) -> bool {
        self.node_id < other.node_id || (self.node_id == other.node_id && (self.epoch < other.epoch
            || (self.epoch == other.epoch && bytes_before(
            encode_utf8(self.addr),
            encode_utf8(other.addr),
        ))))
    }
}

/// The order of the replicas is a strict total order.
pub proof fn lemma_replica_order(a: ReplicaInfoView, b: ReplicaInfoView, c: ReplicaInfoView)
    ensures
        !a.before(a),
        a.before(b) || b.before(a) || a == b,
        !(a.before(b) && b.before(a)),
        a.before(b) && b.before(c) ==> a.before(c),
{
    let x = encode_utf8(a.addr);
    let y = encode_utf8(b.addr);
    let z = encode_utf8(c.addr);
    assert(x.subrange(0, 0) =~= y.subrange(0, 0));
    lemma_before_total(x, x, 0);
    lemma_before_total(x, y, 0);
    if x == y {
        encode_utf8_decode_utf8(a.addr);
        encode_utf8_decode_utf8(b.addr);
    }
    if bytes_before(x, y) && bytes_before(y, z) {
        lemma_before_transitive(x, y, z, 0);
    }
}

impl View for ReplicaInfo {
    type V = ReplicaInfoView;

    open spec fn view(&self) -> ReplicaInfoView {
        ReplicaInfoView { node_id: self.node_id, epoch: self.epoch, addr: self.addr@ }
    }
}

/// The replicas of a local cluster of `num_nodes` nodes.
pub fn local_replicas(num_nodes: u16) -> (r: Vec<ReplicaInfo>)
    requires
        LOCAL_REPLICATION_PORT + num_nodes <= u16::MAX,
    ensures
        r@.len() == num_nodes,
        forall|i: int| 0 <= i < num_nodes ==> (#[trigger] r@[i])@ == local_replica((i + 1) as u16),
{
    let mut out: Vec<ReplicaInfo> = Vec::new();
    let mut i: u16 = 0;
    while i < num_nodes
        invariant
            i <= num_nodes,
            LOCAL_REPLICATION_PORT + num_nodes <= u16::MAX,
            out@.len() == i,
            forall|k: int| 0 <= k < i ==> (#[trigger] out@[k])@ == local_replica((k + 1) as u16),
        decreases num_nodes - i,
    {
        i = i + 1;
        out.push(ReplicaInfo { node_id: i, epoch: 0, addr: local_addr(LOCAL_REPLICATION_PORT, i) });
    }
    out
}

/// The replication settings of a node of a local cluster.
pub fn local_replication_config() -> (r: ReplicationConfig)
    ensures
        r.max_retries == 5,
        r.retry_backoff_ms == 100,
        r.buffer_size == 1000,
        r.ack_timeout_ms == 500,
        r.rbilt_startup_delay_ms == 1000,
{
    ReplicationConfig {
        max_retries: 5,
        retry_backoff_ms: 100,
        buffer_size: 1000,
        ack_timeout_ms: 500,
        rbilt_startup_delay_ms: 1000,
    }
}

/// The storage settings of a node of a local cluster.
pub fn local_storage_config() -> (r: StorageConfig)
    ensures
        r.sqlite_cache_size == 10000,
        r.sqlite_busy_timeout == 5000,
{
    StorageConfig { sqlite_cache_size: 10000, sqlite_busy_timeout: 5000 }
}

/// The server settings of node `node_id` of a local cluster that keeps its
/// rows at `db_path`.
pub fn local_server_config(node_id: u16, db_path: String) -> (r: ServerConfig)
    requires
        node_id >= 1,
        LOCAL_REPLICATION_PORT + node_id <= u16::MAX,
    ensures
        r.node_id == node_id,
        r.epoch == 0,
        r.api_addr@ == local_addr_text(node_port(LOCAL_API_PORT, node_id) as nat),
        r.replication_addr@ == local_addr_text(node_port(LOCAL_REPLICATION_PORT, node_id) as nat),
        r.db_path == db_path,
{
    ServerConfig {
        node_id,
        epoch: 0,
        api_addr: local_addr(LOCAL_API_PORT, node_id),
        replication_addr: local_addr(LOCAL_REPLICATION_PORT, node_id),
        db_path,
    }
}

} // verus!
