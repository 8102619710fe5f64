use bigsets::config::{
    local_addr, local_replicas, local_replication_config, local_server_config,
    local_storage_config, ReplicaInfo, ServerConfig, LOCAL_API_PORT, LOCAL_REPLICATION_PORT,
};
use bigsets::sql_utils::{placeholders_1, placeholders_2};
use bigsets::types::ActorId;

#[test]
fn configs_name_their_actor() {
    let server = ServerConfig {
        node_id: 7,
        epoch: 2,
        api_addr: "a".to_string(),
        replication_addr: "r".to_string(),
        db_path: "p".to_string(),
    };
    assert_eq!(server.actor_id(), ActorId::new(7, 2));
    let replica = ReplicaInfo { node_id: 9, epoch: 0, addr: "x".to_string() };
    assert_eq!(replica.actor_id(), ActorId::from_node_id(9));
}

#[test]
fn local_clusters_count_their_ports_from_the_first() {
    assert_eq!(local_addr(7379, 1), "127.0.0.1:7379");
    assert_eq!(local_addr(6379, 3), "127.0.0.1:6381");
    assert_eq!(local_addr(65534, 1), "127.0.0.1:65534");
    let replicas = local_replicas(3);
    assert_eq!(
        replicas,
        vec![
            ReplicaInfo { node_id: 1, epoch: 0, addr: "127.0.0.1:7379".to_string() },
            ReplicaInfo { node_id: 2, epoch: 0, addr: "127.0.0.1:7380".to_string() },
            ReplicaInfo { node_id: 3, epoch: 0, addr: "127.0.0.1:7381".to_string() },
        ]
    );
    assert!(local_replicas(0).is_empty());
    let server = local_server_config(2, "data/2/node.db".to_string());
    assert_eq!(server.api_addr, "127.0.0.1:6380");
    assert_eq!(server.replication_addr, "127.0.0.1:7380");
    assert_eq!((server.node_id, server.epoch), (2, 0));
    assert_eq!(server.db_path, "data/2/node.db");
    assert_eq!((LOCAL_API_PORT, LOCAL_REPLICATION_PORT), (6379, 7379));
    let replication = local_replication_config();
    assert_eq!((replication.max_retries, replication.buffer_size), (5, 1000));
    assert_eq!(local_storage_config().sqlite_busy_timeout, 5000);
}

#[test]
fn placeholders_are_listed_with_commas() {
    assert_eq!(placeholders_1(0), "(?)");
    assert_eq!(placeholders_1(1), "(?)");
    assert_eq!(placeholders_1(3), "(?), (?), (?)");
    assert_eq!(placeholders_2(0), "(?,?)");
    assert_eq!(placeholders_2(2), "(?,?), (?,?)");
}
