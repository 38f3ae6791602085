//! Loam: the storage mechanics of a small object, namespace and block store.
pub mod admin_frames;
pub mod admin_router_body;
pub mod admin_router_flow;
pub mod admin_router_laws;
pub mod admin_router_requests;
pub mod admin_router_state;
pub mod admin_router_turn;
pub mod block_log_body;
pub mod block_pic_body;
pub mod block_pic_state;
pub mod body_e2e_probe;
pub mod body_names;
pub mod body_publish;
pub mod body_slots;
pub mod body_store_body;
pub mod body_store_laws;
pub mod body_store_requests;
pub mod bytes;
pub mod cauchy;
pub mod clustor_bridge;
pub mod crc32;
pub mod gf256;
pub mod gf_matrix;
pub mod loam_admin_wire;
pub mod loam_block_wire;
pub mod loam_body_wire;
pub mod loam_change_wire;
pub mod loam_ec;
pub mod loam_ec_wire;
pub mod loam_extent_wire;
pub mod loam_hash;
pub mod loam_limits;
pub mod loam_load_gen;
pub mod loam_log_wire;
pub mod loam_manifest_wire;
pub mod loam_net_wire;
pub mod loam_object_wire;
pub mod loam_snapshot;
pub mod loam_throughput_counter;
pub mod loam_wire;
pub mod metadata_e2e_probe;
pub mod namespace_apply;
pub mod namespace_changes;
pub mod namespace_compact;
pub mod namespace_laws;
pub mod namespace_list;
pub mod namespace_merge_laws;
pub mod namespace_pic_body;
pub mod namespace_pic_state;
pub mod namespace_provider;
pub mod namespace_reads;
pub mod namespace_watch;
pub mod object_pic_body;
pub mod path_list;
pub mod raft_metadata_client;
pub mod sha256;
pub mod text;
pub mod wal_params;
