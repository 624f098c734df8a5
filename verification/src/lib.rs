//! Dromon: the verified core of a voxel-terrain engine and of its terminal monitor.
pub mod device_memory;
pub mod device_select;
pub mod frame_loop;
pub mod gpu_allocator;
pub mod text;
pub mod log_parser;
pub mod tabs;
pub mod app_state;
pub mod inputs;
pub mod terrain;
pub mod world_stats;
