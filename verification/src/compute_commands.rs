//! The commands that can be recorded into a compute pass.
pub use crate::pass::{
    wgpu_compute_pass_begin_pipeline_statistics_query, wgpu_compute_pass_dispatch_workgroups,
    wgpu_compute_pass_dispatch_workgroups_indirect,
    wgpu_compute_pass_end_pipeline_statistics_query, wgpu_compute_pass_insert_debug_marker,
    wgpu_compute_pass_pop_debug_group, wgpu_compute_pass_push_debug_group,
    wgpu_compute_pass_set_bind_group, wgpu_compute_pass_set_pipeline,
    wgpu_compute_pass_set_push_constant, wgpu_compute_pass_write_timestamp,
};
