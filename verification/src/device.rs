//! What the engine asks of a GPU.
use vstd::prelude::*;

verus! {

/// What the engine reports of an adapter.
#[derive(Clone, Debug)]
pub struct GpuInfo {
    pub name: String,
    pub backend: String,
    pub device_type: String,
    pub max_buffer_size: u64,
    pub max_storage_buffer_binding_size: u64,
}

/// The limits that matter here.
#[derive(Clone, Copy, Debug, PartialEq, Eq, Structural)]
pub struct ComputeLimits {
    pub max_storage_buffer_binding_size: u64,
    pub max_buffer_size: u64,
    pub max_compute_workgroup_storage_size: u32,
    pub max_compute_invocations_per_workgroup: u32,
    pub max_compute_workgroups_per_dimension: u32,
    pub max_uniform_buffer_binding_size: u64,
}

/// The smaller of two sizes.
pub open spec fn smaller(a: u64, b: u64) -> u64 {
    if a <= b {
        a
    } else {
        b
    }
}

impl ComputeLimits {
    /// What to ask of an adapter with these limits: buffers as large as one
    /// can be bound whole, and everything else it has.
    pub fn wanted(&self) -> (r: ComputeLimits)
        ensures
            r.max_storage_buffer_binding_size == smaller(self.max_storage_buffer_binding_size, self.max_buffer_size),
            r.max_buffer_size == r.max_storage_buffer_binding_size,
            r.max_compute_workgroup_storage_size == self.max_compute_workgroup_storage_size,
            r.max_compute_invocations_per_workgroup == self.max_compute_invocations_per_workgroup,
            r.max_compute_workgroups_per_dimension == self.max_compute_workgroups_per_dimension,
            r.max_uniform_buffer_binding_size == self.max_uniform_buffer_binding_size,
            r.max_storage_buffer_binding_size <= self.max_storage_buffer_binding_size,
            r.max_buffer_size <= self.max_buffer_size,
    {
        let bytes: u64 = if self.max_storage_buffer_binding_size <= self.max_buffer_size {
            self.max_storage_buffer_binding_size
        } else {
            self.max_buffer_size
        };
        ComputeLimits { max_storage_buffer_binding_size: bytes, max_buffer_size: bytes, ..*self }
    }
}

impl GpuInfo {
    /// The report of an adapter with these limits.
    pub fn report(name: String, backend: String, device_type: String, limits: &ComputeLimits) -> (r: GpuInfo)
        ensures
            r.name@ == name@,
            r.backend@ == backend@,
            r.device_type@ == device_type@,
            r.max_buffer_size == smaller(limits.max_storage_buffer_binding_size, limits.max_buffer_size),
            r.max_storage_buffer_binding_size == r.max_buffer_size,
    {
        let w = limits.wanted();
        GpuInfo {
            name,
            backend,
            device_type,
            max_buffer_size: w.max_buffer_size,
            max_storage_buffer_binding_size: w.max_storage_buffer_binding_size,
        }
    }
}

} // verus!
