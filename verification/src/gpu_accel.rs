//! The virtual GPU back end and its compute shader.

use vstd::prelude::*;

verus! {

/// The WGSL compute shader that applies a Hadamard-style rotation to each
/// amplitude of the state vector in parallel.
pub const HADAMARD_WGSL_SHADER: &'static str = r#"
        @group(0) @binding(0) var<storage, read_write> state_real: array<f32>;
        @group(0) @binding(1) var<storage, read_write> state_imag: array<f32>;

        @compute @workgroup_size(64)
        fn main(@builtin(global_invocation_id) global_id: vec3<u32>) {
            let idx = global_id.x;
            let inv_sqrt2: f32 = 0.70710678;

            let r = state_real[idx];
            let i = state_imag[idx];

            // Paralelna rotacija stanja
            state_real[idx] = (r + i) * inv_sqrt2;
            state_imag[idx] = (r - i) * inv_sqrt2;
        }
        "#;

/// The name of the virtual device.
pub const VIRTUAL_DEVICE_NAME: &'static str = "Virtual WGSL Compute Device (DirectX/Vulkan Backend)";

/// A compute device and its limits.
pub struct GPUComputeEngine {
    pub device_name: String,
    pub max_workgroups: usize,
    pub is_available: bool,
}

impl GPUComputeEngine {
    /// The virtual device: 65535 workgroups, available.
    pub fn init_virtual_gpu() -> (e: Self)
        ensures
            e.device_name@ == VIRTUAL_DEVICE_NAME@,
            e.max_workgroups == 65535,
            e.is_available,
    {
        GPUComputeEngine {
            device_name: String::from_str(VIRTUAL_DEVICE_NAME),
            max_workgroups: 65535,
            is_available: true,
        }
    }

    /// The WGSL source of the parallel Hadamard shader.
    pub fn get_hadamard_wgsl_shader() -> (s: &'static str)
        ensures
            s@ == HADAMARD_WGSL_SHADER@,
    {
        HADAMARD_WGSL_SHADER
    }
}

} // verus!
