use quantum_os::cluster::ClusterOrchestrator;
use quantum_os::gpu_accel::GPUComputeEngine;
use quantum_os::scheduler::{QuantumContextFrame, QuantumScheduler};
use quantum_os::security::QuantumTenantManager;
use quantum_os::vmm::QuantumVMM;
use std::path::PathBuf;

#[test]
fn scheduler_allocates_lowest_free_qubits() {
    let mut s = QuantumScheduler::new(4);
    assert_eq!(s.total_qubits(), 4);
    assert_eq!(s.allocate_qubits(101, 2), Ok(vec![0, 1]));
    assert_eq!(s.allocate_qubits(201, 2), Ok(vec![2, 3]));
    assert_eq!(s.active_processes.len(), 2);
    assert_eq!(s.active_processes[&201].allocated_qubits, vec![2, 3]);
    assert_eq!(s.allocate_qubits(5, 1), Err("Not enough free quantum resources!".to_string()));
    assert!(!s.active_processes.contains_key(&5));
}

#[test]
fn freezing_frees_qubits_and_keeps_state() {
    let mut s = QuantumScheduler::new(4);
    s.allocate_qubits(101, 2).unwrap();
    s.allocate_qubits(201, 1).unwrap();
    let amps = vec![(0usize, 1.0f64.to_bits(), 0u64), (3, 0.5f64.to_bits(), (-0.5f64).to_bits())];
    let frame = s.freeze_process(101, amps.clone()).unwrap();
    assert_eq!(frame.pid, 101);
    assert_eq!(frame.num_qubits, 2);
    assert_eq!(frame.sparse_state, amps);
    assert!(s.is_free(0) && s.is_free(1) && !s.is_free(2) && s.is_free(3));
    assert!(!s.active_processes.contains_key(&101));
    s.restore_process(&frame).unwrap();
    assert_eq!(s.active_processes[&101].allocated_qubits, vec![0, 1]);
}

#[test]
fn freezing_an_allocation_frees_what_it_took() {
    let mut s = QuantumScheduler::new(5);
    s.allocate_qubits(1, 1).unwrap();
    s.allocate_qubits(2, 1).unwrap();
    s.freeze_process(1, vec![]).unwrap();
    let before: Vec<bool> = (0..5).map(|q| s.is_free(q)).collect();
    assert_eq!(s.allocate_qubits(3, 3), Ok(vec![0, 2, 3]));
    s.freeze_process(3, vec![]).unwrap();
    let after: Vec<bool> = (0..5).map(|q| s.is_free(q)).collect();
    assert_eq!(before, after);
}

#[test]
fn restore_right_after_freeze_succeeds_on_a_full_machine() {
    let mut s = QuantumScheduler::new(4);
    s.allocate_qubits(1, 1).unwrap();
    s.allocate_qubits(2, 3).unwrap();
    assert!(s.allocate_qubits(3, 1).is_err());
    let frame = s.freeze_process(2, vec![(1, 0, 0)]).unwrap();
    assert_eq!(s.restore_process(&frame), Ok(()));
    assert_eq!(s.active_processes[&2].allocated_qubits, vec![1, 2, 3]);
}

#[test]
fn freezing_unknown_process_fails() {
    let mut s = QuantumScheduler::new(2);
    match s.freeze_process(999, vec![]) {
        Err(e) => assert_eq!(e, "Proces PID 999 not found"),
        Ok(_) => panic!("unknown process was frozen"),
    }
    assert!(s.is_free(0) && s.is_free(1));
}

#[test]
fn zero_count_allocates_nothing() {
    let mut s = QuantumScheduler::new(4);
    assert_eq!(s.allocate_qubits(1, 0), Ok(vec![]));
    assert_eq!(s.active_processes[&1].allocated_qubits, Vec::<usize>::new());
    assert!((0..4).all(|q| s.is_free(q)));
    assert_eq!(s.allocate_qubits(2, 4), Ok(vec![0, 1, 2, 3]));
    assert_eq!(s.allocate_qubits(3, 0), Ok(vec![]));
}

#[test]
fn failed_allocation_reserves_nothing() {
    let mut s = QuantumScheduler::new(2);
    assert_eq!(s.allocate_qubits(1, 3), Err("Not enough free quantum resources!".to_string()));
    assert!(!s.active_processes.contains_key(&1));
    assert!(s.is_free(0) && s.is_free(1));
    assert_eq!(s.allocate_qubits(2, 2), Ok(vec![0, 1]));
    let mut t = QuantumScheduler::new(3);
    assert_eq!(t.allocate_qubits(1, 1), Ok(vec![0]));
    assert!(t.allocate_qubits(2, 5).is_err());
    assert!(t.is_free(1) && t.is_free(2));
    assert_eq!(t.allocate_qubits(3, 2), Ok(vec![1, 2]));
}

#[test]
fn reallocating_a_pid_replaces_its_entry() {
    let mut s = QuantumScheduler::new(4);
    s.allocate_qubits(7, 1).unwrap();
    assert_eq!(s.allocate_qubits(7, 2), Ok(vec![1, 2]));
    assert_eq!(s.active_processes.len(), 1);
    assert_eq!(s.active_processes[&7].allocated_qubits, vec![1, 2]);
    assert!(!s.is_free(0));
}

fn sample_frame() -> QuantumContextFrame {
    QuantumContextFrame {
        pid: 201,
        num_qubits: 2,
        sparse_state: vec![
            (0, 0.5f64.to_bits(), 0.0f64.to_bits()),
            (2, (-0.5f64).to_bits(), 0.25f64.to_bits()),
            (3, 0.7071067811865476f64.to_bits(), 1e-12f64.to_bits()),
        ],
    }
}

#[test]
fn swap_image_reads_back() {
    let frame = sample_frame();
    let bytes = frame.to_swap_bytes();
    let w = std::mem::size_of::<usize>();
    assert_eq!(bytes.len(), 3 * w + 3 * (w + 16));
    let back = QuantumContextFrame::from_swap_bytes(&bytes).unwrap();
    assert_eq!(back.pid, frame.pid);
    assert_eq!(back.num_qubits, frame.num_qubits);
    assert_eq!(back.sparse_state, frame.sparse_state);
}

#[test]
fn swap_image_layout_is_little_endian() {
    let frame = sample_frame();
    let bytes = frame.to_swap_bytes();
    let w = std::mem::size_of::<usize>();
    let mut expected = Vec::new();
    expected.extend_from_slice(&201usize.to_le_bytes());
    expected.extend_from_slice(&2usize.to_le_bytes());
    expected.extend_from_slice(&3usize.to_le_bytes());
    for (idx, re, im) in &frame.sparse_state {
        expected.extend_from_slice(&idx.to_le_bytes());
        expected.extend_from_slice(&f64::from_bits(*re).to_le_bytes());
        expected.extend_from_slice(&f64::from_bits(*im).to_le_bytes());
    }
    assert_eq!(bytes, expected);
    assert_eq!(&bytes[3 * w + w..3 * w + w + 8], &0.5f64.to_le_bytes());
}

#[test]
fn swap_image_ignores_trailing_bytes_and_rejects_short_ones() {
    let frame = sample_frame();
    let mut bytes = frame.to_swap_bytes();
    let full = bytes.len();
    bytes.extend_from_slice(&[1, 2, 3]);
    let back = QuantumContextFrame::from_swap_bytes(&bytes).unwrap();
    assert_eq!(back.sparse_state, frame.sparse_state);
    assert!(QuantumContextFrame::from_swap_bytes(&bytes[..full - 1]).is_none());
    assert!(QuantumContextFrame::from_swap_bytes(&bytes[..5]).is_none());
    assert!(QuantumContextFrame::from_swap_bytes(&[]).is_none());
}

#[test]
fn empty_context_reads_back() {
    let frame = QuantumContextFrame { pid: 0, num_qubits: 0, sparse_state: vec![] };
    let back = QuantumContextFrame::from_swap_bytes(&frame.to_swap_bytes()).unwrap();
    assert_eq!((back.pid, back.num_qubits, back.sparse_state.len()), (0, 0, 0));
}

#[test]
fn swap_paths_match_path_join() {
    for dir in ["./qswap", "qswap/", "", "/var/tmp/swap", "win\\"] {
        let vmm = QuantumVMM::new(dir.to_string());
        let expected = PathBuf::from(dir).join("process_201.qswap");
        assert_eq!(vmm.get_swap_path(201), expected.to_str().unwrap());
    }
    let vmm = QuantumVMM::new("./qswap".to_string());
    assert_eq!(vmm.get_swap_path(0), "./qswap/process_0.qswap");
    assert_eq!(vmm.swap_directory(), "./qswap");
}

#[test]
fn cluster_splits_qubits_into_ranges() {
    let c = ClusterOrchestrator::new(4, 40);
    let ranges: Vec<(usize, usize)> = c.nodes.iter().map(|n| n.assigned_qubit_range).collect();
    assert_eq!(ranges, vec![(0, 9), (10, 19), (20, 29), (30, 39)]);
    assert!(c.nodes.iter().enumerate().all(|(i, n)| n.node_id == i && n.memory_gb == 80));
    let c = ClusterOrchestrator::new(3, 10);
    let ranges: Vec<(usize, usize)> = c.nodes.iter().map(|n| n.assigned_qubit_range).collect();
    assert_eq!(ranges, vec![(0, 2), (3, 5), (6, 9)]);
    let c = ClusterOrchestrator::new(1, 5);
    assert_eq!(c.nodes[0].assigned_qubit_range, (0, 4));
}

#[test]
fn virtual_gpu_description() {
    let gpu = GPUComputeEngine::init_virtual_gpu();
    assert_eq!(gpu.device_name, "Virtual WGSL Compute Device (DirectX/Vulkan Backend)");
    assert_eq!(gpu.max_workgroups, 65535);
    assert!(gpu.is_available);
    let shader = GPUComputeEngine::get_hadamard_wgsl_shader();
    assert!(shader.contains("@compute @workgroup_size(64)"));
    assert!(shader.contains("state_real[idx] = (r + i) * inv_sqrt2;"));
}

#[test]
fn tenants_are_charged_and_refused() {
    let mut m = QuantumTenantManager::new();
    assert_eq!(m.tenant_quotas.get("Pharmaceutical_Corp"), Some(&3600));
    assert_eq!(m.tenant_quotas.get("Academic_User"), Some(&60));
    assert_eq!(m.authorize_and_isolate("Pharmaceutical_Corp", 50), Ok(()));
    assert_eq!(m.tenant_quotas.get("Pharmaceutical_Corp"), Some(&3599));
    assert_eq!(
        m.authorize_and_isolate("Mallory", 1),
        Err(" [SECURITY] Unauthorized Tenant ID: 'Mallory'".to_string())
    );
    for _ in 0..60 {
        assert_eq!(m.authorize_and_isolate("Academic_User", 2), Ok(()));
    }
    assert_eq!(
        m.authorize_and_isolate("Academic_User", 2),
        Err(" [SECURITY] Tenant 'Academic_User' has exhausted quantum hardware quota!".to_string())
    );
    assert_eq!(m.tenant_quotas.get("Academic_User"), Some(&0));
    assert_eq!(m.tenant_quotas.get("Pharmaceutical_Corp"), Some(&3599));
}
