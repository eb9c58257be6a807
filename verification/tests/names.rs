use herculaneum_mls_cubecl::backend::{
    auto_backend, available_backends, panic_message, requested_backend, runnable_backend,
    CompiledBackends,
};
use herculaneum_mls_cubecl::names::{backend_from_name, backend_name, normalized_name, parse_backend};
use herculaneum_mls_cubecl::Backend;

const NONE: CompiledBackends = CompiledBackends { cubecl_cpu: false, cubecl_hip: false };
const CPU: CompiledBackends = CompiledBackends { cubecl_cpu: true, cubecl_hip: false };
const BOTH: CompiledBackends = CompiledBackends { cubecl_cpu: true, cubecl_hip: true };

#[test]
fn backend_names_round_trip() {
    for id in 0..4u32 {
        assert_eq!(backend_from_name(backend_name(id)), id as i32);
    }
    assert_eq!(backend_name(0), "auto");
    assert_eq!(backend_name(1), "rust-cpu");
    assert_eq!(backend_name(2), "cubecl-cpu");
    assert_eq!(backend_name(3), "cubecl-hip");
    assert_eq!(backend_name(4), "unknown");
    assert_eq!(backend_from_name(backend_name(9)), -1);
}

#[test]
fn backend_names_are_trimmed_and_lowered() {
    assert_eq!(backend_from_name("  RUST-cpu\t"), 1);
    assert_eq!(backend_from_name("\u{3000}Hip\n"), 3);
    assert_eq!(backend_from_name("cpu"), 1);
    assert_eq!(backend_from_name("Cube-CPU"), 2);
    assert_eq!(backend_from_name("AUTO"), 0);
    assert_eq!(backend_from_name("cuda"), -1);
    assert_eq!(backend_from_name(""), -1);
    assert_eq!(backend_from_name("rust cpu"), -1);
    assert_eq!(normalized_name("  MiXeD\u{a0}"), "mixed");
    assert_eq!(normalized_name(" \t "), "");
    assert_eq!(normalized_name("ÄB c"), "Äb c");
}

#[test]
fn bench_backend_names_are_exact() {
    assert_eq!(parse_backend("rust"), Some(Backend::RustCpu));
    assert_eq!(parse_backend("rust-cpu"), Some(Backend::RustCpu));
    assert_eq!(parse_backend("cubecl-cpu"), Some(Backend::CubeCpu));
    assert_eq!(parse_backend("cube-hip"), Some(Backend::CubeHip));
    assert_eq!(parse_backend("cpu"), None);
    assert_eq!(parse_backend("auto"), None);
    assert_eq!(parse_backend("Rust"), None);
    assert_eq!(parse_backend(" rust"), None);
}

#[test]
fn requested_backend_prefers_the_arena() {
    assert_eq!(requested_backend(Backend::CubeCpu, Some("hip")), Ok(Backend::CubeCpu));
    assert_eq!(requested_backend(Backend::RustCpu, Some("bogus")), Ok(Backend::RustCpu));
    assert_eq!(requested_backend(Backend::Auto, None), Ok(Backend::Auto));
    assert_eq!(requested_backend(Backend::Auto, Some(" HIP ")), Ok(Backend::CubeHip));
    assert_eq!(requested_backend(Backend::Auto, Some("auto")), Ok(Backend::Auto));
    assert_eq!(requested_backend(Backend::Auto, Some(" Bogus ")), Err("bogus".to_string()));
}

#[test]
fn auto_resolves_to_the_best_compiled_backend() {
    assert_eq!(auto_backend(NONE), Backend::RustCpu);
    assert_eq!(auto_backend(CPU), Backend::CubeCpu);
    assert_eq!(auto_backend(BOTH), Backend::CubeHip);
    assert_eq!(runnable_backend(Backend::Auto, NONE), Ok(Backend::RustCpu));
    assert_eq!(runnable_backend(Backend::CubeCpu, NONE), Err(Backend::CubeCpu));
    assert_eq!(runnable_backend(Backend::CubeHip, CPU), Err(Backend::CubeHip));
    assert_eq!(runnable_backend(Backend::CubeHip, BOTH), Ok(Backend::CubeHip));
    assert_eq!(runnable_backend(Backend::RustCpu, BOTH), Ok(Backend::RustCpu));
}

#[test]
fn available_backend_mask() {
    assert_eq!(available_backends(NONE), 1);
    assert_eq!(available_backends(CPU), 3);
    assert_eq!(available_backends(BOTH), 7);
    assert_eq!(available_backends(CompiledBackends { cubecl_cpu: false, cubecl_hip: true }), 5);
}

#[test]
fn panic_message_keeps_string_payloads() {
    assert_eq!(panic_message(Some("boom".to_string())), "boom");
    assert_eq!(panic_message(None), "unknown Rust panic");
}
