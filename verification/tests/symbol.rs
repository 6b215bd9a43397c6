use virmem::Symbol;

#[test]
fn test_search_symbols() {
    let code = r#"
extern "C" __global__ void kernel0() { printf("Hello World from GPU!\n"); }
extern "C" __device__ long kernel1() { printf("Hello World from GPU!\n"); }
extern "C" __global__ void kernel2() { printf("Hello World from GPU!\n"); }
    "#;
    assert_eq!(
        Symbol::search(code),
        &[
            Symbol::Global("kernel0"),
            Symbol::Device("kernel1"),
            Symbol::Global("kernel2"),
        ]
    );
}

#[test]
fn search_ignores_other_text() {
    assert_eq!(Symbol::search("no kernels in here"), &[]);
    // an extern block without the "C" marker yields nothing
    assert_eq!(Symbol::search("extern __global__ void k()"), &[]);
    // a head without __global__ or __device__ yields nothing
    assert_eq!(Symbol::search(r#"extern "C" int plain(int x)"#), &[]);
}

#[test]
fn search_finds_device_functions() {
    let code = r#"extern "C" __device__ long helper(long x) { return x; }"#;
    assert_eq!(Symbol::search(code), &[Symbol::Device("helper")]);
}

#[test]
fn search_requires_void_for_globals() {
    // __global__ without void is not taken as an entry point
    let code = r#"extern "C" __global__ long k() {}"#;
    assert_eq!(Symbol::search(code), &[]);
}
