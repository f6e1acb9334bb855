use risc0_fri::guest::{guest_cargo_args, is_bin_target, join_features, sha_digest_with_hex};

#[test]
fn digest_with_hex_of_abc() {
    let (bytes, hex) = sha_digest_with_hex(&b"abc".to_vec());
    assert_eq!(hex, "ba7816bf8f01cfea414140de5dae2223b00361a396177a9cb410ff61f20015ad");
    assert_eq!(bytes.len(), 32);
    assert_eq!(bytes[0], 0xba);
    assert_eq!(bytes[31], 0xad);
}

#[test]
fn digest_with_hex_of_empty_input() {
    let (_, hex) = sha_digest_with_hex(&Vec::new());
    assert_eq!(hex, "e3b0c44298fc1c149afbf4c8996fb92427ae41e4649b934ca495991b7852b855");
}

#[test]
fn join_features_uses_commas() {
    assert_eq!(join_features(&vec![]), "");
    assert_eq!(join_features(&vec!["a".to_string()]), "a");
    assert_eq!(join_features(&vec!["a".to_string(), "bc".to_string(), "d".to_string()]), "a,bc,d");
}

#[test]
fn guest_args_with_std_and_features() {
    let args = guest_cargo_args("t.json", "m/Cargo.toml", "out", &vec!["x".to_string(), "y".to_string()], true);
    let expected: Vec<&str> = vec![
        "build",
        "--release",
        "--target",
        "t.json",
        "-Z",
        "build-std=alloc,core,proc_macro,panic_abort,std",
        "-Z",
        "build-std-features=compiler-builtins-mem",
        "--manifest-path",
        "m/Cargo.toml",
        "--target-dir",
        "out",
        "--features",
        "x,y",
    ];
    assert_eq!(args, expected);
}

#[test]
fn guest_args_without_std_or_features() {
    let args = guest_cargo_args("t.json", "m/Cargo.toml", "out", &vec![], false);
    assert_eq!(args.len(), 12);
    assert_eq!(args[5], "build-std=alloc,core,proc_macro,panic_abort");
    assert!(!args.iter().any(|a| a == "--features"));
}

#[test]
fn bin_targets_are_recognised() {
    assert!(is_bin_target(&vec!["lib".to_string(), "bin".to_string()]));
    assert!(!is_bin_target(&vec!["lib".to_string(), "binary".to_string()]));
    assert!(!is_bin_target(&vec![]));
}
