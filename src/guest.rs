use vstd::prelude::*;
use vstd::string::StringExecFns;
use crate::transcript::{sha256, sha256_of};

verus! {

/// Options defining how a guest package is built and embedded.
pub struct GuestOptions {
    /// Features for cargo to build the guest with.
    pub features: Vec<String>,
    /// Enable standard library support.
    pub std: bool,
}

impl Default for GuestOptions {
    /// No extra features, with standard library support.
    fn default() -> (r: Self)
        ensures
            r.features@.len() == 0,
            r.std,
    {
        GuestOptions { features: Vec::new(), std: true }
    }
}

/// The lower-case hexadecimal digit of a value below sixteen.
pub open spec fn hex_char(d: int) -> char {
    if d < 10 { (48 + d) as char } else { (87 + d) as char }
}

/// The lower-case hexadecimal text of a byte string, two digits per byte.
pub open spec fn hex_of(b: Seq<u8>) -> Seq<char>
    decreases b.len(),
{
    if b.len() == 0 {
        Seq::empty()
    } else {
        hex_of(b.drop_last()) + seq![hex_char(b.last() as int / 16), hex_char(b.last() as int % 16)]
    }
}

fn hex_digit(d: u8) -> (r: &'static str)
    requires
        d < 16,
    ensures
        r@ == seq![hex_char(d as int)],
{
    proof {
        reveal_strlit("0");
        reveal_strlit("1");
        reveal_strlit("2");
        reveal_strlit("3");
        reveal_strlit("4");
        reveal_strlit("5");
        reveal_strlit("6");
        reveal_strlit("7");
        reveal_strlit("8");
        reveal_strlit("9");
        reveal_strlit("a");
        reveal_strlit("b");
        reveal_strlit("c");
        reveal_strlit("d");
        reveal_strlit("e");
        reveal_strlit("f");
    }
    match d {
        0 => "0",
        1 => "1",
        2 => "2",
        3 => "3",
        4 => "4",
        5 => "5",
        6 => "6",
        7 => "7",
        8 => "8",
        9 => "9",
        10 => "a",
        11 => "b",
        12 => "c",
        13 => "d",
        14 => "e",
        _ => "f",
    }
}

/// The SHA-256 digest of `data`, as bytes and as lower-case hexadecimal text.
pub fn sha_digest_with_hex(data: &Vec<u8>) -> (r: (Vec<u8>, String))
    ensures
        r.0@ == sha256_of(data@),
        r.1@ == hex_of(sha256_of(data@)),
        r.1@.len() == 64,
{
    let digest = sha256(data);
    let mut hex = String::new();
    let mut i: usize = 0;
    while i < digest.len()
        invariant
            i <= digest.len(),
            hex@ == hex_of(digest@.subrange(0, i as int)),
            hex@.len() == 2 * i,
        decreases digest.len() - i,
    {
        let b = digest[i];
        hex.append(hex_digit(b / 16));
        hex.append(hex_digit(b % 16));
        assert(digest@.subrange(0, i + 1).drop_last() == digest@.subrange(0, i as int));
        i = i + 1;
    }
    assert(digest@.subrange(0, digest.len() as int) == digest@);
    (digest, hex)
}

/// The texts of `parts` joined with commas.
pub open spec fn join_commas(parts: Seq<Seq<char>>) -> Seq<char>
    decreases parts.len(),
{
    if parts.len() == 0 {
        Seq::empty()
    } else if parts.len() == 1 {
        parts[0]
    } else {
        join_commas(parts.drop_last()) + seq![','] + parts.last()
    }
}

/// The `build-std` setting: the core library parts, and `std` when asked for.
pub open spec fn build_std_spec(std: bool) -> Seq<char> {
    if std {
        "build-std=alloc,core,proc_macro,panic_abort,std"@
    } else {
        "build-std=alloc,core,proc_macro,panic_abort"@
    }
}

/// The cargo arguments that build a guest package for the zkVM target.
pub open spec fn guest_args_spec(
    target_spec: Seq<char>,
    manifest_path: Seq<char>,
    target_dir: Seq<char>,
    features: Seq<Seq<char>>,
    std: bool,
) -> Seq<Seq<char>> {
    let base = seq![
        "build"@,
        "--release"@,
        "--target"@,
        target_spec,
        "-Z"@,
        build_std_spec(std),
        "-Z"@,
        "build-std-features=compiler-builtins-mem"@,
        "--manifest-path"@,
        manifest_path,
        "--target-dir"@,
        target_dir,
    ];
    if features.len() == 0 {
        base
    } else {
        base + seq!["--features"@, join_commas(features)]
    }
}

/// The features joined with commas.
pub fn join_features(features: &Vec<String>) -> (r: String)
    ensures
        r@ == join_commas(features@.map_values(|f: String| f@)),
{
    let ghost fs = features@.map_values(|f: String| f@);
    let mut out = String::new();
    let mut i: usize = 0;
    while i < features.len()
        invariant
            i <= features.len(),
            fs == features@.map_values(|f: String| f@),
            out@ == join_commas(fs.subrange(0, i as int)),
        decreases features.len() - i,
    {
        if i > 0 {
            proof {
                reveal_strlit(",");
            }
            out.append(",");
        }
        out.append(features[i].as_str());
        assert(fs.subrange(0, i + 1).drop_last() == fs.subrange(0, i as int));
        i = i + 1;
    }
    assert(fs.subrange(0, features.len() as int) == fs);
    out
}

/// The cargo arguments that build the guest package at `manifest_path` into
/// `target_dir` for the target described by `target_spec`, with the given
/// features and, when `std` holds, the standard library.
pub fn guest_cargo_args(
    target_spec: &str,
    manifest_path: &str,
    target_dir: &str,
    features: &Vec<String>,
    std: bool,
) -> (r: Vec<String>)
    ensures
        r@.map_values(|a: String| a@) == guest_args_spec(
            target_spec@,
            manifest_path@,
            target_dir@,
            features@.map_values(|f: String| f@),
            std,
        ),
{
    let mut args: Vec<String> = Vec::new();
    args.push(String::from_str("build"));
    args.push(String::from_str("--release"));
    args.push(String::from_str("--target"));
    args.push(String::from_str(target_spec));
    args.push(String::from_str("-Z"));
    if std {
        args.push(String::from_str("build-std=alloc,core,proc_macro,panic_abort,std"));
    } else {
        args.push(String::from_str("build-std=alloc,core,proc_macro,panic_abort"));
    }
    args.push(String::from_str("-Z"));
    args.push(String::from_str("build-std-features=compiler-builtins-mem"));
    args.push(String::from_str("--manifest-path"));
    args.push(String::from_str(manifest_path));
    args.push(String::from_str("--target-dir"));
    args.push(String::from_str(target_dir));
    if features.len() > 0 {
        args.push(String::from_str("--features"));
        args.push(join_features(features));
    }
    let ghost spec = guest_args_spec(
        target_spec@,
        manifest_path@,
        target_dir@,
        features@.map_values(|f: String| f@),
        std,
    );
    assert(args@.map_values(|a: String| a@) =~= spec);
    args
}

/// Whether a cargo target with these kinds is a binary, and so a guest method.
pub fn is_bin_target(kinds: &Vec<String>) -> (r: bool)
    ensures
        r == exists|i: int| 0 <= i < kinds@.len() && #[trigger] kinds@[i]@ == "bin"@,
{
    let bin = String::from_str("bin");
    let mut i: usize = 0;
    while i < kinds.len()
        invariant
            i <= kinds.len(),
            bin@ == "bin"@,
            forall|j: int| 0 <= j < i ==> #[trigger] kinds@[j]@ != "bin"@,
        decreases kinds.len() - i,
    {
        if kinds[i] == bin {
            return true;
        }
        i = i + 1;
    }
    false
}

} // verus!
