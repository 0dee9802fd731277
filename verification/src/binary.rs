//! Locating the child executable: which release asset fits the platform,
//! where it is cached, where it is downloaded from, and the exact argument
//! lists of the child's auxiliary commands.  Filesystem and network work is
//! the unverified layer's; this module only computes names.

use vstd::prelude::*;
use vstd::string::StringExecFns;
use vstd::string::StringSliceAdditionalSpecFns;

use crate::bytes::bytes_eq;

verus! {

/// The release asset name for a platform, if the platform is supported.
pub open spec fn binary_filename_spec(os: Seq<u8>, arch: Seq<u8>) -> Option<Seq<u8>> {
    if os == "linux".spec_bytes() && arch == "aarch64".spec_bytes() {
        Some("lit.linux_arm64".spec_bytes())
    } else if os == "linux".spec_bytes() && arch == "x86_64".spec_bytes() {
        Some("lit.linux_x86_64".spec_bytes())
    } else if os == "macos".spec_bytes() && arch == "aarch64".spec_bytes() {
        Some("lit.macos_arm64".spec_bytes())
    } else if os == "windows".spec_bytes() && arch == "x86_64".spec_bytes() {
        Some("lit.windows_x86_64.exe".spec_bytes())
    } else {
        None
    }
}

/// Names the release asset that fits the given platform, or nothing when
/// the platform is unsupported.
pub fn get_binary_filename(os: &str, arch: &str) -> (r: Option<&'static str>)
    ensures
        match r {
            Some(f) => binary_filename_spec(os.spec_bytes(), arch.spec_bytes()) == Some(
                f.spec_bytes(),
            ),
            None => binary_filename_spec(os.spec_bytes(), arch.spec_bytes()) is None,
        },
{
    let linux = bytes_eq(os.as_bytes(), "linux".as_bytes());
    let aarch = bytes_eq(arch.as_bytes(), "aarch64".as_bytes());
    let x86 = bytes_eq(arch.as_bytes(), "x86_64".as_bytes());
    if linux && aarch {
        Some("lit.linux_arm64")
    } else if linux && x86 {
        Some("lit.linux_x86_64")
    } else if bytes_eq(os.as_bytes(), "macos".as_bytes()) && aarch {
        Some("lit.macos_arm64")
    } else if bytes_eq(os.as_bytes(), "windows".as_bytes()) && x86 {
        Some("lit.windows_x86_64.exe")
    } else {
        None
    }
}

/// Keeper of the cached child executable: the cache directory and the
/// platform's asset name, both supplied by the unverified layer.
pub struct BinaryManager {
    /// Directory the executable is cached under.
    pub cache_dir: String,
    /// The platform's release asset name.
    pub filename: String,
}

impl BinaryManager {
    /// A manager for the given cache directory and asset name.
    pub fn new(cache_dir: String, filename: String) -> (r: Self)
        ensures
            r.cache_dir@ == cache_dir@,
            r.filename@ == filename@,
    {
        BinaryManager { cache_dir, filename }
    }

    /// The path the executable is cached at: the cache directory, a path
    /// separator, and the asset name.
    pub fn get_binary_path(&self) -> (r: String)
        ensures
            r@ == self.cache_dir@ + "/"@ + self.filename@,
    {
        let mut out = String::new();
        out.append(self.cache_dir.as_str());
        out.append("/");
        out.append(self.filename.as_str());
        out
    }

    /// The release URL the executable is downloaded from:
    /// `<base>/<version>/<filename>`.
    pub fn download_url(&self) -> (r: String)
        ensures
            r@ == "https://github.com/google-ai-edge/LiteRT-LM/releases/download"@ + "/"@
                + "v0.7.0"@ + "/"@ + self.filename@,
    {
        let mut out = String::new();
        out.append("https://github.com/google-ai-edge/LiteRT-LM/releases/download");
        out.append("/");
        out.append("v0.7.0");
        out.append("/");
        out.append(self.filename.as_str());
        out
    }
}

/// The child's `list` command line: `list`, plus `--show_all` when the
/// whole registry is wanted.
pub fn list_args(show_all: bool) -> (r: Vec<String>)
    ensures
        show_all ==> r@.len() == 2 && r@[0]@ == "list"@ && r@[1]@ == "--show_all"@,
        !show_all ==> r@.len() == 1 && r@[0]@ == "list"@,
{
    let mut args: Vec<String> = Vec::new();
    args.push(String::from_str("list"));
    if show_all {
        args.push(String::from_str("--show_all"));
    }
    args
}

/// The child's `rm` command line: `rm <model>`.
pub fn remove_args(model: &str) -> (r: Vec<String>)
    ensures
        r@.len() == 2,
        r@[0]@ == "rm"@,
        r@[1]@ == model@,
{
    let mut args: Vec<String> = Vec::new();
    args.push(String::from_str("rm"));
    args.push(String::from_str(model));
    args
}

/// The child's interactive command line: `run <model>`.
pub fn interactive_args(model: &str) -> (r: Vec<String>)
    ensures
        r@.len() == 2,
        r@[0]@ == "run"@,
        r@[1]@ == model@,
{
    let mut args: Vec<String> = Vec::new();
    args.push(String::from_str("run"));
    args.push(String::from_str(model));
    args
}

/// The child's `pull` command line: `pull <model>`, with `--alias` and
/// `--hf_token` appended when given.
pub fn pull_args(model: &str, alias: Option<&str>, hf_token: Option<&str>) -> (r: Vec<String>)
    ensures
        r@.len() == 2 + (if alias is Some {
            2int
        } else {
            0int
        }) + (if hf_token is Some {
            2int
        } else {
            0int
        }),
        r@[0]@ == "pull"@,
        r@[1]@ == model@,
        alias is Some ==> r@[2]@ == "--alias"@ && r@[3]@ == alias->0@,
        alias is None && hf_token is Some ==> r@[2]@ == "--hf_token"@ && r@[3]@ == hf_token->0@,
        alias is Some && hf_token is Some ==> r@[4]@ == "--hf_token"@ && r@[5]@ == hf_token->0@,
{
    let mut args: Vec<String> = Vec::new();
    args.push(String::from_str("pull"));
    args.push(String::from_str(model));
    match alias {
        Some(a) => {
            args.push(String::from_str("--alias"));
            args.push(String::from_str(a));
        },
        None => {},
    }
    match hf_token {
        Some(t) => {
            args.push(String::from_str("--hf_token"));
            args.push(String::from_str(t));
        },
        None => {},
    }
    args
}

} // verus!
