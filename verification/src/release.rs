//! Choosing the prebuilt server that the editor extension downloads: which
//! release asset fits the platform, where it is unpacked and where the
//! executable lands.
use vstd::prelude::*;
use crate::text::{chars_of, string_of};

verus! {

/// The repository whose releases carry prebuilt servers.
pub const REPO: &'static str = "WhiteKr/zed-classic-asp";

/// An operating system the editor runs on.
#[derive(Clone, Copy, PartialEq, Eq, Structural, Debug)]
pub enum Os {
    Mac,
    Linux,
    Windows,
}

/// A processor architecture the editor runs on.
#[derive(Clone, Copy, PartialEq, Eq, Structural, Debug)]
pub enum Arch {
    Aarch64,
    X86,
    X8664,
}

/// How a release asset is packed.
#[derive(Clone, Copy, PartialEq, Eq, Structural, Debug)]
pub enum ArchiveKind {
    Zip,
    GzipTar,
}

/// The target triple of the prebuilt server for a platform, if there is one.
pub open spec fn target_spec(os: Os, arch: Arch) -> Option<Seq<char>> {
    match (os, arch) {
        (Os::Windows, Arch::X8664) => Some("x86_64-pc-windows-msvc"@),
        (Os::Linux, Arch::X8664) => Some("x86_64-unknown-linux-gnu"@),
        (Os::Mac, Arch::Aarch64) => Some("aarch64-apple-darwin"@),
        _ => None,
    }
}

/// The error for a platform without a prebuilt server.
pub open spec fn unsupported_platform_message() -> Seq<char> {
    "no prebuilt asp-ls for this platform"@
}

/// The target triple of the prebuilt server for `os` and `arch`, or the
/// error the extension reports when there is none.
pub fn release_target(os: Os, arch: Arch) -> (r: Result<String, String>)
    ensures
        match target_spec(os, arch) {
            Some(t) => r matches Ok(s) && s@ == t,
            None => r matches Err(e) && e@ == unsupported_platform_message(),
        },
{
    match (os, arch) {
        (Os::Windows, Arch::X8664) => Ok(String::from_str("x86_64-pc-windows-msvc")),
        (Os::Linux, Arch::X8664) => Ok(String::from_str("x86_64-unknown-linux-gnu")),
        (Os::Mac, Arch::Aarch64) => Ok(String::from_str("aarch64-apple-darwin")),
        _ => Err(String::from_str("no prebuilt asp-ls for this platform")),
    }
}

/// The packing of the asset for `os`: a zip archive on Windows, a gzipped
/// tarball elsewhere.
pub open spec fn archive_kind_spec(os: Os) -> ArchiveKind {
    if os == Os::Windows {
        ArchiveKind::Zip
    } else {
        ArchiveKind::GzipTar
    }
}

/// The name of the release asset for `target` on `os`.
pub open spec fn asset_name_spec(os: Os, target: Seq<char>) -> Seq<char> {
    if os == Os::Windows {
        "asp-ls-"@ + target + ".zip"@
    } else {
        "asp-ls-"@ + target + ".tar.gz"@
    }
}

/// The asset name and its packing for `target` on `os`.
pub fn release_asset(os: Os, target: &str) -> (r: (String, ArchiveKind))
    ensures
        r.0@ == asset_name_spec(os, target@),
        r.1 == archive_kind_spec(os),
{
    let mut name = String::from_str("asp-ls-");
    name.append(target);
    match os {
        Os::Windows => {
            name.append(".zip");
            (name, ArchiveKind::Zip)
        },
        _ => {
            name.append(".tar.gz");
            (name, ArchiveKind::GzipTar)
        },
    }
}

/// `s` without its leading `v`s.
pub open spec fn trim_leading_v(s: Seq<char>) -> Seq<char>
    decreases s.len(),
{
    if s.len() > 0 && s[0] == 'v' {
        trim_leading_v(s.drop_first())
    } else {
        s
    }
}

/// The directory a release is unpacked into: `asp-ls-` and the version
/// without its leading `v`s.
pub open spec fn version_dir_spec(version: Seq<char>) -> Seq<char> {
    "asp-ls-"@ + trim_leading_v(version)
}

/// The directory the release `version` is unpacked into.
pub fn version_dir(version: &str) -> (r: String)
    ensures
        r@ == version_dir_spec(version@),
{
    let v = chars_of(version);
    let mut k: usize = 0;
    proof {
        assert(v@.skip(0) =~= v@);
    }
    while k < v.len() && v[k] == 'v'
        invariant
            k <= v@.len(),
            v@ == version@,
            trim_leading_v(v@.skip(k as int)) == trim_leading_v(version@),
        decreases v@.len() - k,
    {
        proof {
            assert(v@.skip(k as int).drop_first() =~= v@.skip(k + 1));
        }
        k += 1;
    }
    let rest = string_of(&v, k, v.len());
    proof {
        assert(v@.subrange(k as int, v@.len() as int) =~= v@.skip(k as int));
    }
    let mut dir = String::from_str("asp-ls-");
    dir.append(rest.as_str());
    dir
}

/// Where the server's executable stands inside `dir` on `os`.
pub open spec fn binary_path_spec(os: Os, dir: Seq<char>) -> Seq<char> {
    if os == Os::Windows {
        dir + "/asp-ls.exe"@
    } else {
        dir + "/asp-ls"@
    }
}

/// The path of the server's executable inside `dir` on `os`.
pub fn binary_path(os: Os, dir: &str) -> (r: String)
    ensures
        r@ == binary_path_spec(os, dir@),
{
    let mut p = String::from_str(dir);
    match os {
        Os::Windows => p.append("/asp-ls.exe"),
        _ => p.append("/asp-ls"),
    }
    p
}

/// Whether the unpacked executable must be marked executable on `os`.
pub open spec fn needs_executable_bit_spec(os: Os) -> bool {
    os != Os::Windows
}

/// The position of the asset named `wanted` among `names`: the first one.
pub fn find_asset(names: &Vec<String>, wanted: &String) -> (r: Option<usize>)
    ensures
        match r {
            Some(i) => i < names@.len() && names@[i as int]@ == wanted@ && forall|k: int|
                0 <= k < i ==> (#[trigger] names@[k])@ != wanted@,
            None => forall|k: int| 0 <= k < names@.len() ==> (#[trigger] names@[k])@ != wanted@,
        },
{
    let mut i: usize = 0;
    while i < names.len()
        invariant
            i <= names@.len(),
            forall|k: int| 0 <= k < i ==> (#[trigger] names@[k])@ != wanted@,
        decreases names@.len() - i,
    {
        if names[i] == *wanted {
            return Some(i);
        }
        i += 1;
    }
    None
}

/// The error when the release `version` carries no asset named `name`.
pub open spec fn missing_asset_message_spec(name: Seq<char>, version: Seq<char>) -> Seq<char> {
    "no asset named "@ + name + " in release "@ + version
}

/// What to fetch and where to put it.
pub struct InstallPlan {
    /// The index of the asset to download among the release's assets.
    pub asset: usize,
    /// The directory the asset is unpacked into.
    pub version_dir: String,
    /// Where the executable stands once unpacked.
    pub binary_path: String,
    /// How the asset is packed.
    pub archive: ArchiveKind,
    /// Whether the executable must be marked executable after unpacking.
    pub make_executable: bool,
}

/// The plan for installing the server from the release `version` whose
/// assets are named `assets`, for `target` on `os`: the asset named for the
/// platform, or the error naming the asset that is missing.
pub fn plan_install(os: Os, target: &str, version: &str, assets: &Vec<String>) -> (r: Result<InstallPlan, String>)
    ensures
        match r {
            Ok(p) => {
                &&& p.asset < assets@.len()
                &&& assets@[p.asset as int]@ == asset_name_spec(os, target@)
                &&& forall|k: int| 0 <= k < p.asset ==> (#[trigger] assets@[k])@ != asset_name_spec(os, target@)
                &&& p.version_dir@ == version_dir_spec(version@)
                &&& p.binary_path@ == binary_path_spec(os, version_dir_spec(version@))
                &&& p.archive == archive_kind_spec(os)
                &&& p.make_executable == needs_executable_bit_spec(os)
            },
            Err(e) => {
                &&& forall|k: int| 0 <= k < assets@.len() ==> (#[trigger] assets@[k])@ != asset_name_spec(os, target@)
                &&& e@ == missing_asset_message_spec(asset_name_spec(os, target@), version@)
            },
        },
{
    let (name, archive) = release_asset(os, target);
    match find_asset(assets, &name) {
        Some(asset) => {
            let dir = version_dir(version);
            let bin = binary_path(os, dir.as_str());
            let make_executable = match os {
                Os::Windows => false,
                _ => true,
            };
            Ok(InstallPlan { asset, version_dir: dir, binary_path: bin, archive, make_executable })
        },
        None => {
            let mut e = String::from_str("no asset named ");
            e.append(name.as_str());
            e.append(" in release ");
            e.append(version);
            Err(e)
        },
    }
}

} // verus!
