//! Where the rendering engine's library lies for a platform.

use vstd::prelude::*;
use vstd::string::StringExecFns;

verus! {

/// The folder, below the engine's directory, that holds the library for the operating system
/// `os` and the processor `arch`: one of four, with Linux for every system but macOS and x64
/// for every processor but aarch64.
pub open spec fn library_folder(os: Seq<char>, arch: Seq<char>) -> Seq<char> {
    if os == "macos"@ {
        if arch == "aarch64"@ {
            "pdfium-mac-arm64/lib"@
        } else {
            "pdfium-mac-x64/lib"@
        }
    } else {
        if arch == "aarch64"@ {
            "pdfium-linux-arm64/lib"@
        } else {
            "pdfium-linux-x64/lib"@
        }
    }
}

/// Whether `a` and `b` hold the same text.
fn same_text(a: &str, b: &str) -> (same: bool)
    ensures
        same == (a@ == b@),
{
    String::from_str(a) == String::from_str(b)
}

/// The folder, below the engine's directory, that holds the library for the operating system
/// `os` and the processor `arch`, as the standard library names them.
pub fn platform_library_folder(os: &str, arch: &str) -> (folder: &'static str)
    ensures
        folder@ == library_folder(os@, arch@),
{
    if same_text(os, "macos") {
        if same_text(arch, "aarch64") {
            "pdfium-mac-arm64/lib"
        } else {
            "pdfium-mac-x64/lib"
        }
    } else {
        if same_text(arch, "aarch64") {
            "pdfium-linux-arm64/lib"
        } else {
            "pdfium-linux-x64/lib"
        }
    }
}

} // verus!
