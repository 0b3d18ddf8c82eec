//! Version and system information for the settings page's "about" card.

use vstd::prelude::*;
use crate::text::{matches_at, to_chars, trimmed};

verus! {

/// What the settings page shows about the build and the system.
#[derive(Debug)]
pub struct SystemInfo {
    pub build_type: String,
    pub platform: String,
    pub arch: String,
    pub os_version: String,
}

/// The system information for a debug or release build on `platform` /
/// `arch` (as `std::env::consts` names them). On macOS the system version
/// is "macOS" and the product version, if it could be read; elsewhere it is
/// the platform's name.
pub fn system_info(
    debug_build: bool,
    platform: &str,
    arch: &str,
    product_version: Option<String>,
) -> (info: SystemInfo)
    ensures
        info.build_type@ == if debug_build {
            "Debug"@
        } else {
            "Release"@
        },
        info.platform@ == platform@,
        info.arch@ == arch@,
        info.os_version@ == if platform@ == "macos"@ {
            match product_version {
                Some(v) => "macOS "@ + crate::text::trim(v@),
                None => "macOS"@,
            }
        } else {
            platform@
        },
{
    let build_type = if debug_build {
        String::from_str("Debug")
    } else {
        String::from_str("Release")
    };
    let p = to_chars(platform);
    let mac = to_chars("macos");
    let on_mac = p.len() == mac.len() && matches_at(p.as_slice(), 0, mac.as_slice());
    proof {
        assert(p@.subrange(0, mac@.len() as int) =~= p@ || p@.len() != mac@.len());
    }
    let os_version = if !on_mac {
        String::from_str(platform)
    } else {
        match product_version {
            Some(v) => {
                let mut s = String::from_str("macOS ");
                s.append(trimmed(v.as_str()).as_str());
                s
            },
            None => String::from_str("macOS"),
        }
    };
    SystemInfo {
        build_type,
        platform: String::from_str(platform),
        arch: String::from_str(arch),
        os_version,
    }
}

} // verus!
