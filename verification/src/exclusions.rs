//! The filter that keeps operating-system and transient entries out of
//! directory listings and blocks direct retrieval of them.
use vstd::prelude::*;
use vstd::string::*;

use crate::strutil::{
    spec_eq_ignore_ascii_case, spec_ends_with, str_eq_ignore_ascii_case, str_ends_with,
};

verus! {

/// Entry names reserved by an operating system, compared without regard
/// to ASCII case.
pub open spec fn spec_in_exclusion_list(name: Seq<char>) -> bool {
    ||| spec_eq_ignore_ascii_case(name, "System Volume Information"@)
    ||| spec_eq_ignore_ascii_case(name, "$Recycle.Bin"@)
    ||| spec_eq_ignore_ascii_case(name, "Config.Msi"@)
    ||| spec_eq_ignore_ascii_case(name, "PerfLogs"@)
    ||| spec_eq_ignore_ascii_case(name, "Recovery"@)
    ||| spec_eq_ignore_ascii_case(name, "Windows"@)
    ||| spec_eq_ignore_ascii_case(name, "Program Files"@)
    ||| spec_eq_ignore_ascii_case(name, "Program Files (x86)"@)
    ||| spec_eq_ignore_ascii_case(name, "ProgramData"@)
    ||| spec_eq_ignore_ascii_case(name, "AppData"@)
    ||| spec_eq_ignore_ascii_case(name, "Users/All Users"@)
    ||| spec_eq_ignore_ascii_case(name, "Users/Default"@)
    ||| spec_eq_ignore_ascii_case(name, "Users/Default User"@)
    ||| spec_eq_ignore_ascii_case(name, "Users/Public"@)
    ||| spec_eq_ignore_ascii_case(name, "pagefile.sys"@)
    ||| spec_eq_ignore_ascii_case(name, "hiberfil.sys"@)
    ||| spec_eq_ignore_ascii_case(name, "swapfile.sys"@)
    ||| spec_eq_ignore_ascii_case(name, "bootmgr"@)
    ||| spec_eq_ignore_ascii_case(name, "BOOTNXT"@)
    ||| spec_eq_ignore_ascii_case(name, "BOOTSECT.BAK"@)
    ||| spec_eq_ignore_ascii_case(name, "ntldr"@)
    ||| spec_eq_ignore_ascii_case(name, "NTDETECT.COM"@)
    ||| spec_eq_ignore_ascii_case(name, "boot.ini"@)
    ||| spec_eq_ignore_ascii_case(name, "Desktop.ini"@)
    ||| spec_eq_ignore_ascii_case(name, ".DS_Store"@)
    ||| spec_eq_ignore_ascii_case(name, ".Trash"@)
    ||| spec_eq_ignore_ascii_case(name, ".fseventsd"@)
    ||| spec_eq_ignore_ascii_case(name, ".Spotlight-V100"@)
    ||| spec_eq_ignore_ascii_case(name, ".TemporaryItems"@)
    ||| spec_eq_ignore_ascii_case(name, ".bash_history"@)
    ||| spec_eq_ignore_ascii_case(name, ".bashrc"@)
    ||| spec_eq_ignore_ascii_case(name, ".profile"@)
    ||| spec_eq_ignore_ascii_case(name, "thumbs.db"@)
    ||| spec_eq_ignore_ascii_case(name, ".tmp"@)
    ||| spec_eq_ignore_ascii_case(name, ".temp"@)
}

/// An entry is hidden from listings and barred from retrieval when a
/// platform hidden attribute is set, its name follows the hidden-file dot
/// convention, it is a reserved system name, or it carries a transient
/// suffix.
pub open spec fn spec_is_system_file_or_folder(name: Seq<char>, is_hidden: bool) -> bool {
    ||| is_hidden
    ||| (name.len() > 0 && name[0] == '.')
    ||| spec_in_exclusion_list(name)
    ||| spec_ends_with(name, ".tmp"@)
    ||| spec_ends_with(name, ".temp"@)
    ||| spec_ends_with(name, "~"@)
    ||| spec_ends_with(name, ".lnk"@)
}

/// Decides whether a directory entry must never be exposed.
pub fn is_system_file_or_folder(name: &str, is_hidden: bool) -> (r: bool)
    ensures
        r == spec_is_system_file_or_folder(name@, is_hidden),
{
    if is_hidden {
        return true;
    }
    if name.unicode_len() > 0 && name.get_char(0) == '.' {
        return true;
    }
    if str_eq_ignore_ascii_case(name, "System Volume Information")
        || str_eq_ignore_ascii_case(name, "$Recycle.Bin")
        || str_eq_ignore_ascii_case(name, "Config.Msi")
        || str_eq_ignore_ascii_case(name, "PerfLogs")
        || str_eq_ignore_ascii_case(name, "Recovery")
        || str_eq_ignore_ascii_case(name, "Windows")
        || str_eq_ignore_ascii_case(name, "Program Files")
        || str_eq_ignore_ascii_case(name, "Program Files (x86)")
        || str_eq_ignore_ascii_case(name, "ProgramData")
        || str_eq_ignore_ascii_case(name, "AppData")
        || str_eq_ignore_ascii_case(name, "Users/All Users")
        || str_eq_ignore_ascii_case(name, "Users/Default")
        || str_eq_ignore_ascii_case(name, "Users/Default User")
        || str_eq_ignore_ascii_case(name, "Users/Public") {
        return true;
    }
    if str_eq_ignore_ascii_case(name, "pagefile.sys")
        || str_eq_ignore_ascii_case(name, "hiberfil.sys")
        || str_eq_ignore_ascii_case(name, "swapfile.sys")
        || str_eq_ignore_ascii_case(name, "bootmgr")
        || str_eq_ignore_ascii_case(name, "BOOTNXT")
        || str_eq_ignore_ascii_case(name, "BOOTSECT.BAK")
        || str_eq_ignore_ascii_case(name, "ntldr")
        || str_eq_ignore_ascii_case(name, "NTDETECT.COM")
        || str_eq_ignore_ascii_case(name, "boot.ini")
        || str_eq_ignore_ascii_case(name, "Desktop.ini") {
        return true;
    }
    if str_eq_ignore_ascii_case(name, ".DS_Store")
        || str_eq_ignore_ascii_case(name, ".Trash")
        || str_eq_ignore_ascii_case(name, ".fseventsd")
        || str_eq_ignore_ascii_case(name, ".Spotlight-V100")
        || str_eq_ignore_ascii_case(name, ".TemporaryItems")
        || str_eq_ignore_ascii_case(name, ".bash_history")
        || str_eq_ignore_ascii_case(name, ".bashrc")
        || str_eq_ignore_ascii_case(name, ".profile")
        || str_eq_ignore_ascii_case(name, "thumbs.db")
        || str_eq_ignore_ascii_case(name, ".tmp")
        || str_eq_ignore_ascii_case(name, ".temp") {
        return true;
    }
    if str_ends_with(name, ".tmp") || str_ends_with(name, ".temp") || str_ends_with(name, "~")
        || str_ends_with(name, ".lnk") {
        return true;
    }
    false
}

} // verus!
