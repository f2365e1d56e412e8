use vstd::prelude::*;
use crate::maps::{Maps, same_text};
use crate::winapi64::kernelbase::wide_arg_readable;

verus! {

/// The call `PathIsContentTypeW(path, content_type)` of the emulated
/// process, with its arguments as the first two argument registers hold
/// them: reads both wide strings where their pointers are not null and
/// answers 1.
#[allow(non_snake_case)]
pub fn PathIsContentTypeW(maps: &Maps, rcx: u64, rdx: u64) -> (rax: u64)
    requires
        maps.wf(),
        wide_arg_readable(*maps, rcx),
        wide_arg_readable(*maps, rdx),
    ensures
        rax == 1,
{
    let path_ptr = rcx;
    let content_type_ptr = rdx;
    let mut _path = String::new();
    let mut _content_type = String::new();
    if path_ptr > 0 {
        _path = maps.read_wide_string(path_ptr);
    }
    if content_type_ptr > 0 {
        _content_type = maps.read_wide_string(content_type_ptr);
    }
    1
}

/// The call `PathFindSuffixArrayA(path, suffixes)` of the emulated process,
/// with its arguments as the first two argument registers hold them: reads
/// both strings where their pointers are not null and answers the suffix
/// array pointer.
#[allow(non_snake_case)]
pub fn PathFindSuffixArrayA(maps: &Maps, rcx: u64, rdx: u64) -> (rax: u64)
    requires
        maps.wf(),
        rcx != 0 ==> maps.scan_ends(rcx),
        rdx != 0 ==> maps.scan_ends(rdx),
    ensures
        rax == rdx,
{
    let path_ptr = rcx;
    let suffixes_ptr = rdx;
    let mut _path = String::new();
    let mut _suffixes = String::new();
    if path_ptr > 0 {
        _path = maps.read_string(path_ptr);
    }
    if suffixes_ptr > 0 {
        _suffixes = maps.read_string(suffixes_ptr);
    }
    rdx
}


/// Carries out the shlwapi call named `api` of the emulated process, with
/// the first two argument registers as the caller left them: gives the value
/// for the result register (as `PathIsContentTypeW` and
/// `PathFindSuffixArrayA` do), or `None` for a name it does not carry out.
pub fn shlwapi_call(api: &str, maps: &Maps, rcx: u64, rdx: u64) -> (r: Option<u64>)
    requires
        maps.wf(),
        api@ == "PathIsContentTypeW"@ ==> wide_arg_readable(*maps, rcx) && wide_arg_readable(*maps, rdx),
        api@ == "PathFindSuffixArrayA"@ ==> (rcx != 0 ==> maps.scan_ends(rcx)) && (rdx != 0 ==> maps.scan_ends(
            rdx,
        )),
    ensures
        api@ == "PathIsContentTypeW"@ ==> r == Some(1u64),
        api@ == "PathFindSuffixArrayA"@ ==> r == Some(rdx),
        api@ != "PathIsContentTypeW"@ && api@ != "PathFindSuffixArrayA"@ ==> r is None,
{
    proof {
        reveal_strlit("PathIsContentTypeW");
        reveal_strlit("PathFindSuffixArrayA");
        assert("PathIsContentTypeW"@.len() != "PathFindSuffixArrayA"@.len());
    }
    if same_text(api, "PathIsContentTypeW") {
        Some(PathIsContentTypeW(maps, rcx, rdx))
    } else if same_text(api, "PathFindSuffixArrayA") {
        Some(PathFindSuffixArrayA(maps, rcx, rdx))
    } else {
        None
    }
}

} // verus!
