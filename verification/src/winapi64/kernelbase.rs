use vstd::prelude::*;
use vstd::string::StringExecFns;
use crate::maps::{Maps, push_char, same_text, page_up};
use crate::maps::mem64::le_bytes;
use crate::structures::store_qword;
use crate::maps::mem64::{utf16_decode, utf16_encode, units_le_bytes, valid_utf16};

verus! {

/// The string that an ANSI path argument names: empty for a null pointer,
/// else the characters at the address, one per byte.
pub open spec fn ansi_arg(maps: Maps, p: u64) -> Seq<char> {
    if p == 0 {
        Seq::empty()
    } else {
        maps.scan_chars(p)
    }
}

/// `PathCombineA` writes: the destination is not null and both paths are
/// nonempty.
pub open spec fn combines(maps: Maps, dst: u64, dir: u64, file: u64) -> bool {
    dst != 0 && ansi_arg(maps, dir).len() > 0 && ansi_arg(maps, file).len() > 0
}

/// The path that `PathCombineA` writes: the directory, a backslash and the
/// file.
pub open spec fn combined_path(maps: Maps, dir: u64, file: u64) -> Seq<char> {
    ansi_arg(maps, dir) + seq!['\\'] + ansi_arg(maps, file)
}

/// The call `PathCombineA(dst, dir, file)` of the emulated process, with its
/// arguments as the first three argument registers hold them: reads the
/// directory and file paths where their pointers are not null, and writes
/// `dir\file` at `dst` when `dst` is not null and both paths are nonempty.
/// The result register gets `dst`.
#[allow(non_snake_case)]
pub fn PathCombineA(maps: &mut Maps, dst: u64, dir: u64, file: u64) -> (rax: u64)
    requires
        old(maps).wf(),
        dir != 0 ==> old(maps).scan_ends(dir),
        file != 0 ==> old(maps).scan_ends(file),
        combines(*old(maps), dst, dir, file) ==> old(maps).string_writable(
            dst,
            combined_path(*old(maps), dir, file),
        ),
    ensures
        rax == dst,
        combines(*old(maps), dst, dir, file) ==> old(maps).string_written(
            *final(maps),
            dst,
            combined_path(*old(maps), dir, file),
        ),
        !combines(*old(maps), dst, dir, file) ==> *final(maps) == *old(maps),
        final(maps).wf(),
{
    let mut path1 = String::new();
    let mut path2 = String::new();
    if dir > 0 {
        path1 = maps.read_string(dir);
    }
    if file > 0 {
        path2 = maps.read_string(file);
    }
    if dst != 0 && !path1.as_str().is_empty() && !path2.as_str().is_empty() {
        let mut path = path1.clone();
        push_char(&mut path, '\\');
        path.append(path2.as_str());
        assert(path@ == combined_path(*old(maps), dir, file));
        maps.write_string(dst, path.as_str());
    }
    dst
}

/// The string that a wide path argument names: empty for a null pointer,
/// else the UTF-16 string at the address, decoded.
pub open spec fn wide_arg(maps: Maps, p: u64) -> Seq<char> {
    if p == 0 {
        Seq::empty()
    } else {
        utf16_decode(maps.regions()[maps.region_for(p)->0].wide_string_at(p))
    }
}

/// A wide path argument can be read: null, or a valid UTF-16 string that
/// ends inside the region found for its address.
pub open spec fn wide_arg_readable(maps: Maps, p: u64) -> bool {
    p != 0 ==> {
        &&& maps.region_for(p) is Some
        &&& maps.regions()[maps.region_for(p)->0].wide_string_readable(p)
        &&& valid_utf16(maps.regions()[maps.region_for(p)->0].wide_string_at(p))
    }
}

/// `PathCombineW` writes: the destination is not null and both paths are
/// nonempty.
pub open spec fn combines_wide(maps: Maps, dst: u64, dir: u64, file: u64) -> bool {
    dst != 0 && wide_arg(maps, dir).len() > 0 && wide_arg(maps, file).len() > 0
}

/// The path that `PathCombineW` writes: the directory, a backslash and the
/// file.
pub open spec fn combined_wide_path(maps: Maps, dir: u64, file: u64) -> Seq<char> {
    wide_arg(maps, dir) + seq!['\\'] + wide_arg(maps, file)
}

/// The call `PathCombineW(dst, dir, file)` of the emulated process (see
/// `PathCombineA`), with UTF-16 strings: the path `dir\file` is written at
/// `dst` as UTF-16 units, without a terminator.
#[allow(non_snake_case)]
pub fn PathCombineW(maps: &mut Maps, dst: u64, dir: u64, file: u64) -> (rax: u64)
    requires
        old(maps).wf(),
        wide_arg_readable(*old(maps), dir),
        wide_arg_readable(*old(maps), file),
        combines_wide(*old(maps), dst, dir, file) ==> old(maps).fits(
            dst,
            2 * utf16_encode(combined_wide_path(*old(maps), dir, file)).len(),
        ),
    ensures
        rax == dst,
        combines_wide(*old(maps), dst, dir, file) ==> {
            &&& old(maps).stored(
                *final(maps),
                dst,
                units_le_bytes(utf16_encode(combined_wide_path(*old(maps), dir, file))),
            )
            &&& old(maps).looked_up(*final(maps), dst)
        },
        !combines_wide(*old(maps), dst, dir, file) ==> *final(maps) == *old(maps),
        final(maps).wf(),
{
    let mut path1 = String::new();
    let mut path2 = String::new();
    if dir > 0 {
        path1 = maps.read_wide_string(dir);
    }
    if file > 0 {
        path2 = maps.read_wide_string(file);
    }
    if dst != 0 && !path1.as_str().is_empty() && !path2.as_str().is_empty() {
        let mut path = path1.clone();
        push_char(&mut path, '\\');
        path.append(path2.as_str());
        assert(path@ == combined_wide_path(*old(maps), dir, file));
        maps.write_wide_string(dst, path.as_str());
    }
    dst
}

/// The call `IsCharAlphaNumericA(c)` of the emulated process, with `c` as
/// the first argument register holds it: 1 when its low byte is an ASCII
/// letter or digit, else 0.
#[allow(non_snake_case)]
pub fn IsCharAlphaNumericA(rcx: u64) -> (rax: u64)
    ensures
        rax == (if is_ascii_alphanumeric((rcx % 256) as u8) {
            1u64
        } else {
            0u64
        }),
{
    let c = #[verifier::truncate] (rcx as u8);
    assert((rcx as u8) == rcx % 256) by (bit_vector);
    if (0x30 <= c && c <= 0x39) || (0x41 <= c && c <= 0x5a) || (0x61 <= c && c <= 0x7a) {
        1
    } else {
        0
    }
}

/// An ASCII letter or digit.
pub open spec fn is_ascii_alphanumeric(b: u8) -> bool {
    ||| 0x30 <= b <= 0x39
    ||| 0x41 <= b <= 0x5a
    ||| 0x61 <= b <= 0x7a
}

/// The call `GetTokenInformation` of the emulated process, with the stack
/// pointer as the caller left it: reads the return length pointer from the
/// stack (which must be mapped, unless in banzai mode) and succeeds with 1.
#[allow(non_snake_case)]
pub fn GetTokenInformation(maps: &Maps, rsp: u64) -> (rax: u64)
    requires
        maps.wf(),
        rsp + 0x20 + 7 <= u64::MAX,
        maps.region_for((rsp + 0x20) as u64) is Some ==> maps.fits((rsp + 0x20) as u64, 8),
        maps.region_for((rsp + 0x20) as u64) is None ==> maps.banzai_view(),
    ensures
        rax == 1,
{
    let _return_length = maps.read_qword(rsp + 0x20);
    1
}


/// The kernelbase calls that `kernelbase_call` carries out.
pub open spec fn kernelbase_handles(api: Seq<char>) -> bool {
    ||| api == "PathCombineA"@
    ||| api == "PathCombineW"@
    ||| api == "IsCharAlphaNumericA"@
    ||| api == "GetTokenInformation"@
    ||| api == "GetFileVersionInfoSizeA"@
    ||| api == "GetFileVersionInfoA"@
    ||| api == "VerQueryValueA"@
    ||| api == "_initterm_e"@
    ||| api == "_initterm"@
    ||| api == "atexit"@
}

/// The block of 0x100 bytes that `VerQueryValueA` allocates: the first room
/// from the lowest address up to `alloc_top` (see `Maps::_alloc`).
pub open spec fn version_block(maps: Maps, alloc_top: u64) -> Option<Option<u64>> {
    maps.alloc_scan(None, page_up(1), Maps::alloc_size(0x100), 1, alloc_top, false)
}

/// Carries out the kernelbase call named `api` of the emulated process,
/// with the first three argument registers and the stack pointer as the
/// caller left them; `alloc_top` bounds the allocator's search (the library
/// base of the emulated system). Gives the value for the result register,
/// or `None`, with the address space unchanged, for a name it does not
/// carry out:
/// - `PathCombineA`, `PathCombineW`, `IsCharAlphaNumericA`,
///   `GetTokenInformation`: as the functions of these names;
/// - `GetFileVersionInfoSizeA`: 0x100; `GetFileVersionInfoA`: 1;
/// - `VerQueryValueA`: allocates 0x100 bytes, writes their address at the
///   first argument and 0x100 at the third, and answers 1;
/// - `_initterm_e`, `_initterm`, `atexit`: 0.
/// `exit` and `_exit` end the emulation, and are left to the caller.
pub fn kernelbase_call(
    api: &str,
    maps: &mut Maps,
    rcx: u64,
    rdx: u64,
    r8: u64,
    rsp: u64,
    alloc_top: u64,
) -> (r: Option<u64>)
    requires
        old(maps).wf(),
        api@ != "exit"@,
        api@ != "_exit"@,
        api@ == "PathCombineA"@ ==> {
            &&& rdx != 0 ==> old(maps).scan_ends(rdx)
            &&& r8 != 0 ==> old(maps).scan_ends(r8)
            &&& combines(*old(maps), rcx, rdx, r8) ==> old(maps).string_writable(
                rcx,
                combined_path(*old(maps), rdx, r8),
            )
        },
        api@ == "PathCombineW"@ ==> {
            &&& wide_arg_readable(*old(maps), rdx)
            &&& wide_arg_readable(*old(maps), r8)
            &&& combines_wide(*old(maps), rcx, rdx, r8) ==> old(maps).fits(
                rcx,
                2 * utf16_encode(combined_wide_path(*old(maps), rdx, r8)).len(),
            )
        },
        api@ == "GetTokenInformation"@ ==> {
            &&& rsp + 0x20 + 7 <= u64::MAX
            &&& old(maps).region_for((rsp + 0x20) as u64) is Some ==> old(maps).fits((rsp + 0x20) as u64, 8)
            &&& old(maps).region_for((rsp + 0x20) as u64) is None ==> old(maps).banzai_view()
        },
        api@ == "VerQueryValueA"@ ==> {
            &&& version_block(*old(maps), alloc_top) matches Some(Some(_))
            &&& rcx + 8 <= u64::MAX
            &&& r8 + 8 <= u64::MAX
            &&& !old(maps).banzai_view() ==> old(maps).fits_anyhow(rcx, 8) && old(maps).fits_anyhow(r8, 8)
        },
    ensures
        r is Some <==> kernelbase_handles(api@),
        final(maps).wf(),
        api@ == "PathCombineA"@ ==> r == Some(rcx) && (combines(*old(maps), rcx, rdx, r8)
            ==> old(maps).string_written(*final(maps), rcx, combined_path(*old(maps), rdx, r8)))
            && (!combines(*old(maps), rcx, rdx, r8) ==> *final(maps) == *old(maps)),
        api@ == "PathCombineW"@ ==> r == Some(rcx) && (combines_wide(*old(maps), rcx, rdx, r8) ==> {
            &&& old(maps).stored(
                *final(maps),
                rcx,
                units_le_bytes(utf16_encode(combined_wide_path(*old(maps), rdx, r8))),
            )
            &&& old(maps).looked_up(*final(maps), rcx)
        }) && (!combines_wide(*old(maps), rcx, rdx, r8) ==> *final(maps) == *old(maps)),
        api@ == "IsCharAlphaNumericA"@ ==> r == Some(
            if is_ascii_alphanumeric((rcx % 256) as u8) {
                1u64
            } else {
                0u64
            },
        ) && *final(maps) == *old(maps),
        api@ == "GetTokenInformation"@ ==> r == Some(1u64) && *final(maps) == *old(maps),
        api@ == "GetFileVersionInfoSizeA"@ ==> r == Some(0x100u64) && *final(maps) == *old(maps),
        api@ == "GetFileVersionInfoA"@ ==> r == Some(1u64) && *final(maps) == *old(maps),
        api@ == "VerQueryValueA"@ ==> r == Some(1u64) && old(maps).wrote_values(
            *final(maps),
            seq![
                (rcx, le_bytes(version_block(*old(maps), alloc_top)->0->0 as nat, 8)),
                (r8, le_bytes(0x100, 8)),
            ],
        ),
        api@ == "_initterm_e"@ || api@ == "_initterm"@ || api@ == "atexit"@ ==> r == Some(0u64)
            && *final(maps) == *old(maps),
        !kernelbase_handles(api@) ==> *final(maps) == *old(maps),
{
    proof {
        reveal_strlit("PathCombineA");
        reveal_strlit("PathCombineW");
        reveal_strlit("IsCharAlphaNumericA");
        reveal_strlit("GetTokenInformation");
        reveal_strlit("GetFileVersionInfoSizeA");
        reveal_strlit("GetFileVersionInfoA");
        reveal_strlit("VerQueryValueA");
        reveal_strlit("_initterm_e");
        reveal_strlit("_initterm");
        reveal_strlit("atexit");
        assert("PathCombineA"@[11] != "PathCombineW"@[11]);
        assert("PathCombineA"@.len() != "IsCharAlphaNumericA"@.len());
        assert("PathCombineA"@.len() != "GetTokenInformation"@.len());
        assert("PathCombineA"@.len() != "GetFileVersionInfoSizeA"@.len());
        assert("PathCombineA"@.len() != "GetFileVersionInfoA"@.len());
        assert("PathCombineA"@.len() != "VerQueryValueA"@.len());
        assert("PathCombineA"@.len() != "_initterm_e"@.len());
        assert("PathCombineA"@.len() != "_initterm"@.len());
        assert("PathCombineA"@.len() != "atexit"@.len());
        assert("PathCombineW"@.len() != "IsCharAlphaNumericA"@.len());
        assert("PathCombineW"@.len() != "GetTokenInformation"@.len());
        assert("PathCombineW"@.len() != "GetFileVersionInfoSizeA"@.len());
        assert("PathCombineW"@.len() != "GetFileVersionInfoA"@.len());
        assert("PathCombineW"@.len() != "VerQueryValueA"@.len());
        assert("PathCombineW"@.len() != "_initterm_e"@.len());
        assert("PathCombineW"@.len() != "_initterm"@.len());
        assert("PathCombineW"@.len() != "atexit"@.len());
        assert("IsCharAlphaNumericA"@[0] != "GetTokenInformation"@[0]);
        assert("IsCharAlphaNumericA"@.len() != "GetFileVersionInfoSizeA"@.len());
        assert("IsCharAlphaNumericA"@[0] != "GetFileVersionInfoA"@[0]);
        assert("IsCharAlphaNumericA"@.len() != "VerQueryValueA"@.len());
        assert("IsCharAlphaNumericA"@.len() != "_initterm_e"@.len());
        assert("IsCharAlphaNumericA"@.len() != "_initterm"@.len());
        assert("IsCharAlphaNumericA"@.len() != "atexit"@.len());
        assert("GetTokenInformation"@.len() != "GetFileVersionInfoSizeA"@.len());
        assert("GetTokenInformation"@[3] != "GetFileVersionInfoA"@[3]);
        assert("GetTokenInformation"@.len() != "VerQueryValueA"@.len());
        assert("GetTokenInformation"@.len() != "_initterm_e"@.len());
        assert("GetTokenInformation"@.len() != "_initterm"@.len());
        assert("GetTokenInformation"@.len() != "atexit"@.len());
        assert("GetFileVersionInfoSizeA"@.len() != "GetFileVersionInfoA"@.len());
        assert("GetFileVersionInfoSizeA"@.len() != "VerQueryValueA"@.len());
        assert("GetFileVersionInfoSizeA"@.len() != "_initterm_e"@.len());
        assert("GetFileVersionInfoSizeA"@.len() != "_initterm"@.len());
        assert("GetFileVersionInfoSizeA"@.len() != "atexit"@.len());
        assert("GetFileVersionInfoA"@.len() != "VerQueryValueA"@.len());
        assert("GetFileVersionInfoA"@.len() != "_initterm_e"@.len());
        assert("GetFileVersionInfoA"@.len() != "_initterm"@.len());
        assert("GetFileVersionInfoA"@.len() != "atexit"@.len());
        assert("VerQueryValueA"@.len() != "_initterm_e"@.len());
        assert("VerQueryValueA"@.len() != "_initterm"@.len());
        assert("VerQueryValueA"@.len() != "atexit"@.len());
        assert("_initterm_e"@.len() != "_initterm"@.len());
        assert("_initterm_e"@.len() != "atexit"@.len());
        assert("_initterm"@.len() != "atexit"@.len());
    }
    if same_text(api, "PathCombineA") {
        Some(PathCombineA(maps, rcx, rdx, r8))
    } else if same_text(api, "PathCombineW") {
        Some(PathCombineW(maps, rcx, rdx, r8))
    } else if same_text(api, "IsCharAlphaNumericA") {
        Some(IsCharAlphaNumericA(rcx))
    } else if same_text(api, "GetTokenInformation") {
        Some(GetTokenInformation(maps, rsp))
    } else if same_text(api, "GetFileVersionInfoSizeA") {
        Some(0x100)
    } else if same_text(api, "GetFileVersionInfoA") {
        Some(1)
    } else if same_text(api, "VerQueryValueA") {
        let base = match maps._alloc(0x100, 1, alloc_top, false) {
            Some(b) => b,
            None => vstd::pervasive::unreached(),
        };
        let ghost m0 = *maps;
        let ghost mut done: Seq<(u64, Seq<u8>)> = Seq::empty();
        proof {
            m0.lemma_run_start();
        }
        store_qword(maps, Ghost(m0), Ghost(done), rcx, base);
        proof {
            done = done.push((rcx, le_bytes(base as nat, 8)));
        }
        store_qword(maps, Ghost(m0), Ghost(done), r8, 0x100);
        proof {
            done = done.push((r8, le_bytes(0x100, 8)));
            assert(done =~= seq![(rcx, le_bytes(base as nat, 8)), (r8, le_bytes(0x100, 8))]);
            m0.lemma_same_layout_wf(*maps);
        }
        Some(1)
    } else if same_text(api, "_initterm_e") || same_text(api, "_initterm") || same_text(api, "atexit") {
        Some(0)
    } else {
        None
    }
}

} // verus!
