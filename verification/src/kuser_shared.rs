use vstd::prelude::*;
use crate::maps::Maps;
use crate::maps::mem64::{le_bytes, splice};

verus! {

/// The alternative architecture a system is built for.
#[derive(Clone, Copy)]
pub enum AlternativeArchitectureType {
    StandardDesign,
    Nec98x86,
    EndAlternatives,
}

impl AlternativeArchitectureType {
    /// The number the shared data block stores for the kind.
    pub fn value(&self) -> (r: u32)
        ensures
            r == match self {
                AlternativeArchitectureType::StandardDesign => 0u32,
                AlternativeArchitectureType::Nec98x86 => 1u32,
                AlternativeArchitectureType::EndAlternatives => 2u32,
            },
    {
        match self {
            AlternativeArchitectureType::StandardDesign => 0,
            AlternativeArchitectureType::Nec98x86 => 1,
            AlternativeArchitectureType::EndAlternatives => 2,
        }
    }
}

/// The product type of the system.
#[derive(Clone, Copy)]
pub enum NtProductType {
    WinNt,
    LanManNt,
    Server,
}

impl NtProductType {
    /// The number the shared data block stores for the type, from 1 on.
    pub fn value(&self) -> (r: u32)
        ensures
            r == match self {
                NtProductType::WinNt => 1u32,
                NtProductType::LanManNt => 2u32,
                NtProductType::Server => 3u32,
            },
    {
        match self {
            NtProductType::WinNt => 1,
            NtProductType::LanManNt => 2,
            NtProductType::Server => 3,
        }
    }
}

/// A system time as the shared data block holds it: the low part and the
/// high part twice, for readers that race the writer.
#[allow(non_snake_case)]
#[derive(Clone, Copy)]
pub struct KsystemTime {
    pub LowPart: u32,
    pub High1Time: i32,
    pub High2Time: i32,
}

/// The words that overlay the tick count.
#[allow(non_snake_case)]
#[derive(Clone, Copy)]
pub struct OverlayStruct {
    pub ReservedTickCountOverlay: [u32; 3],
    pub TickCountPad: [u32; 1],
}

/// The bytes of the performance counter data.
#[allow(non_snake_case)]
#[derive(Clone, Copy)]
pub struct KusdQpcDataAnon {
    pub QpcBypassEnabled: u8,
    pub QpcReserved: u8,
}

/// Offset and size of one extended state feature.
#[allow(non_snake_case)]
#[derive(Clone, Copy)]
pub struct XstateFeature {
    pub Offset: u32,
    pub Size: u32,
}

/// Where the shared user data block of the emulated system lies.
pub const USER_KUSER_SHARED_ADDR: u64 = 0x7FFE0000;

/// The size of the shared user data block, as its C layout has it.
pub const KUSER_SHARED_DATA_SIZE: usize = 0xa80;

/// The bytes of `s` after the writes `ws` (offset and bytes), in order.
pub open spec fn patch_all(s: Seq<u8>, ws: Seq<(int, Seq<u8>)>) -> Seq<u8>
    decreases ws.len(),
{
    if ws.len() == 0 {
        s
    } else {
        splice(patch_all(s, ws.drop_last()), ws.last().0, ws.last().1)
    }
}

/// The fields of the shared user data block that the emulated system sets,
/// in the order it sets them: offset in the block and little endian bytes.
pub open spec fn kuser_shared_fields() -> Seq<(int, Seq<u8>)> {
    seq![
        (0x4, le_bytes(0xfa00000, 4)),
        (0x8, le_bytes(0x17bd9547, 4)),
        (0xc, le_bytes(0x4b, 4)),
        (0x10, le_bytes(0x4b, 4)),
        (0x14, le_bytes(0x7af9da99, 4)),
        (0x18, le_bytes(0x1db27b9, 4)),
        (0x1c, le_bytes(0x1db27b9, 4)),
        (0x20, le_bytes(0x3c773000, 4)),
        (0x24, le_bytes(0xffffffef, 4)),
        (0x28, le_bytes(0xffffffef, 4)),
        (0x240, le_bytes(0x2, 4)),
        (0x244, le_bytes(0x200000, 4)),
        (0x250, le_bytes(0x13, 8)),
        (0x25c, le_bytes(0x4, 4)),
        (0x260, le_bytes(0x6c51, 4)),
        (0x264, le_bytes(0x1, 4)),
        (0x268, le_bytes(0x1, 1)),
        (0x26a, le_bytes(0x9, 2)),
        (0x26c, le_bytes(0xa, 4)),
        (0x2c4, le_bytes(0xb, 4)),
        (0x2c8, le_bytes(0x1dc26860a9ff300, 8)),
        (0x2d0, le_bytes(0x110, 4)),
        (0x2d5, le_bytes(0xa, 1)),
        (0x2d6, le_bytes(0x64, 2)),
        (0x2dc, le_bytes(0x6, 4)),
        (0x2e0, le_bytes(0x1, 4)),
        (0x2e4, le_bytes(0x1ec1fd3, 4)),
        (0x2e8, le_bytes(0xbf0958, 4)),
        (0x320, le_bytes(0x1f7f05, 8)),
        (0x330, le_bytes(0x1c3471da, 4)),
        (0x338, le_bytes(0x28f4, 8)),
        (0x340, le_bytes(0x2b28586, 8)),
        (0x348, le_bytes(0x4b17cd596c, 8)),
        (0x350, le_bytes(0x4b17cd596c, 8)),
        (0x358, le_bytes(0x8000000000000000, 8)),
        (0x360, le_bytes(0x8000000000000000, 8)),
        (0x368, le_bytes(0x1, 1)),
        (0x369, le_bytes(0x1, 1)),
        (0x36a, le_bytes(0xc, 2)),
        (0x37c, le_bytes(0x1, 4)),
        (0x3a4, le_bytes(0x3, 4)),
        (0x3b0, le_bytes(0x15a5d56406, 8)),
        (0x3c0, le_bytes(0xc, 4)),
        (0x3c4, le_bytes(0x1, 1)),
        (0x3c8, le_bytes(0x1db276e654cb2ff, 8)),
        (0x3d0, le_bytes(0x1db280b8c3b2800, 8)),
        (0x3d8, le_bytes(0x1f, 8)),
        (0x3e0, le_bytes(0xf, 8)),
        (0x3e8, le_bytes(0x3c0, 4)),
        (0x3c6, le_bytes(0x83, 2)),
        (0x3b8, le_bytes(0x159530c4af, 8)),
    ]
}

/// The shared user data block of the emulated system: zeros, with the
/// fields of `kuser_shared_fields` set.
pub open spec fn kuser_shared_image() -> Seq<u8> {
    patch_all(Seq::new(KUSER_SHARED_DATA_SIZE as nat, |i: int| 0u8), kuser_shared_fields())
}

/// Writes the `n` little endian bytes of `v` at offset `off` of the block.
fn put_le(block: &mut Vec<u8>, off: usize, v: u64, n: usize)
    requires
        n <= 8,
        off + n <= old(block)@.len(),
        off + n <= usize::MAX,
    ensures
        final(block)@ == splice(old(block)@, off as int, le_bytes(v as nat, n as nat)),
        final(block)@.len() == old(block)@.len(),
{
    let mut x: u64 = v;
    let mut k: usize = 0;
    let ghost start = block@;
    assert(crate::fpu::f80::pow256(0) == 1);
    while k < n
        invariant
            k <= n <= 8,
            off + n <= start.len(),
            off + n <= usize::MAX,
            block@.len() == start.len(),
            x == v as nat / crate::fpu::f80::pow256(k as nat),
            block@ == splice(start, off as int, le_bytes(v as nat, k as nat)),
        decreases n - k,
    {
        proof {
            crate::fpu::f80::lemma_byte_of_next_pub(v as nat, k as nat);
        }
        block.set(off + k, (x % 256) as u8);
        x = x / 256;
        k = k + 1;
        assert(block@ =~= splice(start, off as int, le_bytes(v as nat, k as nat)));
    }
}

/// One field of the block: the block so far is the zeros after the writes
/// `done`, and is then the zeros after one more.
fn put_field(block: &mut Vec<u8>, Ghost(done): Ghost<Seq<(int, Seq<u8>)>>, off: usize, v: u64, n: usize)
    requires
        n <= 8,
        off + n <= KUSER_SHARED_DATA_SIZE,
        old(block)@.len() == KUSER_SHARED_DATA_SIZE,
        old(block)@ == patch_all(Seq::new(KUSER_SHARED_DATA_SIZE as nat, |i: int| 0u8), done),
    ensures
        final(block)@.len() == KUSER_SHARED_DATA_SIZE,
        final(block)@ == patch_all(
            Seq::new(KUSER_SHARED_DATA_SIZE as nat, |i: int| 0u8),
            done.push((off as int, le_bytes(v as nat, n as nat))),
        ),
{
    put_le(block, off, v, n);
    let ghost d = done.push((off as int, le_bytes(v as nat, n as nat)));
    assert(d.drop_last() =~= done);
}

/// The shared user data block, built field by field.
fn kuser_shared_block() -> (r: Vec<u8>)
    ensures
        r@ == kuser_shared_image(),
        r@.len() == KUSER_SHARED_DATA_SIZE,
{
    let mut block: Vec<u8> = vec![0u8; KUSER_SHARED_DATA_SIZE];
    let ghost mut done: Seq<(int, Seq<u8>)> = Seq::empty();
    assert(block@ =~= patch_all(Seq::new(KUSER_SHARED_DATA_SIZE as nat, |i: int| 0u8), done));
    // TickCountMultiplier
    put_field(&mut block, Ghost(done), 0x4, 0xfa00000, 4);
    proof {
        done = done.push((0x4, le_bytes(0xfa00000, 4)));
    }
    // InterruptTime.LowPart
    put_field(&mut block, Ghost(done), 0x8, 0x17bd9547, 4);
    proof {
        done = done.push((0x8, le_bytes(0x17bd9547, 4)));
    }
    // InterruptTime.High1Time
    put_field(&mut block, Ghost(done), 0xc, 0x4b, 4);
    proof {
        done = done.push((0xc, le_bytes(0x4b, 4)));
    }
    // InterruptTime.High2Time
    put_field(&mut block, Ghost(done), 0x10, 0x4b, 4);
    proof {
        done = done.push((0x10, le_bytes(0x4b, 4)));
    }
    // SystemTime.LowPart
    put_field(&mut block, Ghost(done), 0x14, 0x7af9da99, 4);
    proof {
        done = done.push((0x14, le_bytes(0x7af9da99, 4)));
    }
    // SystemTime.High1Time
    put_field(&mut block, Ghost(done), 0x18, 0x1db27b9, 4);
    proof {
        done = done.push((0x18, le_bytes(0x1db27b9, 4)));
    }
    // SystemTime.High2Time
    put_field(&mut block, Ghost(done), 0x1c, 0x1db27b9, 4);
    proof {
        done = done.push((0x1c, le_bytes(0x1db27b9, 4)));
    }
    // TimeZoneBias.LowPart
    put_field(&mut block, Ghost(done), 0x20, 0x3c773000, 4);
    proof {
        done = done.push((0x20, le_bytes(0x3c773000, 4)));
    }
    // TimeZoneBias.High1Time (-17)
    put_field(&mut block, Ghost(done), 0x24, 0xffffffef, 4);
    proof {
        done = done.push((0x24, le_bytes(0xffffffef, 4)));
    }
    // TimeZoneBias.High2Time (-17)
    put_field(&mut block, Ghost(done), 0x28, 0xffffffef, 4);
    proof {
        done = done.push((0x28, le_bytes(0xffffffef, 4)));
    }
    // TimeZoneId
    put_field(&mut block, Ghost(done), 0x240, 0x2, 4);
    proof {
        done = done.push((0x240, le_bytes(0x2, 4)));
    }
    // LargePageMinimum
    put_field(&mut block, Ghost(done), 0x244, 0x200000, 4);
    proof {
        done = done.push((0x244, le_bytes(0x200000, 4)));
    }
    // RNGSeedVersion
    put_field(&mut block, Ghost(done), 0x250, 0x13, 8);
    proof {
        done = done.push((0x250, le_bytes(0x13, 8)));
    }
    // TimeZoneBiasStamp
    put_field(&mut block, Ghost(done), 0x25c, 0x4, 4);
    proof {
        done = done.push((0x25c, le_bytes(0x4, 4)));
    }
    // NtBuildNumber
    put_field(&mut block, Ghost(done), 0x260, 0x6c51, 4);
    proof {
        done = done.push((0x260, le_bytes(0x6c51, 4)));
    }
    // NtProductType (WinNt)
    let product_type = NtProductType::WinNt.value();
    put_field(&mut block, Ghost(done), 0x264, product_type as u64, 4);
    proof {
        done = done.push((0x264, le_bytes(0x1, 4)));
    }
    // ProductTypeIsValid
    put_field(&mut block, Ghost(done), 0x268, 0x1, 1);
    proof {
        done = done.push((0x268, le_bytes(0x1, 1)));
    }
    // NativeProcessorArchitecture
    put_field(&mut block, Ghost(done), 0x26a, 0x9, 2);
    proof {
        done = done.push((0x26a, le_bytes(0x9, 2)));
    }
    // NtMajorVersion
    put_field(&mut block, Ghost(done), 0x26c, 0xa, 4);
    proof {
        done = done.push((0x26c, le_bytes(0xa, 4)));
    }
    // BootId
    put_field(&mut block, Ghost(done), 0x2c4, 0xb, 4);
    proof {
        done = done.push((0x2c4, le_bytes(0xb, 4)));
    }
    // SystemExpirationDate
    put_field(&mut block, Ghost(done), 0x2c8, 0x1dc26860a9ff300, 8);
    proof {
        done = done.push((0x2c8, le_bytes(0x1dc26860a9ff300, 8)));
    }
    // SuiteMask
    put_field(&mut block, Ghost(done), 0x2d0, 0x110, 4);
    proof {
        done = done.push((0x2d0, le_bytes(0x110, 4)));
    }
    // MitigationPolicies
    put_field(&mut block, Ghost(done), 0x2d5, 0xa, 1);
    proof {
        done = done.push((0x2d5, le_bytes(0xa, 1)));
    }
    // CyclesPerYield
    put_field(&mut block, Ghost(done), 0x2d6, 0x64, 2);
    proof {
        done = done.push((0x2d6, le_bytes(0x64, 2)));
    }
    // DismountCount
    put_field(&mut block, Ghost(done), 0x2dc, 0x6, 4);
    proof {
        done = done.push((0x2dc, le_bytes(0x6, 4)));
    }
    // ComPlusPackage
    put_field(&mut block, Ghost(done), 0x2e0, 0x1, 4);
    proof {
        done = done.push((0x2e0, le_bytes(0x1, 4)));
    }
    // LastSystemRITEventTickCount
    put_field(&mut block, Ghost(done), 0x2e4, 0x1ec1fd3, 4);
    proof {
        done = done.push((0x2e4, le_bytes(0x1ec1fd3, 4)));
    }
    // NumberOfPhysicalPages
    put_field(&mut block, Ghost(done), 0x2e8, 0xbf0958, 4);
    proof {
        done = done.push((0x2e8, le_bytes(0xbf0958, 4)));
    }
    // TickCount
    put_field(&mut block, Ghost(done), 0x320, 0x1f7f05, 8);
    proof {
        done = done.push((0x320, le_bytes(0x1f7f05, 8)));
    }
    // Cookie
    put_field(&mut block, Ghost(done), 0x330, 0x1c3471da, 4);
    proof {
        done = done.push((0x330, le_bytes(0x1c3471da, 4)));
    }
    // ConsoleSessionForegroundProcessId
    put_field(&mut block, Ghost(done), 0x338, 0x28f4, 8);
    proof {
        done = done.push((0x338, le_bytes(0x28f4, 8)));
    }
    // TimeUpdateLock
    put_field(&mut block, Ghost(done), 0x340, 0x2b28586, 8);
    proof {
        done = done.push((0x340, le_bytes(0x2b28586, 8)));
    }
    // BaselineSystemTimeQpc
    put_field(&mut block, Ghost(done), 0x348, 0x4b17cd596c, 8);
    proof {
        done = done.push((0x348, le_bytes(0x4b17cd596c, 8)));
    }
    // BaselineInterruptTimeQpc
    put_field(&mut block, Ghost(done), 0x350, 0x4b17cd596c, 8);
    proof {
        done = done.push((0x350, le_bytes(0x4b17cd596c, 8)));
    }
    // QpcSystemTimeIncrement
    put_field(&mut block, Ghost(done), 0x358, 0x8000000000000000, 8);
    proof {
        done = done.push((0x358, le_bytes(0x8000000000000000, 8)));
    }
    // QpcInterruptTimeIncrement
    put_field(&mut block, Ghost(done), 0x360, 0x8000000000000000, 8);
    proof {
        done = done.push((0x360, le_bytes(0x8000000000000000, 8)));
    }
    // QpcSystemTimeIncrementShift
    put_field(&mut block, Ghost(done), 0x368, 0x1, 1);
    proof {
        done = done.push((0x368, le_bytes(0x1, 1)));
    }
    // QpcInterruptTimeIncrementShift
    put_field(&mut block, Ghost(done), 0x369, 0x1, 1);
    proof {
        done = done.push((0x369, le_bytes(0x1, 1)));
    }
    // UnparkedProcessorCount
    put_field(&mut block, Ghost(done), 0x36a, 0xc, 2);
    proof {
        done = done.push((0x36a, le_bytes(0xc, 2)));
    }
    // TelemetryCoverageRound
    put_field(&mut block, Ghost(done), 0x37c, 0x1, 4);
    proof {
        done = done.push((0x37c, le_bytes(0x1, 4)));
    }
    // LangGenerationCount
    put_field(&mut block, Ghost(done), 0x3a4, 0x3, 4);
    proof {
        done = done.push((0x3a4, le_bytes(0x3, 4)));
    }
    // InterruptTimeBias
    put_field(&mut block, Ghost(done), 0x3b0, 0x15a5d56406, 8);
    proof {
        done = done.push((0x3b0, le_bytes(0x15a5d56406, 8)));
    }
    // ActiveProcessorCount
    put_field(&mut block, Ghost(done), 0x3c0, 0xc, 4);
    proof {
        done = done.push((0x3c0, le_bytes(0xc, 4)));
    }
    // ActiveGroupCount
    put_field(&mut block, Ghost(done), 0x3c4, 0x1, 1);
    proof {
        done = done.push((0x3c4, le_bytes(0x1, 1)));
    }
    // TimeZoneBiasEffectiveStart
    put_field(&mut block, Ghost(done), 0x3c8, 0x1db276e654cb2ff, 8);
    proof {
        done = done.push((0x3c8, le_bytes(0x1db276e654cb2ff, 8)));
    }
    // TimeZoneBiasEffectiveEnd
    put_field(&mut block, Ghost(done), 0x3d0, 0x1db280b8c3b2800, 8);
    proof {
        done = done.push((0x3d0, le_bytes(0x1db280b8c3b2800, 8)));
    }
    // XState.EnabledFeatures
    put_field(&mut block, Ghost(done), 0x3d8, 0x1f, 8);
    proof {
        done = done.push((0x3d8, le_bytes(0x1f, 8)));
    }
    // XState.EnabledVolatileFeatures
    put_field(&mut block, Ghost(done), 0x3e0, 0xf, 8);
    proof {
        done = done.push((0x3e0, le_bytes(0xf, 8)));
    }
    // XState.Size
    put_field(&mut block, Ghost(done), 0x3e8, 0x3c0, 4);
    proof {
        done = done.push((0x3e8, le_bytes(0x3c0, 4)));
    }
    // QpcData
    put_field(&mut block, Ghost(done), 0x3c6, 0x83, 2);
    proof {
        done = done.push((0x3c6, le_bytes(0x83, 2)));
    }
    // QpcBias
    put_field(&mut block, Ghost(done), 0x3b8, 0x159530c4af, 8);
    proof {
        done = done.push((0x3b8, le_bytes(0x159530c4af, 8)));
    }
    assert(done == kuser_shared_fields());
    block
}

/// Maps the shared user data block of the emulated system at its fixed
/// address, in a region of one page named "KuserSharedData", and gives the
/// address. The block is written into the new region itself, so the lookup
/// cache stays as `create_map` left it. Where a zero-size region was based at
/// the address, the base index now names the new region instead, and that
/// region goes unindexed, as `create_map` leaves it.
pub fn init_kuser_shared_data(maps: &mut Maps) -> (r: u64)
    requires
        old(maps).wf(),
        old(maps).region_for(USER_KUSER_SHARED_ADDR) is None,
        !old(maps).names().contains_key("KuserSharedData"@),
    ensures
        r == USER_KUSER_SHARED_ADDR,
        final(maps).names().contains_key("KuserSharedData"@),
        ({
            let k = final(maps).names()[("KuserSharedData"@)];
            &&& !old(maps).regions().contains_key(k)
            &&& final(maps).regions() == old(maps).regions().insert(k, final(maps).regions()[k])
            &&& final(maps).bases() == old(maps).bases().insert(USER_KUSER_SHARED_ADDR, k)
            &&& final(maps).names() == old(maps).names().insert("KuserSharedData"@, k)
            &&& final(maps).regions()[k].name_view() == "KuserSharedData"@
            &&& final(maps).regions()[k].base_view() == USER_KUSER_SHARED_ADDR
            &&& final(maps).regions()[k].bottom_view() == USER_KUSER_SHARED_ADDR + 0x1000
            &&& final(maps).regions()[k].bytes() == kuser_shared_image() + Seq::new(
                (0x1000 - KUSER_SHARED_DATA_SIZE) as nat,
                |i: int| 0u8,
            )
        }),
        !old(maps).bases().contains_key(USER_KUSER_SHARED_ADDR) ==> final(maps).wf(),
{
    let ghost before = *maps;
    let block = kuser_shared_block();
    let created_map = maps.create_map("KuserSharedData", USER_KUSER_SHARED_ADDR, 0x1000);
    match created_map {
        Ok(m) => {
            let ghost m0 = *m;
            assert(m0.holds(USER_KUSER_SHARED_ADDR, block@.len()));
            m.write_bytes(USER_KUSER_SHARED_ADDR, block.as_slice());
            proof {
                assert(m.bytes() =~= kuser_shared_image() + Seq::new(
                    (0x1000 - KUSER_SHARED_DATA_SIZE) as nat,
                    |i: int| 0u8,
                ));
            }
        },
        Err(_) => {
            vstd::pervasive::unreached()
        },
    }
    proof {
        let k = choose|k: usize|
            {
                &&& !before.regions().contains_key(k)
                &&& #[trigger] maps.regions() == before.regions().insert(k, maps.regions()[k])
                &&& maps.bases() == before.bases().insert(USER_KUSER_SHARED_ADDR, k)
                &&& maps.names() == before.names().insert("KuserSharedData"@, k)
            };
        assert(maps.names()["KuserSharedData"@] == k);
        if !before.bases().contains_key(USER_KUSER_SHARED_ADDR) {
            crate::maps::lemma_created_keeps_wf(before, *maps, k, USER_KUSER_SHARED_ADDR, "KuserSharedData"@);
        }
    }
    USER_KUSER_SHARED_ADDR
}

} // verus!
