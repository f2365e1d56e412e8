use vstd::prelude::*;
use vstd::string::StringExecFns;
use vstd::utf8::{valid_utf8, decode_utf8, encode_utf8};
use crate::fpu::f80::{le_value, byte_of, pow256, lemma_le_value_of_bytes};

verus! {

// ---------------------------------------------------------------------------
// Little endian byte sequences.
// ---------------------------------------------------------------------------

/// The `n` little endian bytes of `v`.
pub open spec fn le_bytes(v: nat, n: nat) -> Seq<u8> {
    Seq::new(n, |j: int| byte_of(v, j as nat))
}

/// `s` with the bytes from index `i` on replaced by `b`.
pub open spec fn splice(s: Seq<u8>, i: int, b: Seq<u8>) -> Seq<u8> {
    s.subrange(0, i) + b + s.subrange(i + b.len(), s.len() as int)
}

/// The number of bytes before the first zero byte from index `i`, at most
/// `limit`, counting only bytes inside the sequence.
pub open spec fn c_string_len(s: Seq<u8>, i: int, limit: nat) -> nat
    decreases limit,
{
    if limit == 0 || i < 0 || i >= s.len() || s[i] == 0 {
        0
    } else {
        1 + c_string_len(s, i + 1, (limit - 1) as nat)
    }
}

/// The number of nonzero 16 bit little endian units before the first zero
/// unit from index `i`, at most `limit`, counting only whole units inside
/// the sequence.
pub open spec fn wide_string_len(s: Seq<u8>, i: int, limit: nat) -> nat
    decreases limit,
{
    if limit == 0 || i < 0 || i + 2 > s.len() || (s[i] == 0 && s[i + 1] == 0) {
        0
    } else {
        1 + wide_string_len(s, i + 2, (limit - 1) as nat)
    }
}

/// The 16 bit little endian units from index `i` on.
pub open spec fn wide_units(s: Seq<u8>, i: int, n: nat) -> Seq<u16> {
    Seq::new(n, |k: int| (s[i + 2 * k] as int + 256 * s[i + 2 * k + 1] as int) as u16)
}

/// The longest string, in bytes, that a read scans for its terminator.
pub const MAX_SIZE_STR: u64 = 1_000_000;

/// The most 16 bit units that a wide string read scans.
pub const MAX_WIDE_UNITS: u64 = 500_000;

/// The little endian bytes of 16 bit units.
pub open spec fn units_le_bytes(u: Seq<u16>) -> Seq<u8> {
    Seq::new(2 * u.len(), |j: int| if j % 2 == 0 { (u[j / 2] % 256) as u8 } else { (u[j / 2] / 256) as u8 })
}

/// The UTF-16 units of one character: itself up to U+FFFF, a surrogate
/// pair above.
pub open spec fn char_utf16(c: char) -> Seq<u16> {
    let v = c as u32;
    if v <= 0xffff {
        seq![v as u16]
    } else {
        let w = v - 0x10000;
        seq![(0xd800 + w / 1024) as u16, (0xdc00 + w % 1024) as u16]
    }
}

/// The UTF-16 encoding of a string.
pub open spec fn utf16_encode(s: Seq<char>) -> Seq<u16>
    decreases s.len(),
{
    if s.len() == 0 {
        Seq::empty()
    } else {
        char_utf16(s[0]) + utf16_encode(s.drop_first())
    }
}

pub open spec fn is_high_surrogate(u: u16) -> bool {
    0xd800 <= u < 0xdc00
}

pub open spec fn is_low_surrogate(u: u16) -> bool {
    0xdc00 <= u < 0xe000
}

/// Every high surrogate is followed by a low one, and no low surrogate
/// stands alone.
pub open spec fn valid_utf16(u: Seq<u16>) -> bool
    decreases u.len(),
{
    if u.len() == 0 {
        true
    } else if is_high_surrogate(u[0]) {
        u.len() >= 2 && is_low_surrogate(u[1]) && valid_utf16(u.skip(2))
    } else if is_low_surrogate(u[0]) {
        false
    } else {
        valid_utf16(u.skip(1))
    }
}

/// The characters that valid UTF-16 units encode.
pub open spec fn utf16_decode(u: Seq<u16>) -> Seq<char>
    decreases u.len(),
{
    if u.len() == 0 {
        Seq::empty()
    } else if is_high_surrogate(u[0]) && u.len() >= 2 {
        seq![((0x10000 + (u[0] - 0xd800) * 1024 + (u[1] - 0xdc00)) as u32) as char] + utf16_decode(
            u.skip(2),
        )
    } else {
        seq![(u[0] as u32) as char] + utf16_decode(u.skip(1))
    }
}

/// `str::encode_utf16`: the UTF-16 encoding of the string.
#[verifier::external_body]
fn encode_utf16(s: &str) -> (r: Vec<u16>)
    ensures
        r@ == utf16_encode(s@),
{
    s.encode_utf16().collect()
}

/// `String::from_utf16`: the string that the units encode, or `None` when
/// they hold an unpaired surrogate.
#[verifier::external_body]
fn string_from_utf16(units: &[u16]) -> (r: Option<String>)
    ensures
        r is Some <==> valid_utf16(units@),
        r matches Some(s) ==> s@ == utf16_decode(units@),
{
    String::from_utf16(units).ok()
}

/// `String::from_utf8`: the string whose UTF-8 encoding the bytes are, or
/// `None` when they are not valid UTF-8.
#[verifier::external_body]
fn string_from_utf8(bytes: Vec<u8>) -> (r: Option<String>)
    ensures
        r is Some <==> valid_utf8(bytes@),
        r matches Some(s) ==> s@ == decode_utf8(bytes@),
{
    String::from_utf8(bytes).ok()
}

/// The MD5 digest of a byte sequence.
pub uninterp spec fn md5_of(data: Seq<u8>) -> Seq<u8>;

/// `md5::compute`: the 16 byte MD5 digest of the data.
#[verifier::external_body]
fn md5_digest(data: &[u8]) -> (r: [u8; 16])
    ensures
        r@ == md5_of(data@),
{
    md5::compute(data).0
}

/// A named region of emulated memory: bytes from `base_addr` on, with
/// `bottom_addr` the first address past its end.
pub struct Mem64 {
    mem_name: String,
    base_addr: u64,
    bottom_addr: u64,
    mem: Vec<u8>,
}

/// The little endian value of the `n` bytes of `v` is `v`, when `v` fits
/// in them.
pub proof fn lemma_le_bytes_value(v: nat, n: nat)
    requires
        v < pow256(n),
    ensures
        le_value(le_bytes(v, n)) == v,
        le_bytes(v, n).len() == n,
{
    lemma_le_value_of_bytes(v, n);
    vstd::arithmetic::div_mod::lemma_small_mod(v, pow256(n));
}

/// The writes of `ws` from index `i` on lie one after the other: each ends
/// at or before the address where the next begins.
pub open spec fn writes_ordered(ws: Seq<(u64, Seq<u8>)>, i: nat) -> bool
    decreases ws.len() - i,
{
    if i + 1 >= ws.len() {
        true
    } else {
        ws[i as int].0 + ws[i as int].1.len() <= ws[i + 1int].0 && writes_ordered(ws, i + 1)
    }
}

/// In an ordered run, an earlier write ends at or before a later one begins.
pub proof fn lemma_writes_apart(ws: Seq<(u64, Seq<u8>)>, i: nat, a: int, b: int)
    requires
        writes_ordered(ws, i),
        i <= a < b < ws.len(),
    ensures
        ws[a].0 + ws[a].1.len() <= ws[b].0,
    decreases ws.len() - i,
{
    if a == i {
        if b > i + 1 {
            lemma_writes_apart(ws, i + 1, i + 1int, b);
        }
    } else {
        lemma_writes_apart(ws, i + 1, a, b);
    }
}

impl Mem64 {
    /// The region's name.
    pub closed spec fn name_view(&self) -> Seq<char> {
        self.mem_name@
    }

    /// The first address of the region.
    pub closed spec fn base_view(&self) -> u64 {
        self.base_addr
    }

    /// The first address past the region.
    pub closed spec fn bottom_view(&self) -> u64 {
        self.bottom_addr
    }

    /// The region's bytes.
    pub closed spec fn bytes(&self) -> Seq<u8> {
        self.mem@
    }

    /// The offset of `addr` in the region's bytes.
    pub open spec fn offset(&self, addr: u64) -> int {
        addr - self.base_view()
    }

    /// `n` bytes from `addr` lie in the region's bytes.
    pub open spec fn holds(&self, addr: u64, n: nat) -> bool {
        self.base_view() <= addr && self.offset(addr) + n <= self.bytes().len()
    }

    /// The little endian value of the `n` bytes at `addr`.
    pub open spec fn value_at(&self, addr: u64, n: nat) -> nat {
        le_value(self.bytes().subrange(self.offset(addr), self.offset(addr) + n))
    }

    /// `new` is `self` with the bytes at `addr` replaced by `b`.
    pub open spec fn wrote(&self, new: Mem64, addr: u64, b: Seq<u8>) -> bool {
        &&& new.bytes() == splice(self.bytes(), self.offset(addr), b)
        &&& new.name_view() == self.name_view()
        &&& new.base_view() == self.base_view()
        &&& new.bottom_view() == self.bottom_view()
    }

    /// The bytes after the writes `ws` (address and bytes), one after the
    /// other.
    pub open spec fn patched(&self, ws: Seq<(u64, Seq<u8>)>) -> Seq<u8>
        decreases ws.len(),
    {
        if ws.len() == 0 {
            self.bytes()
        } else {
            splice(self.patched(ws.drop_last()), self.offset(ws.last().0), ws.last().1)
        }
    }

    /// `new` is `self` after the writes `ws`, one after the other.
    pub open spec fn wrote_all(&self, new: Mem64, ws: Seq<(u64, Seq<u8>)>) -> bool {
        &&& new.bytes() == self.patched(ws)
        &&& new.name_view() == self.name_view()
        &&& new.base_view() == self.base_view()
        &&& new.bottom_view() == self.bottom_view()
    }

    /// One more write in a run: the run is one longer and the bytes keep
    /// their number.
    pub proof fn lemma_field_put(&self, prev: Mem64, cur: Mem64, done: Seq<(u64, Seq<u8>)>, a: u64, b: Seq<u8>)
        requires
            self.wrote_all(prev, done),
            prev.bytes().len() == self.bytes().len(),
            self.holds(a, b.len()),
            prev.wrote(cur, a, b),
        ensures
            self.wrote_all(cur, done.push((a, b))),
            cur.bytes().len() == self.bytes().len(),
    {
        let vs = done.push((a, b));
        assert(vs.drop_last() =~= done);
    }

    /// After a run of writes that each lie in the region, the bytes keep
    /// their number, and the bytes of a write that no later write overlaps
    /// read back as written.
    pub proof fn lemma_patched_read(&self, ws: Seq<(u64, Seq<u8>)>, j: int)
        requires
            forall|i: int| 0 <= i < ws.len() ==> #[trigger] self.holds(ws[i].0, ws[i].1.len()),
            0 <= j < ws.len(),
            forall|i: int|
                j < i < ws.len() ==> #[trigger] self.offset(ws[i].0) + ws[i].1.len() <= self.offset(ws[j].0)
                    || self.offset(ws[j].0) + ws[j].1.len() <= self.offset(ws[i].0),
        ensures
            self.patched(ws).len() == self.bytes().len(),
            self.patched(ws).subrange(self.offset(ws[j].0), self.offset(ws[j].0) + ws[j].1.len()) == ws[j].1,
        decreases ws.len(),
    {
        let prev = ws.drop_last();
        let last = ws.last();
        assert(self.holds(last.0, last.1.len()));
        if j == ws.len() - 1 {
            self.lemma_patched_len(prev);
            assert(self.patched(ws).subrange(self.offset(last.0), self.offset(last.0) + last.1.len()) =~= last.1);
        } else {
            assert forall|i: int| 0 <= i < prev.len() implies #[trigger] self.holds(prev[i].0, prev[i].1.len()) by {
                assert(prev[i] == ws[i]);
            }
            assert forall|i: int| j < i < prev.len() implies #[trigger] self.offset(prev[i].0) + prev[i].1.len()
                <= self.offset(prev[j].0) || self.offset(prev[j].0) + prev[j].1.len() <= self.offset(prev[i].0) by {
                assert(prev[i] == ws[i]);
                assert(self.offset(ws[i].0) + ws[i].1.len() <= self.offset(ws[j].0) || self.offset(ws[j].0)
                    + ws[j].1.len() <= self.offset(ws[i].0));
            }
            self.lemma_patched_read(prev, j);
            self.lemma_patched_len(prev);
            assert(prev[j] == ws[j]);
            let p = self.patched(prev);
            let o = self.offset(ws[j].0);
            let l = ws[j].1.len();
            assert(self.holds(ws[j].0, ws[j].1.len()));
            let lo = self.offset(last.0);
            let lb = last.1;
            assert(self.patched(ws) == splice(p, lo, lb));
            assert(0 <= lo && lo + lb.len() <= p.len());
            let a = p.subrange(0, lo);
            let c = p.subrange(lo + lb.len(), p.len() as int);
            assert forall|k: int| o <= k < o + l implies #[trigger] self.patched(ws)[k] == p[k] by {
                if k < lo {
                    assert((a + lb + c)[k] == a[k]);
                } else {
                    assert(k >= lo + lb.len());
                    assert((a + lb + c)[k] == c[k - lo - lb.len()]);
                }
            }
            assert(self.offset(last.0) + last.1.len() <= self.offset(ws[j].0) || self.offset(ws[j].0)
                + ws[j].1.len() <= self.offset(last.0));
            assert(self.patched(ws).subrange(self.offset(ws[j].0), self.offset(ws[j].0) + ws[j].1.len())
                =~= self.patched(prev).subrange(self.offset(ws[j].0), self.offset(ws[j].0) + ws[j].1.len()));
        }
    }

    /// A run of writes that each lie in the region keeps the number of bytes.
    pub proof fn lemma_patched_len(&self, ws: Seq<(u64, Seq<u8>)>)
        requires
            forall|i: int| 0 <= i < ws.len() ==> #[trigger] self.holds(ws[i].0, ws[i].1.len()),
        ensures
            self.patched(ws).len() == self.bytes().len(),
        decreases ws.len(),
    {
        if ws.len() > 0 {
            let prev = ws.drop_last();
            assert forall|i: int| 0 <= i < prev.len() implies #[trigger] self.holds(prev[i].0, prev[i].1.len()) by {
                assert(prev[i] == ws[i]);
            }
            self.lemma_patched_len(prev);
            assert(self.holds(ws.last().0, ws.last().1.len()));
        }
    }

    /// The value that a write of the `n` little endian bytes of `v` left,
    /// when no later write of the run overlaps it, reads back as `v`.
    pub proof fn lemma_patched_value(&self, new: Mem64, ws: Seq<(u64, Seq<u8>)>, j: int, v: nat, n: nat)
        requires
            self.wrote_all(new, ws),
            forall|i: int| 0 <= i < ws.len() ==> #[trigger] self.holds(ws[i].0, ws[i].1.len()),
            0 <= j < ws.len(),
            forall|i: int|
                j < i < ws.len() ==> #[trigger] self.offset(ws[i].0) + ws[i].1.len() <= self.offset(ws[j].0)
                    || self.offset(ws[j].0) + ws[j].1.len() <= self.offset(ws[i].0),
            ws[j].1 == le_bytes(v, n),
            v < pow256(n),
        ensures
            new.holds(ws[j].0, n),
            new.value_at(ws[j].0, n) == v,
    {
        self.lemma_patched_read(ws, j);
        assert(self.holds(ws[j].0, ws[j].1.len()));
        lemma_le_value_of_bytes(v, n);
        vstd::arithmetic::div_mod::lemma_small_mod(v, pow256(n));
    }

    /// After a run of writes that each lie in the region, the `n` bytes at
    /// `addr` that no write of the run overlaps keep their value.
    pub proof fn lemma_patched_untouched(&self, new: Mem64, ws: Seq<(u64, Seq<u8>)>, addr: u64, n: nat)
        requires
            self.wrote_all(new, ws),
            forall|i: int| 0 <= i < ws.len() ==> #[trigger] self.holds(ws[i].0, ws[i].1.len()),
            self.holds(addr, n),
            forall|i: int|
                0 <= i < ws.len() ==> #[trigger] self.offset(ws[i].0) + ws[i].1.len() <= self.offset(addr)
                    || self.offset(addr) + n <= self.offset(ws[i].0),
        ensures
            new.holds(addr, n),
            new.value_at(addr, n) == self.value_at(addr, n),
    {
        self.lemma_patched_keeps(ws, addr, n);
        self.lemma_patched_len(ws);
    }

    /// The bytes that no write of a run overlaps stay as they were.
    pub proof fn lemma_patched_keeps(&self, ws: Seq<(u64, Seq<u8>)>, addr: u64, n: nat)
        requires
            forall|i: int| 0 <= i < ws.len() ==> #[trigger] self.holds(ws[i].0, ws[i].1.len()),
            self.holds(addr, n),
            forall|i: int|
                0 <= i < ws.len() ==> #[trigger] self.offset(ws[i].0) + ws[i].1.len() <= self.offset(addr)
                    || self.offset(addr) + n <= self.offset(ws[i].0),
        ensures
            self.patched(ws).subrange(self.offset(addr), self.offset(addr) + n)
                == self.bytes().subrange(self.offset(addr), self.offset(addr) + n),
        decreases ws.len(),
    {
        if ws.len() > 0 {
            let prev = ws.drop_last();
            let last = ws.last();
            assert forall|i: int| 0 <= i < prev.len() implies #[trigger] self.holds(prev[i].0, prev[i].1.len()) by {
                assert(prev[i] == ws[i]);
            }
            assert forall|i: int| 0 <= i < prev.len() implies #[trigger] self.offset(prev[i].0) + prev[i].1.len()
                <= self.offset(addr) || self.offset(addr) + n <= self.offset(prev[i].0) by {
                assert(prev[i] == ws[i]);
            }
            self.lemma_patched_keeps(prev, addr, n);
            self.lemma_patched_len(prev);
            assert(self.holds(last.0, last.1.len()));
            assert(self.offset(last.0) + last.1.len() <= self.offset(addr) || self.offset(addr) + n <= self.offset(
                last.0,
            ));
            let p = self.patched(prev);
            assert(self.patched(ws) == splice(p, self.offset(last.0), last.1));
            assert(self.patched(ws).subrange(self.offset(addr), self.offset(addr) + n) =~= p.subrange(
                self.offset(addr),
                self.offset(addr) + n,
            ));
        }
    }

    /// Where the writes of a run lie one after the other (see
    /// `writes_ordered`) from inside the region to inside it, each lies in the
    /// region and no later write overlaps an earlier one.
    pub proof fn lemma_ordered_run(&self, ws: Seq<(u64, Seq<u8>)>)
        requires
            ws.len() > 0,
            writes_ordered(ws, 0),
            self.base_view() <= ws[0].0,
            self.offset(ws.last().0) + ws.last().1.len() <= self.bytes().len(),
        ensures
            forall|i: int| 0 <= i < ws.len() ==> #[trigger] self.holds(ws[i].0, ws[i].1.len()),
            forall|i: int, j: int|
                #![trigger ws[i], ws[j]]
                0 <= j < i < ws.len() ==> self.offset(ws[i].0) + ws[i].1.len() <= self.offset(ws[j].0)
                    || self.offset(ws[j].0) + ws[j].1.len() <= self.offset(ws[i].0),
    {
        let n = ws.len() as int;
        assert forall|i: int| 0 <= i < ws.len() implies #[trigger] self.holds(ws[i].0, ws[i].1.len()) by {
            if i > 0 {
                lemma_writes_apart(ws, 0, 0, i);
            }
            if i < n - 1 {
                lemma_writes_apart(ws, 0, i, n - 1);
            }
        }
        assert forall|i: int, j: int|
            #![trigger ws[i], ws[j]]
            0 <= j < i < ws.len() implies self.offset(ws[i].0) + ws[i].1.len()
            <= self.offset(ws[j].0) || self.offset(ws[j].0) + ws[j].1.len() <= self.offset(ws[i].0) by {
            lemma_writes_apart(ws, 0, j, i);
        }
    }

    /// After an ordered run of writes from inside the region to inside it
    /// (see `lemma_ordered_run`), the bytes of each write read back as the
    /// little endian value it wrote.
    pub proof fn lemma_ordered_readback(&self, new: Mem64, ws: Seq<(u64, Seq<u8>)>)
        requires
            self.wrote_all(new, ws),
            ws.len() > 0,
            writes_ordered(ws, 0),
            self.base_view() <= ws[0].0,
            self.offset(ws.last().0) + ws.last().1.len() <= self.bytes().len(),
        ensures
            forall|i: int|
                #![trigger ws[i]]
                0 <= i < ws.len() ==> new.holds(ws[i].0, ws[i].1.len()) && new.value_at(ws[i].0, ws[i].1.len())
                    == le_value(ws[i].1),
    {
        self.lemma_ordered_run(ws);
        self.lemma_patched_len(ws);
        assert forall|i: int|
            #![trigger ws[i]]
            0 <= i < ws.len() implies new.holds(ws[i].0, ws[i].1.len()) && new.value_at(ws[i].0, ws[i].1.len())
                == le_value(ws[i].1) by {
            assert forall|j: int| i < j < ws.len() implies #[trigger] self.offset(ws[j].0) + ws[j].1.len()
                <= self.offset(ws[i].0) || self.offset(ws[i].0) + ws[i].1.len() <= self.offset(ws[j].0) by {
                lemma_writes_apart(ws, 0, i, j);
            }
            self.lemma_patched_read(ws, i);
            assert(self.holds(ws[i].0, ws[i].1.len()));
            assert(new.offset(ws[i].0) == self.offset(ws[i].0));
            assert(new.bytes().subrange(new.offset(ws[i].0), new.offset(ws[i].0) + ws[i].1.len()) == ws[i].1);
        }
    }

    /// Two runs of writes, one after the other, make one run.
    pub proof fn lemma_wrote_all_concat(&self, mid: Mem64, new: Mem64, ws: Seq<(u64, Seq<u8>)>, vs: Seq<(u64, Seq<u8>)>)
        requires
            self.wrote_all(mid, ws),
            mid.wrote_all(new, vs),
        ensures
            self.wrote_all(new, ws + vs),
        decreases vs.len(),
    {
        if vs.len() == 0 {
            assert(ws + vs =~= ws);
        } else {
            let vs0 = vs.drop_last();
            assert((ws + vs).drop_last() =~= ws + vs0);
            assert((ws + vs).last() == vs.last());
            assert(mid.patched(vs0) == self.patched(ws + vs0)) by {
                self.lemma_patched_concat(mid, ws, vs0);
            }
        }
    }

    /// Writing `vs` over the bytes that `ws` left is writing `ws + vs`.
    pub proof fn lemma_patched_concat(&self, mid: Mem64, ws: Seq<(u64, Seq<u8>)>, vs: Seq<(u64, Seq<u8>)>)
        requires
            mid.bytes() == self.patched(ws),
            mid.base_view() == self.base_view(),
        ensures
            mid.patched(vs) == self.patched(ws + vs),
        decreases vs.len(),
    {
        if vs.len() == 0 {
            assert(ws + vs =~= ws);
        } else {
            let vs0 = vs.drop_last();
            self.lemma_patched_concat(mid, ws, vs0);
            assert((ws + vs).drop_last() =~= ws + vs0);
            assert((ws + vs).last() == vs.last());
        }
    }

    /// The number of bytes of the string at `addr`, before its terminator,
    /// at most `MAX_SIZE_STR`.
    pub open spec fn c_string_count(&self, addr: u64) -> nat {
        c_string_len(self.bytes(), self.offset(addr), MAX_SIZE_STR as nat)
    }

    /// The bytes of the zero terminated string at `addr`, without the
    /// terminator, cut at `MAX_SIZE_STR` bytes.
    pub open spec fn c_string_at(&self, addr: u64) -> Seq<u8> {
        self.bytes().subrange(self.offset(addr), self.offset(addr) + self.c_string_count(addr))
    }

    /// The scan for the string at `addr` stays inside the region: its bytes
    /// and, unless it stops at the limit, its terminator.
    pub open spec fn string_readable(&self, addr: u64) -> bool {
        &&& addr + MAX_SIZE_STR <= u64::MAX
        &&& self.base_view() <= addr
        &&& self.c_string_count(addr) < MAX_SIZE_STR ==> self.offset(addr) + self.c_string_count(addr)
            < self.bytes().len()
    }

    /// The number of units of the zero terminated wide string at `addr`.
    pub open spec fn wide_string_count(&self, addr: u64) -> nat {
        wide_string_len(self.bytes(), self.offset(addr), MAX_WIDE_UNITS as nat)
    }

    /// The units of the zero terminated wide string at `addr`, without the
    /// terminator, cut at `MAX_WIDE_UNITS` units.
    pub open spec fn wide_string_at(&self, addr: u64) -> Seq<u16> {
        wide_units(self.bytes(), self.offset(addr), self.wide_string_count(addr))
    }

    /// The scan for the wide string at `addr` stays inside the region.
    pub open spec fn wide_string_readable(&self, addr: u64) -> bool {
        &&& addr + MAX_SIZE_STR <= u64::MAX
        &&& self.base_view() <= addr
        &&& self.wide_string_count(addr) < MAX_WIDE_UNITS ==> self.offset(addr) + 2
            * self.wide_string_count(addr) + 2 <= self.bytes().len()
    }

    pub fn new() -> (m: Mem64)
        ensures
            m.name_view() == Seq::<char>::empty(),
            m.base_view() == 0,
            m.bottom_view() == 0,
            m.bytes() == Seq::<u8>::empty(),
    {
        Mem64 { mem_name: String::new(), base_addr: 0, bottom_addr: 0, mem: Vec::new() }
    }

    /// Empties the region: no name, no bytes, base and bottom zero.
    pub fn clear(&mut self)
        ensures
            final(self).name_view() == Seq::<char>::empty(),
            final(self).base_view() == 0,
            final(self).bottom_view() == 0,
            final(self).bytes() == Seq::<u8>::empty(),
    {
        self.mem_name = String::new();
        self.base_addr = 0;
        self.bottom_addr = 0;
        self.mem.clear();
    }

    pub fn get_name(&self) -> (r: &str)
        ensures
            r@ == self.name_view(),
    {
        self.mem_name.as_str()
    }

    pub fn set_name(&mut self, name: &str)
        ensures
            final(self).name_view() == name@,
            final(self).base_view() == old(self).base_view(),
            final(self).bottom_view() == old(self).bottom_view(),
            final(self).bytes() == old(self).bytes(),
    {
        self.mem_name = String::from_str(name);
    }

    /// A copy of the region's bytes.
    pub fn get_mem(&self) -> (r: Vec<u8>)
        ensures
            r@ == self.bytes(),
    {
        let mut r: Vec<u8> = Vec::new();
        let mut i: usize = 0;
        while i < self.mem.len()
            invariant
                i <= self.mem@.len(),
                r@ == self.mem@.subrange(0, i as int),
            decreases self.mem@.len() - i,
        {
            r.push(self.mem[i]);
            i = i + 1;
            assert(r@ =~= self.mem@.subrange(0, i as int));
        }
        assert(r@ =~= self.mem@);
        r
    }

    /// Replaces the bytes by `amount` zero bytes.
    pub fn alloc_zeroed(&mut self, amount: usize)
        ensures
            final(self).bytes() == Seq::new(amount as nat, |i: int| 0u8),
            final(self).name_view() == old(self).name_view(),
            final(self).base_view() == old(self).base_view(),
            final(self).bottom_view() == old(self).bottom_view(),
    {
        let mut v: Vec<u8> = Vec::new();
        let mut i: usize = 0;
        while i < amount
            invariant
                i <= amount,
                v@ == Seq::new(i as nat, |j: int| 0u8),
            decreases amount - i,
        {
            v.push(0);
            i = i + 1;
            assert(v@ =~= Seq::new(i as nat, |j: int| 0u8));
        }
        self.mem = v;
    }

    /// Appends `amount` zero bytes and moves the bottom up by as much.
    pub fn extend(&mut self, amount: usize)
        requires
            old(self).bottom_view() + amount <= u64::MAX,
            old(self).bytes().len() + amount <= usize::MAX,
        ensures
            final(self).bytes() == old(self).bytes() + Seq::new(amount as nat, |i: int| 0u8),
            final(self).bottom_view() == old(self).bottom_view() + amount,
            final(self).name_view() == old(self).name_view(),
            final(self).base_view() == old(self).base_view(),
    {
        let ghost start = self.mem@;
        let mut i: usize = 0;
        while i < amount
            invariant
                i <= amount,
                start.len() + amount <= usize::MAX,
                self.mem@ == start + Seq::new(i as nat, |j: int| 0u8),
                self.mem_name@ == old(self).mem_name@,
                self.base_addr == old(self).base_addr,
                self.bottom_addr == old(self).bottom_addr,
            decreases amount - i,
        {
            self.mem.push(0);
            i = i + 1;
            assert(self.mem@ =~= start + Seq::new(i as nat, |j: int| 0u8));
        }
        self.bottom_addr = self.bottom_addr + amount as u64;
    }

    /// The number of bytes.
    pub fn size(&self) -> (r: usize)
        ensures
            r == self.bytes().len(),
    {
        self.mem.len()
    }

    pub fn get_base(&self) -> (r: u64)
        ensures
            r == self.base_view(),
    {
        self.base_addr
    }

    pub fn get_bottom(&self) -> (r: u64)
        ensures
            r == self.bottom_view(),
    {
        self.bottom_addr
    }

    /// Copies the first `sz` bytes of `ptr` to the start of the region.
    pub fn memcpy(&mut self, ptr: &[u8], sz: usize)
        requires
            sz <= old(self).bytes().len(),
            sz <= ptr@.len(),
        ensures
            old(self).wrote(*final(self), old(self).base_view(), ptr@.subrange(0, sz as int)),
    {
        let mut i: usize = 0;
        while i < sz
            invariant
                i <= sz <= self.mem@.len(),
                sz <= ptr@.len(),
                self.mem@.len() == old(self).mem@.len(),
                forall|j: int| 0 <= j < i ==> #[trigger] self.mem@[j] == ptr@[j],
                forall|j: int| i <= j < self.mem@.len() ==> #[trigger] self.mem@[j] == old(self).mem@[j],
                self.mem_name@ == old(self).mem_name@,
                self.base_addr == old(self).base_addr,
                self.bottom_addr == old(self).bottom_addr,
            decreases sz - i,
        {
            self.mem.set(i, ptr[i]);
            i = i + 1;
        }
        assert(self.mem@ =~= splice(old(self).mem@, 0, ptr@.subrange(0, sz as int)));
    }

    /// Whether `addr` lies between the base (included) and the bottom.
    pub fn inside(&self, addr: u64) -> (r: bool)
        ensures
            r == (self.base_view() <= addr < self.bottom_view()),
    {
        addr >= self.base_addr && addr < self.bottom_addr
    }

    /// Moves the region to `base_addr`, with the bottom at the same address.
    pub fn set_base(&mut self, base_addr: u64)
        ensures
            final(self).base_view() == base_addr,
            final(self).bottom_view() == base_addr,
            final(self).bytes() == old(self).bytes(),
            final(self).name_view() == old(self).name_view(),
    {
        self.base_addr = base_addr;
        self.bottom_addr = base_addr;
    }

    pub fn update_base(&mut self, base_addr: u64)
        ensures
            final(self).base_view() == base_addr,
            final(self).bottom_view() == old(self).bottom_view(),
            final(self).bytes() == old(self).bytes(),
            final(self).name_view() == old(self).name_view(),
    {
        self.base_addr = base_addr;
    }

    /// Sets the bottom and gives the region as many zero bytes as it now
    /// spans.
    pub fn set_bottom(&mut self, bottom_addr: u64)
        requires
            bottom_addr >= old(self).base_view(),
            bottom_addr - old(self).base_view() <= usize::MAX,
        ensures
            final(self).bottom_view() == bottom_addr,
            final(self).bytes() == Seq::new((bottom_addr - old(self).base_view()) as nat, |i: int| 0u8),
            final(self).base_view() == old(self).base_view(),
            final(self).name_view() == old(self).name_view(),
    {
        self.bottom_addr = bottom_addr;
        let size = self.bottom_addr - self.base_addr;
        self.alloc_zeroed(size as usize);
    }

    pub fn update_bottom(&mut self, bottom_addr: u64)
        ensures
            final(self).bottom_view() == bottom_addr,
            final(self).base_view() == old(self).base_view(),
            final(self).bytes() == old(self).bytes(),
            final(self).name_view() == old(self).name_view(),
    {
        self.bottom_addr = bottom_addr;
    }

    /// Gives the region `size` zero bytes, with the bottom `size` past the
    /// base.
    pub fn set_size(&mut self, size: u64)
        requires
            old(self).base_view() + size <= u64::MAX,
            size <= usize::MAX,
        ensures
            final(self).bottom_view() == old(self).base_view() + size,
            final(self).bytes() == Seq::new(size as nat, |i: int| 0u8),
            final(self).base_view() == old(self).base_view(),
            final(self).name_view() == old(self).name_view(),
    {
        self.bottom_addr = self.base_addr + size;
        self.alloc_zeroed(size as usize);
    }

    /// `addr + sz` copies of `addr`.
    pub fn build_addresses(&self, addr: u64, sz: usize) -> (r: Vec<u64>)
        requires
            addr + sz <= usize::MAX,
        ensures
            r@ == Seq::new((addr + sz) as nat, |i: int| addr),
    {
        let n = addr as usize + sz;
        let mut r: Vec<u64> = Vec::new();
        let mut i: usize = 0;
        while i < n
            invariant
                i <= n,
                r@ == Seq::new(i as nat, |j: int| addr),
            decreases n - i,
        {
            r.push(addr);
            i = i + 1;
            assert(r@ =~= Seq::new(i as nat, |j: int| addr));
        }
        r
    }

    /// The index of `addr` in the region's bytes.
    fn index_of(&self, addr: u64) -> (r: usize)
        requires
            self.holds(addr, 0),
        ensures
            r == self.offset(addr),
    {
        let len = self.mem.len();
        assert(addr - self.base_addr <= len);
        (addr - self.base_addr) as usize
    }

    /// The bytes from `addr` up to the bottom.
    pub fn read_from(&self, addr: u64) -> (r: &[u8])
        requires
            self.base_view() <= addr <= self.bottom_view(),
            self.bottom_view() - self.base_view() <= self.bytes().len(),
        ensures
            r@ == self.bytes().subrange(self.offset(addr), self.bottom_view() - self.base_view()),
    {
        let idx = self.index_of(addr);
        let max_sz = self.index_of(self.bottom_addr);
        let r = &self.mem.as_slice()[idx..max_sz];
        assert(r@ =~= self.mem@.subrange(idx as int, max_sz as int));
        r
    }

    /// Up to `sz` bytes from `addr`, cut at the end of the region; nothing
    /// when `addr` lies outside the bytes.
    pub fn read_bytes(&self, addr: u64, sz: usize) -> (r: &[u8])
        requires
            self.base_view() + self.bytes().len() <= u64::MAX,
            self.holds(addr, 0) ==> self.offset(addr) + sz <= usize::MAX,
        ensures
            !self.holds(addr, 1) ==> r@ == Seq::<u8>::empty(),
            self.holds(addr, 1) ==> r@ == self.bytes().subrange(
                self.offset(addr),
                if self.offset(addr) + sz > self.bytes().len() {
                    self.bytes().len() as int
                } else {
                    self.offset(addr) + sz
                },
            ),
    {
        if addr >= self.base_addr + self.mem.len() as u64 {
            return &[];
        }
        if addr < self.base_addr {
            return &[];
        }
        let idx = self.index_of(addr);
        let sz2 = idx + sz;
        if sz2 > self.mem.len() {
            return &self.mem.as_slice()[idx..self.mem.len()];
        }
        &self.mem.as_slice()[idx..sz2]
    }

    pub fn read_byte(&self, addr: u64) -> (r: u8)
        requires
            self.holds(addr, 1),
        ensures
            r == self.bytes()[self.offset(addr)],
    {
        let idx = self.index_of(addr);
        self.mem[idx]
    }

    /// The little endian value of `n` bytes from index `idx`.
    fn read_le(&self, idx: usize, n: usize) -> (r: u128)
        requires
            n <= 16,
            idx + n <= self.mem@.len(),
        ensures
            r == le_value(self.mem@.subrange(idx as int, idx + n)),
            r < pow256(n as nat),
    {
        let len = self.mem.len();
        let mut val: u128 = 0;
        let mut k: usize = n;
        while k > 0
            invariant
                k <= n <= 16,
                idx + n <= self.mem@.len() == len,
                val == le_value(self.mem@.subrange(idx + k, idx + n)),
                val < pow256((n - k) as nat),
            decreases k,
        {
            k = k - 1;
            proof {
                let s = self.mem@.subrange(idx + k, idx + n);
                assert(s.drop_first() =~= self.mem@.subrange(idx + k + 1, idx + n));
                assert(pow256((n - k) as nat) == 256 * pow256((n - (k + 1)) as nat));
                lemma_pow256_bound((n - k) as nat);
                lemma_shift_in_byte(val as nat, self.mem@[idx + k] as nat, pow256((n - (k + 1)) as nat));
            }
            val = val * 256 + self.mem[idx + k] as u128;
        }
        assert(self.mem@.subrange(idx + 0, idx + n) =~= self.mem@.subrange(idx as int, idx + n));
        val
    }

    /// The little endian word at `addr`.
    pub fn read_word(&self, addr: u64) -> (r: u16)
        requires
            self.holds(addr, 2),
        ensures
            r == self.value_at(addr, 2),
    {
        proof {
            reveal_with_fuel(pow256, 3);
        }
        self.read_le(self.index_of(addr), 2) as u16
    }

    /// The little endian double word at `addr`.
    pub fn read_dword(&self, addr: u64) -> (r: u32)
        requires
            self.holds(addr, 4),
        ensures
            r == self.value_at(addr, 4),
    {
        proof {
            reveal_with_fuel(pow256, 5);
        }
        self.read_le(self.index_of(addr), 4) as u32
    }

    /// The little endian quad word at `addr`.
    pub fn read_qword(&self, addr: u64) -> (r: u64)
        requires
            self.holds(addr, 8),
        ensures
            r == self.value_at(addr, 8),
    {
        proof {
            reveal_with_fuel(pow256, 9);
        }
        self.read_le(self.index_of(addr), 8) as u64
    }

    /// The little endian 128 bit value at `addr`.
    pub fn read_oword(&self, addr: u64) -> (r: u128)
        requires
            self.holds(addr, 16),
        ensures
            r == self.value_at(addr, 16),
    {
        self.read_le(self.index_of(addr), 16)
    }

    pub fn write_byte(&mut self, addr: u64, value: u8)
        requires
            old(self).holds(addr, 1),
        ensures
            old(self).wrote(*final(self), addr, seq![value]),
    {
        let idx = self.index_of(addr);
        self.mem.set(idx, value);
        assert(self.mem@ =~= splice(old(self).mem@, idx as int, seq![value]));
    }

    /// Writes the bytes at `addr`.
    pub fn write_bytes(&mut self, addr: u64, bs: &[u8])
        requires
            old(self).holds(addr, bs@.len()),
        ensures
            old(self).wrote(*final(self), addr, bs@),
    {
        let idx = self.index_of(addr);
        let len = self.mem.len();
        let mut i: usize = 0;
        while i < bs.len()
            invariant
                i <= bs@.len(),
                len == old(self).mem@.len(),
                idx + bs@.len() <= self.mem@.len(),
                self.mem@.len() == old(self).mem@.len(),
                forall|j: int| 0 <= j < i ==> #[trigger] self.mem@[idx + j] == bs@[j],
                forall|j: int|
                    0 <= j < self.mem@.len() && !(idx <= j < idx + i) ==> #[trigger] self.mem@[j]
                        == old(self).mem@[j],
                self.mem_name@ == old(self).mem_name@,
                self.base_addr == old(self).base_addr,
                self.bottom_addr == old(self).bottom_addr,
                idx == addr - old(self).base_addr,
            decreases bs@.len() - i,
        {
            self.mem.set(idx + i, bs[i]);
            i = i + 1;
        }
        assert forall|j: int| 0 <= j < self.mem@.len() implies self.mem@[j] == splice(
            old(self).mem@,
            idx as int,
            bs@,
        )[j] by {
            if idx <= j < idx + bs@.len() {
                assert(self.mem@[idx + (j - idx)] == bs@[j - idx]);
            }
        }
        assert(self.mem@ =~= splice(old(self).mem@, idx as int, bs@));
    }

    /// Writes the `n` little endian bytes of `v` from index `idx`.
    fn write_le(&mut self, idx: usize, v: u128, n: usize)
        requires
            n <= 16,
            idx + n <= old(self).mem@.len(),
        ensures
            final(self).mem@ == splice(old(self).mem@, idx as int, le_bytes(v as nat, n as nat)),
            final(self).mem_name@ == old(self).mem_name@,
            final(self).base_addr == old(self).base_addr,
            final(self).bottom_addr == old(self).bottom_addr,
    {
        let len = self.mem.len();
        let mut x: u128 = v;
        let mut k: usize = 0;
        assert(pow256(0) == 1);
        assert(v as nat / 1 == v);
        while k < n
            invariant
                k <= n <= 16,
                idx + n <= self.mem@.len(),
                self.mem@.len() == old(self).mem@.len() == len,
                x == v as nat / pow256(k as nat),
                forall|j: int| 0 <= j < k ==> #[trigger] self.mem@[idx + j] == byte_of(v as nat, j as nat),
                forall|j: int|
                    0 <= j < self.mem@.len() && !(idx <= j < idx + k) ==> #[trigger] self.mem@[j]
                        == old(self).mem@[j],
                self.mem_name@ == old(self).mem_name@,
                self.base_addr == old(self).base_addr,
                self.bottom_addr == old(self).bottom_addr,
            decreases n - k,
        {
            proof {
                crate::fpu::f80::lemma_byte_of_next_pub(v as nat, k as nat);
            }
            self.mem.set(idx + k, (x % 256) as u8);
            x = x / 256;
            k = k + 1;
        }
        let ghost b = le_bytes(v as nat, n as nat);
        assert forall|j: int| 0 <= j < self.mem@.len() implies self.mem@[j] == splice(
            old(self).mem@,
            idx as int,
            b,
        )[j] by {
            if idx <= j < idx + n {
                assert(self.mem@[idx + (j - idx)] == byte_of(v as nat, (j - idx) as nat));
            }
        }
        assert(self.mem@ =~= splice(old(self).mem@, idx as int, b));
    }

    /// Writes the word little endian at `addr`.
    pub fn write_word(&mut self, addr: u64, value: u16)
        requires
            old(self).holds(addr, 2),
        ensures
            old(self).wrote(*final(self), addr, le_bytes(value as nat, 2)),
    {
        let idx = self.index_of(addr);
        self.write_le(idx, value as u128, 2);
    }

    /// Writes the double word little endian at `addr`.
    pub fn write_dword(&mut self, addr: u64, value: u32)
        requires
            old(self).holds(addr, 4),
        ensures
            old(self).wrote(*final(self), addr, le_bytes(value as nat, 4)),
    {
        let idx = self.index_of(addr);
        self.write_le(idx, value as u128, 4);
    }

    /// Writes the quad word little endian at `addr`.
    pub fn write_qword(&mut self, addr: u64, value: u64)
        requires
            old(self).holds(addr, 8),
        ensures
            old(self).wrote(*final(self), addr, le_bytes(value as nat, 8)),
    {
        let idx = self.index_of(addr);
        self.write_le(idx, value as u128, 8);
    }

    /// Writes the 128 bit value little endian at `addr`.
    pub fn write_oword(&mut self, addr: u64, value: u128)
        requires
            old(self).holds(addr, 16),
        ensures
            old(self).wrote(*final(self), addr, le_bytes(value as nat, 16)),
    {
        let idx = self.index_of(addr);
        self.write_le(idx, value, 16);
    }
    /// Writes the UTF-8 bytes of `s` and a zero byte at `addr`.
    pub fn write_string(&mut self, addr: u64, s: &str)
        requires
            old(self).holds(addr, encode_utf8(s@).len() + 1),
        ensures
            old(self).wrote(*final(self), addr, encode_utf8(s@).push(0u8)),
    {
        let b = s.as_bytes();
        let mut v: Vec<u8> = Vec::new();
        let mut i: usize = 0;
        while i < b.len()
            invariant
                i <= b@.len(),
                v@ == b@.subrange(0, i as int),
            decreases b@.len() - i,
        {
            v.push(b[i]);
            i = i + 1;
            assert(v@ =~= b@.subrange(0, i as int));
        }
        v.push(0);
        assert(v@ =~= encode_utf8(s@).push(0u8));
        self.write_bytes(addr, v.as_slice());
    }

    /// The zero terminated UTF-8 string at `addr`, read up to
    /// `MAX_SIZE_STR` bytes.
    pub fn read_string(&self, addr: u64) -> (r: String)
        requires
            self.string_readable(addr),
            valid_utf8(self.c_string_at(addr)),
        ensures
            r@ == decode_utf8(self.c_string_at(addr)),
    {
        let ghost off = self.offset(addr);
        let ghost n = self.c_string_count(addr);
        let mut s: Vec<u8> = Vec::new();
        let mut idx: u64 = addr;
        while idx < addr + MAX_SIZE_STR
            invariant
                self.string_readable(addr),
                off == self.offset(addr),
                n == self.c_string_count(addr),
                addr <= idx <= addr + MAX_SIZE_STR,
                s@.len() == idx - addr,
                s@ == self.bytes().subrange(off, off + s@.len()),
                n == s@.len() + c_string_len(self.bytes(), off + s@.len(), (MAX_SIZE_STR - s@.len()) as nat),
            ensures
                s@ == self.c_string_at(addr),
            decreases addr + MAX_SIZE_STR - idx,
        {
            let ghost k = s@.len();
            assert(off + k < self.bytes().len()) by {
                if n < MAX_SIZE_STR {
                    assert(c_string_len(self.bytes(), off + k, (MAX_SIZE_STR - k) as nat) >= 0);
                }
                else {
                    lemma_c_string_len_inside(self.bytes(), off + k, (MAX_SIZE_STR - k) as nat);
                }
            }
            let b = self.read_byte(idx);
            if b == 0 {
                assert(s@ =~= self.c_string_at(addr));
                break;
            }
            s.push(b);
            idx = idx + 1;
            assert(s@ =~= self.bytes().subrange(off, off + s@.len()));
        }
        let r = string_from_utf8(s);
        r.unwrap()
    }

    /// Writes the UTF-16 units of `s`, little endian, at `addr`, with no
    /// terminator.
    pub fn write_wide_string(&mut self, addr: u64, s: &str)
        requires
            old(self).holds(addr, 2 * utf16_encode(s@).len()),
        ensures
            old(self).wrote(*final(self), addr, units_le_bytes(utf16_encode(s@))),
    {
        let units = encode_utf16(s);
        let mut v: Vec<u8> = Vec::new();
        let mut i: usize = 0;
        while i < units.len()
            invariant
                i <= units@.len(),
                v@ == units_le_bytes(units@.subrange(0, i as int)),
            decreases units@.len() - i,
        {
            let u = units[i];
            v.push((u % 256) as u8);
            v.push((u / 256) as u8);
            i = i + 1;
            assert(v@ =~= units_le_bytes(units@.subrange(0, i as int)));
        }
        assert(units@.subrange(0, units@.len() as int) =~= units@);
        self.write_bytes(addr, v.as_slice());
    }

    /// The zero terminated UTF-16 string at `addr`, read up to
    /// `MAX_WIDE_UNITS` units.
    pub fn read_wide_string(&self, addr: u64) -> (r: String)
        requires
            self.wide_string_readable(addr),
            valid_utf16(self.wide_string_at(addr)),
        ensures
            r@ == utf16_decode(self.wide_string_at(addr)),
    {
        let ghost off = self.offset(addr);
        let ghost n = self.wide_string_count(addr);
        let mut s: Vec<u16> = Vec::new();
        let mut idx: u64 = addr;
        while idx < addr + MAX_SIZE_STR
            invariant
                self.wide_string_readable(addr),
                off == self.offset(addr),
                n == self.wide_string_count(addr),
                addr <= idx,
                idx == addr + 2 * s@.len(),
                s@.len() <= MAX_WIDE_UNITS,
                s@ == wide_units(self.bytes(), off, s@.len()),
                n == s@.len() + wide_string_len(self.bytes(), off + 2 * s@.len(), (MAX_WIDE_UNITS - s@.len()) as nat),
            ensures
                s@ == self.wide_string_at(addr),
            decreases addr + MAX_SIZE_STR - idx,
        {
            let ghost k = s@.len();
            assert(off + 2 * k + 2 <= self.bytes().len()) by {
                if n >= MAX_WIDE_UNITS {
                    lemma_wide_string_len_inside(self.bytes(), off + 2 * k, (MAX_WIDE_UNITS - k) as nat);
                }
            }
            let w = self.read_word(idx);
            proof {
                reveal_with_fuel(le_value, 3);
                let t = self.bytes().subrange(off + 2 * k, off + 2 * k + 2);
                assert(t.drop_first().drop_first() =~= Seq::<u8>::empty());
                assert(w == self.bytes()[off + 2 * k] + 256 * self.bytes()[off + 2 * k + 1]);
            }
            if w == 0 {
                assert(s@ =~= self.wide_string_at(addr));
                break;
            }
            s.push(w);
            idx = idx + 2;
            assert(s@ =~= wide_units(self.bytes(), off, s@.len()));
        }
        let r = string_from_utf16(s.as_slice());
        r.unwrap()
    }

    /// The MD5 digest of the region's bytes.
    pub fn md5(&self) -> (r: [u8; 16])
        ensures
            r@ == md5_of(self.bytes()),
    {
        md5_digest(self.mem.as_slice())
    }

    /// The `size` bytes at `addr` that a save writes out, or `None` when
    /// they run past the region's bytes.
    pub fn save_range(&self, addr: u64, size: usize) -> (r: Option<&[u8]>)
        requires
            self.base_view() <= addr,
            self.offset(addr) + size <= usize::MAX,
        ensures
            r is Some <==> self.holds(addr, size as nat),
            r matches Some(b) ==> b@ == self.bytes().subrange(self.offset(addr), self.offset(addr) + size),
    {
        let idx = (addr - self.base_addr) as usize;
        let sz2 = idx + size;
        if sz2 > self.mem.len() {
            return None;
        }
        let r = &self.mem.as_slice()[idx..sz2];
        assert(r@ =~= self.mem@.subrange(idx as int, sz2 as int));
        Some(r)
    }
}

/// Reading `n` bytes back where the `n` little endian bytes of `v` were
/// written gives `v`, and every byte outside the write keeps its value.
pub proof fn lemma_read_after_write(before: Mem64, after: Mem64, addr: u64, v: nat, n: nat)
    requires
        before.holds(addr, n),
        before.wrote(after, addr, le_bytes(v, n)),
        v < pow256(n),
    ensures
        after.holds(addr, n),
        after.value_at(addr, n) == v,
        after.bytes().len() == before.bytes().len(),
        forall|j: int|
            0 <= j < before.bytes().len() && !(before.offset(addr) <= j < before.offset(addr) + n)
                ==> #[trigger] after.bytes()[j] == before.bytes()[j],
{
    let off = before.offset(addr);
    assert(after.bytes().subrange(off, off + n) =~= le_bytes(v, n));
    lemma_le_value_of_bytes(v, n);
    vstd::arithmetic::div_mod::lemma_small_mod(v, pow256(n));
}

proof fn lemma_scalar_bytes_nonzero(c: u32)
    by (bit_vector)
    requires
        1 <= c,
    ensures
        c <= 0x7f ==> (c & 0x7f) as u8 != 0,
        0xc0u8 | ((c >> 6u32) & 0x1f) as u8 != 0,
        0xe0u8 | ((c >> 12u32) & 0x0f) as u8 != 0,
        0xf0u8 | ((c >> 18u32) & 0x07) as u8 != 0,
        0x80u8 | (c & 0x3f) as u8 != 0,
        0x80u8 | ((c >> 6u32) & 0x3f) as u8 != 0,
        0x80u8 | ((c >> 12u32) & 0x3f) as u8 != 0,
{
}

/// The UTF-8 encoding of a string with no zero character has no zero byte.
proof fn lemma_encode_utf8_nonzero(s: Seq<char>)
    requires
        forall|i: int| 0 <= i < s.len() ==> #[trigger] (s[i] as u32) != 0,
    ensures
        forall|j: int| 0 <= j < encode_utf8(s).len() ==> #[trigger] encode_utf8(s)[j] != 0,
    decreases s.len(),
{
    if s.len() > 0 {
        let rest = s.drop_first();
        assert forall|i: int| 0 <= i < rest.len() implies #[trigger] (rest[i] as u32) != 0 by {
            assert(rest[i] == s[i + 1]);
        }
        lemma_encode_utf8_nonzero(rest);
        let c = s[0] as u32;
        assert(c != 0);
        lemma_scalar_bytes_nonzero(c);
        let head = vstd::utf8::encode_scalar(c);
        assert forall|j: int| 0 <= j < head.len() implies head[j] != 0 by {}
        assert forall|j: int| 0 <= j < encode_utf8(s).len() implies #[trigger] encode_utf8(s)[j] != 0 by {
            if j < head.len() {
                assert(encode_utf8(s)[j] == head[j]);
            } else {
                assert(encode_utf8(s)[j] == encode_utf8(rest)[j - head.len()]);
            }
        }
    }
}

/// The scan from `i` stops after `m` nonzero bytes at a zero byte.
proof fn lemma_c_string_len_stops(s: Seq<u8>, i: int, limit: nat, m: nat)
    requires
        0 <= i,
        i + m < s.len(),
        m <= limit,
        s[i + m] == 0,
        forall|j: int| 0 <= j < m ==> #[trigger] s[i + j] != 0,
    ensures
        c_string_len(s, i, limit) == m,
    decreases m,
{
    if m > 0 {
        assert(s[i + 0] != 0);
        assert forall|j: int| 0 <= j < m - 1 implies #[trigger] s[(i + 1) + j] != 0 by {
            assert(s[i + (j + 1)] != 0);
        }
        lemma_c_string_len_stops(s, i + 1, (limit - 1) as nat, (m - 1) as nat);
    } else {
        assert(s[i + 0] == 0);
    }
}

/// A string that `write_string` wrote reads back whole with `read_string`,
/// when it holds no zero character and is shorter than `MAX_SIZE_STR`
/// bytes.
pub proof fn lemma_read_string_after_write_string(before: Mem64, after: Mem64, addr: u64, s: Seq<char>)
    requires
        before.holds(addr, encode_utf8(s).len() + 1),
        before.wrote(after, addr, encode_utf8(s).push(0u8)),
        addr + MAX_SIZE_STR <= u64::MAX,
        encode_utf8(s).len() < MAX_SIZE_STR,
        forall|i: int| 0 <= i < s.len() ==> #[trigger] (s[i] as u32) != 0,
    ensures
        after.string_readable(addr),
        after.c_string_at(addr) == encode_utf8(s),
        valid_utf8(after.c_string_at(addr)),
        decode_utf8(after.c_string_at(addr)) == s,
{
    let e = encode_utf8(s);
    let w = e.push(0u8);
    let off = before.offset(addr);
    let b = after.bytes();
    assert(b.subrange(off, off + w.len()) =~= w);
    lemma_encode_utf8_nonzero(s);
    assert forall|j: int| 0 <= j < e.len() implies #[trigger] b[off + j] != 0 by {
        assert(b[off + j] == b.subrange(off, off + w.len())[j]);
        assert(w[j] == e[j]);
    }
    assert(b[off + e.len()] == b.subrange(off, off + w.len())[e.len() as int]);
    lemma_c_string_len_stops(b, off, MAX_SIZE_STR as nat, e.len());
    assert(after.c_string_at(addr) =~= e);
    vstd::utf8::encode_utf8_valid_utf8(s);
    vstd::utf8::encode_utf8_decode_utf8(s);
}

/// The UTF-16 encoding of a string decodes back to it, and holds no zero
/// unit when the string holds no zero character.
proof fn lemma_utf16_roundtrip(s: Seq<char>)
    ensures
        valid_utf16(utf16_encode(s)),
        utf16_decode(utf16_encode(s)) == s,
        (forall|i: int| 0 <= i < s.len() ==> #[trigger] (s[i] as u32) != 0) ==> forall|j: int|
            0 <= j < utf16_encode(s).len() ==> #[trigger] utf16_encode(s)[j] != 0,
    decreases s.len(),
{
    if s.len() > 0 {
        let rest = s.drop_first();
        lemma_utf16_roundtrip(rest);
        let e = utf16_encode(s);
        let head = char_utf16(s[0]);
        let v = s[0] as u32;
        assert(e == head + utf16_encode(rest));
        if v <= 0xffff {
            assert(e.skip(1) =~= utf16_encode(rest));
            assert(e[0] as u32 == v);
            vstd::utf8::char_u32_cast(s[0], v);
            assert(utf16_decode(e) =~= s);
        } else {
            let w = v - 0x10000;
            vstd::utf8::char_is_scalar(s[0]);
            assert(w < 0x100000);
            vstd::arithmetic::div_mod::lemma_fundamental_div_mod(w as int, 1024);
            assert(w / 1024 < 1024) by (nonlinear_arith)
                requires
                    w < 0x100000,
            ;
            assert((w / 1024) * 1024 == 1024 * (w / 1024)) by (nonlinear_arith);
            assert(e.skip(2) =~= utf16_encode(rest));
            assert(e[0] == (0xd800 + w / 1024) as u16);
            assert(e[1] == (0xdc00 + w % 1024) as u16);
            assert((0x10000 + (e[0] - 0xd800) * 1024 + (e[1] - 0xdc00)) as u32 == v);
            vstd::utf8::char_u32_cast(s[0], v);
            assert(utf16_decode(e) =~= s);
        }
        if forall|i: int| 0 <= i < s.len() ==> #[trigger] (s[i] as u32) != 0 {
            assert(s[0] as u32 != 0);
            assert forall|i: int| 0 <= i < rest.len() implies #[trigger] (rest[i] as u32) != 0 by {
                assert(rest[i] == s[i + 1]);
            }
            assert forall|j: int| 0 <= j < e.len() implies #[trigger] e[j] != 0 by {
                if j >= head.len() {
                    assert(e[j] == utf16_encode(rest)[j - head.len()]);
                }
            }
        }
    }
}

/// The wide scan from `i` stops after `m` nonzero units at a zero unit.
proof fn lemma_wide_string_len_stops(s: Seq<u8>, i: int, limit: nat, m: nat)
    requires
        0 <= i,
        i + 2 * m + 2 <= s.len(),
        m <= limit,
        s[i + 2 * m] == 0 && s[i + 2 * m + 1] == 0,
        forall|j: int| 0 <= j < m ==> !(#[trigger] s[i + 2 * j] == 0 && s[i + 2 * j + 1] == 0),
    ensures
        wide_string_len(s, i, limit) == m,
    decreases m,
{
    if m > 0 {
        assert(!(s[i + 2 * 0] == 0 && s[i + 2 * 0 + 1] == 0));
        assert forall|j: int| 0 <= j < m - 1 implies !(#[trigger] s[(i + 2) + 2 * j] == 0 && s[(i + 2) + 2
            * j + 1] == 0) by {
            assert(!(s[i + 2 * (j + 1)] == 0 && s[i + 2 * (j + 1) + 1] == 0));
        }
        lemma_wide_string_len_stops(s, i + 2, (limit - 1) as nat, (m - 1) as nat);
    }
}

/// Bytes that hold the little endian bytes of units read back as those
/// units.
proof fn lemma_wide_units_of_le_bytes(b: Seq<u8>, off: int, u: Seq<u16>)
    requires
        0 <= off,
        off + 2 * u.len() <= b.len(),
        b.subrange(off, off + 2 * u.len()) == units_le_bytes(u),
    ensures
        wide_units(b, off, u.len()) == u,
        forall|k: int| 0 <= k < u.len() && u[k] != 0 ==> !(#[trigger] b[off + 2 * k] == 0 && b[off + 2 * k + 1] == 0),
{
    let w = units_le_bytes(u);
    assert forall|k: int| 0 <= k < u.len() implies b[off + 2 * k] == u[k] % 256 && b[off + 2 * k + 1] == u[k]
        / 256 by {
        assert(b[off + 2 * k] == b.subrange(off, off + 2 * u.len())[2 * k]);
        assert(b[off + 2 * k + 1] == b.subrange(off, off + 2 * u.len())[2 * k + 1]);
        assert(w[2 * k] == (u[(2 * k) / 2] % 256) as u8);
        assert(w[2 * k + 1] == (u[(2 * k + 1) / 2] / 256) as u8);
    }
    assert forall|k: int| 0 <= k < u.len() implies #[trigger] wide_units(b, off, u.len())[k] == u[k] by {
        vstd::arithmetic::div_mod::lemma_fundamental_div_mod(u[k] as int, 256);
    }
    assert(wide_units(b, off, u.len()) =~= u);
}

/// A string that `write_wide_string` wrote reads back whole with
/// `read_wide_string`, when the unit after it was already zero, it holds no
/// zero character and it is shorter than `MAX_WIDE_UNITS` units.
pub proof fn lemma_read_wide_string_after_write_wide_string(
    before: Mem64,
    after: Mem64,
    addr: u64,
    s: Seq<char>,
)
    requires
        before.holds(addr, 2 * utf16_encode(s).len() + 2),
        before.bytes()[before.offset(addr) + 2 * utf16_encode(s).len()] == 0,
        before.bytes()[before.offset(addr) + 2 * utf16_encode(s).len() + 1] == 0,
        before.wrote(after, addr, units_le_bytes(utf16_encode(s))),
        addr + MAX_SIZE_STR <= u64::MAX,
        utf16_encode(s).len() < MAX_WIDE_UNITS,
        forall|i: int| 0 <= i < s.len() ==> #[trigger] (s[i] as u32) != 0,
    ensures
        after.wide_string_readable(addr),
        after.wide_string_at(addr) == utf16_encode(s),
        valid_utf16(after.wide_string_at(addr)),
        utf16_decode(after.wide_string_at(addr)) == s,
{
    let u = utf16_encode(s);
    let n = u.len();
    let off = before.offset(addr);
    let b = after.bytes();
    lemma_utf16_roundtrip(s);
    assert(b.subrange(off, off + 2 * n) =~= units_le_bytes(u));
    lemma_wide_units_of_le_bytes(b, off, u);
    assert forall|k: int| 0 <= k < n implies !(#[trigger] b[off + 2 * k] == 0 && b[off + 2 * k + 1] == 0) by {
        assert(u[k] != 0);
    }
    assert(b[off + 2 * n] == before.bytes()[off + 2 * n]);
    assert(b[off + 2 * n + 1] == before.bytes()[off + 2 * n + 1]);
    lemma_wide_string_len_stops(b, off, MAX_WIDE_UNITS as nat, n);
}

proof fn lemma_c_string_len_inside(s: Seq<u8>, i: int, limit: nat)
    ensures
        c_string_len(s, i, limit) <= limit,
        c_string_len(s, i, limit) > 0 ==> 0 <= i && i + c_string_len(s, i, limit) <= s.len(),
    decreases limit,
{
    if limit > 0 && 0 <= i < s.len() && s[i] != 0 {
        lemma_c_string_len_inside(s, i + 1, (limit - 1) as nat);
    }
}

proof fn lemma_wide_string_len_inside(s: Seq<u8>, i: int, limit: nat)
    ensures
        wide_string_len(s, i, limit) <= limit,
        wide_string_len(s, i, limit) > 0 ==> 0 <= i && i + 2 * wide_string_len(s, i, limit) <= s.len(),
    decreases limit,
{
    if limit > 0 && 0 <= i && i + 2 <= s.len() && !(s[i] == 0 && s[i + 1] == 0) {
        lemma_wide_string_len_inside(s, i + 2, (limit - 1) as nat);
    }
}


proof fn lemma_shift_in_byte(val: nat, b: nat, p: nat)
    requires
        val < p,
        b < 256,
    ensures
        val * 256 + b < 256 * p,
{
    assert(val * 256 + b < 256 * p) by (nonlinear_arith)
        requires
            val < p,
            b < 256,
    ;
}

proof fn lemma_pow256_bound(k: nat)
    requires
        k <= 16,
    ensures
        pow256(k) <= 0x1_0000_0000_0000_0000_0000_0000_0000_0000,
    decreases 16 - k,
{
    if k < 16 {
        lemma_pow256_bound(k + 1);
        assert(pow256(k + 1) == 256 * pow256(k));
    } else {
        reveal_with_fuel(pow256, 17);
    }
}

} // verus!
